//! Substring containment: what it means, and a search that decides it.

use crate::encoding::{lemma_encoded_prefix, lemma_encoding_concat, lemma_encoding_len, lemma_leading_byte_starts_suffix};
use vstd::prelude::*;
use vstd::string::StringSliceAdditionalSpecFns;
use vstd::utf8::{encode_utf8, encode_utf8_first_scalar};

verus! {

/// `needle` stands in `haystack` from position `at` on.
pub open spec fn occurs_at<T>(needle: Seq<T>, haystack: Seq<T>, at: int) -> bool {
    &&& 0 <= at
    &&& at + needle.len() <= haystack.len()
    &&& haystack.subrange(at, at + needle.len()) == needle
}

/// `needle` stands somewhere in `haystack` as a contiguous run.
pub open spec fn is_substring<T>(needle: Seq<T>, haystack: Seq<T>) -> bool {
    exists|at: int| occurs_at(needle, haystack, at)
}

/// The empty sequence is a substring of every sequence.
pub proof fn lemma_empty_is_substring<T>(haystack: Seq<T>)
    ensures
        is_substring(Seq::<T>::empty(), haystack),
{
    assert(haystack.subrange(0, 0) =~= Seq::<T>::empty());
    assert(occurs_at(Seq::<T>::empty(), haystack, 0));
}

/// One text is a substring of another exactly when its UTF-8 encoding is a
/// substring of the other's encoding.
pub proof fn lemma_substring_of_encodings(needle: Seq<char>, haystack: Seq<char>)
    ensures
        is_substring(needle, haystack) <==> is_substring(
            encode_utf8(needle),
            encode_utf8(haystack),
        ),
{
    let nb = encode_utf8(needle);
    let hb = encode_utf8(haystack);
    if is_substring(needle, haystack) {
        let at: int = choose|at: int| occurs_at(needle, haystack, at);
        let before = haystack.take(at);
        let after = haystack.skip(at + needle.len());
        assert(haystack =~= before + (needle + after));
        lemma_encoding_concat(before, needle + after);
        lemma_encoding_concat(needle, after);
        let start: int = encode_utf8(before).len() as int;
        assert(hb.subrange(start, start + nb.len()) =~= nb);
        assert(occurs_at(nb, hb, start));
    }
    if is_substring(nb, hb) {
        if needle.len() == 0 {
            lemma_empty_is_substring(haystack);
            assert(needle =~= Seq::<char>::empty());
        } else {
            let start: int = choose|start: int| occurs_at(nb, hb, start);
            lemma_encoding_len(needle);
            encode_utf8_first_scalar(needle);
            assert(hb[start] == hb.subrange(start, start + nb.len())[0]);
            let skipped: int = lemma_leading_byte_starts_suffix(haystack, start);
            let rest = haystack.skip(skipped);
            assert(nb =~= hb.skip(start).subrange(0, nb.len() as int));
            lemma_encoded_prefix(needle, rest);
            assert(haystack.subrange(skipped, skipped + needle.len()) =~= rest.subrange(
                0,
                needle.len() as int,
            ));
            assert(occurs_at(needle, haystack, skipped));
        }
    }
}

/// Whether `needle` stands in `haystack` from index `at` on.
fn bytes_occur_at(needle: &[u8], haystack: &[u8], at: usize) -> (found: bool)
    requires
        at + needle@.len() <= haystack@.len(),
    ensures
        found == occurs_at(needle@, haystack@, at as int),
{
    let len: usize = needle.len();
    let total: usize = haystack.len();
    let mut k: usize = 0;
    while k < len
        invariant
            len == needle@.len(),
            total == haystack@.len(),
            at + len <= total,
            0 <= k <= len,
            forall|j: int| 0 <= j < k ==> needle@[j] == haystack@[at + j],
        decreases len - k,
    {
        if needle[k] != haystack[at + k] {
            proof {
                let window = haystack@.subrange(at as int, at + len);
                assert(window[k as int] == haystack@[at + k]);
            }
            return false;
        }
        k += 1;
    }
    assert(haystack@.subrange(at as int, at + len) =~= needle@);
    true
}

/// Whether `needle` stands somewhere in `haystack`.
fn bytes_contain(haystack: &[u8], needle: &[u8]) -> (found: bool)
    ensures
        found == is_substring(needle@, haystack@),
{
    if needle.len() > haystack.len() {
        return false;
    }
    let last: usize = haystack.len() - needle.len();
    let mut at: usize = 0;
    loop
        invariant
            last + needle@.len() == haystack@.len(),
            0 <= at <= last,
            forall|k: int| 0 <= k < at ==> !occurs_at(needle@, haystack@, k),
        decreases last - at,
    {
        if bytes_occur_at(needle, haystack, at) {
            return true;
        }
        if at == last {
            return false;
        }
        at += 1;
    }
}

/// Whether `needle` is a substring of `haystack`, compared character by
/// character with no folding. The empty text is a substring of every text.
pub fn contains(haystack: &str, needle: &str) -> (found: bool)
    ensures
        found == is_substring(needle@, haystack@),
{
    proof {
        lemma_substring_of_encodings(needle@, haystack@);
    }
    bytes_contain(haystack.as_bytes(), needle.as_bytes())
}

} // verus!
