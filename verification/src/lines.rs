//! The lines of a text.
//!
//! A text is cut at each line feed. The line feed ends a line and is not part
//! of it; neither is a carriage return that stands directly before the line
//! feed. What follows the last line feed is a line of its own unless it is
//! empty, so a final line feed is optional and the empty text has no lines.

use crate::encoding::{lemma_ascii_char_shows, lemma_boundary_splits, lemma_encoding_injective, lemma_encoding_len, lemma_first_byte};
use vstd::prelude::*;
use vstd::string::StringSliceAdditionalSpecFns;
use vstd::utf8::{char_u32_cast, encode_utf8, encode_utf8_valid_utf8, is_char_boundary, is_char_boundary_iff_not_is_continuation_byte, is_char_boundary_start_end_of_seq};

verus! {

/// The position of the first line feed of `text`, or the length of `text`
/// where it holds none.
pub open spec fn line_end(text: Seq<char>) -> nat
    decreases text.len(),
{
    if text.len() == 0 || text[0] == '\n' {
        0
    } else {
        1 + line_end(text.drop_first())
    }
}

/// `line` without the carriage return at its end, if it has one.
pub open spec fn without_carriage_return(line: Seq<char>) -> Seq<char> {
    if line.len() > 0 && line.last() == '\r' {
        line.drop_last()
    } else {
        line
    }
}

/// The first line of a text that is not empty.
pub open spec fn first_line(text: Seq<char>) -> Seq<char> {
    let end = line_end(text) as int;
    if end < text.len() {
        without_carriage_return(text.take(end))
    } else {
        text
    }
}

/// What is left of a text after its first line and the line feed that ends it.
pub open spec fn after_first_line(text: Seq<char>) -> Seq<char> {
    let end = line_end(text) as int;
    if end < text.len() {
        text.skip(end + 1)
    } else {
        Seq::empty()
    }
}

/// The lines of `text`, in the order in which they stand in it.
pub open spec fn lines_of(text: Seq<char>) -> Seq<Seq<char>>
    decreases text.len(),
{
    if text.len() == 0 {
        Seq::empty()
    } else {
        seq![first_line(text)] + lines_of(after_first_line(text))
    }
}

/// `line_end(text)` is the one position that has no line feed before it and
/// either holds a line feed or is the end of the text.
pub proof fn lemma_line_end(text: Seq<char>, end: int)
    requires
        0 <= end <= text.len(),
        forall|k: int| 0 <= k < end ==> text[k] != '\n',
        end < text.len() ==> text[end] == '\n',
    ensures
        line_end(text) == end,
    decreases end,
{
    if end > 0 {
        let rest = text.drop_first();
        assert forall|k: int| 0 <= k < end - 1 implies rest[k] != '\n' by {
            assert(rest[k] == text[k + 1]);
        }
        lemma_line_end(rest, end - 1);
    }
}

/// A text whose encoding holds no byte 10 holds no line feed.
proof fn lemma_no_line_feed(text: Seq<char>)
    requires
        forall|k: int| 0 <= k < encode_utf8(text).len() ==> encode_utf8(text)[k] != 10,
    ensures
        forall|k: int| 0 <= k < text.len() ==> text[k] != '\n',
{
    assert forall|k: int| 0 <= k < text.len() implies text[k] != '\n' by {
        if text[k] == '\n' {
            lemma_ascii_char_shows(text, k);
        }
    }
}

/// `line` without the carriage return at its end, if it has one.
fn strip_carriage_return<'a>(line: &'a str) -> (stripped: &'a str)
    ensures
        stripped@ == without_carriage_return(line@),
{
    let bytes = line.as_bytes();
    let len: usize = bytes.len();
    if len > 0 && bytes[len - 1] == 13 {
        proof {
            encode_utf8_valid_utf8(line@);
            is_char_boundary_iff_not_is_continuation_byte(bytes@, len - 1);
        }
        let parts = line.split_at(len - 1);
        proof {
            let front = parts.0@;
            let back = parts.1@;
            lemma_boundary_splits(line@, front, back, len - 1);
            lemma_encoding_len(back);
            assert(back.len() == 1) by {
                if back.len() == 0 {
                    assert(encode_utf8(back).len() == 0);
                }
            }
            lemma_first_byte(back);
            assert(back[0] == '\r') by {
                char_u32_cast(back[0], 13u32);
            }
            assert(line@.drop_last() =~= front);
        }
        parts.0
    } else {
        proof {
            if line@.len() > 0 && line@.last() == '\r' {
                lemma_ascii_char_shows(line@, line@.len() - 1);
                assert(line@.skip(line@.len() as int) =~= Seq::<char>::empty());
                assert(encode_utf8(Seq::<char>::empty()).len() == 0);
            }
        }
        line
    }
}

/// Takes the first line off `text`: the line, and what follows it. A text
/// that is empty has no first line.
pub fn split_first_line<'a>(text: &'a str) -> (parts: Option<(&'a str, &'a str)>)
    ensures
        text@.len() == 0 <==> parts is None,
        parts matches Some((line, rest)) ==> line@ == first_line(text@) && rest@
            == after_first_line(text@),
{
    let bytes = text.as_bytes();
    let len: usize = bytes.len();
    proof {
        lemma_encoding_len(text@);
        encode_utf8_valid_utf8(text@);
    }
    if len == 0 {
        return None;
    }
    assert(text@.len() > 0) by {
        if text@.len() == 0 {
            assert(encode_utf8(text@).len() == 0);
        }
    }
    let mut end: usize = 0;
    while end < len && bytes[end] != 10
        invariant
            len == bytes@.len(),
            0 <= end <= len,
            forall|k: int| 0 <= k < end ==> bytes@[k] != 10,
        decreases len - end,
    {
        end += 1;
    }
    if end == len {
        proof {
            is_char_boundary_start_end_of_seq(bytes@);
        }
        let nothing = text.split_at(len).1;
        proof {
            lemma_no_line_feed(text@);
            lemma_line_end(text@, text@.len() as int);
            lemma_encoding_len(nothing@);
            assert(nothing@ =~= Seq::<char>::empty());
        }
        Some((text, nothing))
    } else {
        proof {
            is_char_boundary_iff_not_is_continuation_byte(bytes@, end as int);
        }
        let (head, tail) = text.split_at(end);
        proof {
            lemma_boundary_splits(text@, head@, tail@, end as int);
            let tail_bytes = encode_utf8(tail@);
            assert(tail_bytes[0] == bytes@[end as int]);
            assert(tail@.len() > 0) by {
                if tail@.len() == 0 {
                    assert(encode_utf8(tail@).len() == 0);
                }
            }
            lemma_first_byte(tail@);
            encode_utf8_valid_utf8(tail@);
            assert(is_char_boundary(tail_bytes, 1)) by {
                reveal_with_fuel(is_char_boundary, 2);
                reveal_with_fuel(vstd::utf8::valid_utf8, 2);
            }
        }
        let rest = tail.split_at(1).1;
        proof {
            let tail_bytes = encode_utf8(tail@);
            assert(tail_bytes.subrange(1, tail_bytes.len() as int) =~= tail_bytes.skip(1));
            lemma_encoding_injective(rest@, tail@.drop_first());
            assert(tail@[0] == '\n') by {
                char_u32_cast(tail@[0], 10u32);
            }
            assert forall|k: int| 0 <= k < encode_utf8(head@).len() implies encode_utf8(
                head@,
            )[k] != 10 by {
                assert(encode_utf8(head@)[k] == bytes@[k]);
            }
            lemma_no_line_feed(head@);
            lemma_line_end(text@, head@.len() as int);
            assert(text@.take(head@.len() as int) =~= head@);
            assert(text@.skip(head@.len() as int + 1) =~= rest@);
        }
        Some((strip_carriage_return(head), rest))
    }
}

} // verus!
