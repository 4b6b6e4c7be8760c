//! Searching a text for the lines that hold a query.

use crate::folding::{lowercase, to_lowercase};
use crate::lines::{after_first_line, first_line, lines_of, split_first_line};
use crate::matching::{contains, is_substring, lemma_empty_is_substring};
use crate::subsequence::{is_subsequence, lemma_filter_is_subsequence, lemma_filter_keeps_all, lemma_narrower_filter};
use vstd::prelude::*;

verus! {

/// The texts of a sequence of string slices.
pub open spec fn line_views(lines: Seq<&str>) -> Seq<Seq<char>> {
    lines.map_values(|line: &str| line@)
}

/// Whether a case-insensitive search for `query` reports `line`: the
/// lowercase form of the query is a substring of the lowercase form of the
/// line. An empty query matches every line.
pub open spec fn matches_ignoring_case(query: Seq<char>, line: Seq<char>) -> bool {
    query.len() == 0 || is_substring(lowercase(query), lowercase(line))
}

/// A way to decide which lines of a text a query selects.
pub trait SearchStrategy {
    /// Whether a search for `query` reports `line`.
    spec fn matches(&self, query: Seq<char>, line: Seq<char>) -> bool;

    /// The lines of `contents` that match `query`, in the order in which they
    /// stand in `contents`, each as a slice of `contents`. An empty query
    /// selects every line.
    fn search<'a>(&self, query: &str, contents: &'a str) -> (results: Vec<&'a str>)
        ensures
            line_views(results@) == lines_of(contents@).filter(
                |line: Seq<char>| self.matches(query@, line),
            ),
            query@.len() == 0 ==> line_views(results@) == lines_of(contents@),
            is_subsequence(line_views(results@), lines_of(contents@)),
    ;
}

/// What a search for `query` in `contents` reports under `strategy`: the
/// lines of `contents` that match, in their order. This is the result that
/// `SearchStrategy::search` promises.
pub open spec fn found_by<S: SearchStrategy + ?Sized>(
    strategy: &S,
    query: Seq<char>,
    contents: Seq<char>,
) -> Seq<Seq<char>> {
    lines_of(contents).filter(|line: Seq<char>| strategy.matches(query, line))
}

/// One step of a search: the matching lines of a text that is not empty are
/// its first line, if that matches, and the matching lines of the rest.
proof fn lemma_select_step(text: Seq<char>, wanted: spec_fn(Seq<char>) -> bool)
    requires
        text.len() > 0,
    ensures
        after_first_line(text).len() < text.len(),
        lines_of(text).filter(wanted) == (if wanted(first_line(text)) {
            seq![first_line(text)]
        } else {
            Seq::empty()
        }) + lines_of(after_first_line(text)).filter(wanted),
{
    let first = seq![first_line(text)];
    Seq::filter_distributes_over_add(first, lines_of(after_first_line(text)), wanted);
    reveal_with_fuel(Seq::filter, 2);
    assert(first.drop_last() =~= Seq::<Seq<char>>::empty());
    assert(first.filter(wanted) =~= if wanted(first_line(text)) {
        first
    } else {
        Seq::empty()
    });
}

/// What a search has to show of its result: what a filter keeps of the
/// lines is a subsequence of them, and all of them where it lets each pass.
proof fn lemma_search_done(lines: Seq<Seq<char>>, wanted: spec_fn(Seq<char>) -> bool)
    ensures
        is_subsequence(lines.filter(wanted), lines),
        (forall|i: int| 0 <= i < lines.len() ==> wanted(#[trigger] lines[i])) ==> lines.filter(
            wanted,
        ) == lines,
{
    lemma_filter_is_subsequence(lines, wanted);
    if forall|i: int| 0 <= i < lines.len() ==> wanted(#[trigger] lines[i]) {
        lemma_filter_keeps_all(lines, wanted);
    }
}

/// Reports the lines that hold the query as it is written.
#[derive(Default)]
pub struct CaseSensitiveSearch;

impl SearchStrategy for CaseSensitiveSearch {
    open spec fn matches(&self, query: Seq<char>, line: Seq<char>) -> bool {
        is_substring(query, line)
    }

    fn search<'a>(&self, query: &str, contents: &'a str) -> (results: Vec<&'a str>) {
        let mut results: Vec<&'a str> = Vec::new();
        let mut rest: &'a str = contents;
        let ghost wanted = |line: Seq<char>| self.matches(query@, line);
        proof {
            if query@.len() == 0 {
                assert forall|i: int| 0 <= i < lines_of(contents@).len() implies wanted(
                    #[trigger] lines_of(contents@)[i],
                ) by {
                    assert(query@ =~= Seq::<char>::empty());
                    lemma_empty_is_substring(lines_of(contents@)[i]);
                }
            }
        }
        loop
            invariant
                line_views(results@) + lines_of(rest@).filter(wanted) == lines_of(
                    contents@,
                ).filter(wanted),
                wanted == (|line: Seq<char>| self.matches(query@, line)),
                query@.len() == 0 ==> forall|i: int|
                    0 <= i < lines_of(contents@).len() ==> wanted(
                        #[trigger] lines_of(contents@)[i],
                    ),
            decreases rest@.len(),
        {
            match split_first_line(rest) {
                None => {
                    proof {
                        reveal_with_fuel(Seq::filter, 1);
                        assert(line_views(results@) =~= lines_of(contents@).filter(wanted));
                        lemma_search_done(lines_of(contents@), wanted);
                    }
                    return results;
                },
                Some((line, after)) => {
                    proof {
                        lemma_select_step(rest@, wanted);
                    }
                    let ghost before = results@;
                    if contains(line, query) {
                        results.push(line);
                        assert(line_views(results@) =~= line_views(before) + seq![line@]);
                    }
                    assert(line_views(results@) + lines_of(after@).filter(wanted) =~= line_views(
                        before,
                    ) + lines_of(rest@).filter(wanted));
                    rest = after;
                },
            }
        }
    }
}

/// Reports the lines that hold the query in any mix of upper and lower case.
#[derive(Default)]
pub struct CaseInsensitiveSearch;

impl SearchStrategy for CaseInsensitiveSearch {
    open spec fn matches(&self, query: Seq<char>, line: Seq<char>) -> bool {
        matches_ignoring_case(query, line)
    }

    fn search<'a>(&self, query: &str, contents: &'a str) -> (results: Vec<&'a str>) {
        let folded_query = to_lowercase(query);
        // An empty query selects every line, whatever folding gives.
        let any_line = query.is_empty();
        let mut results: Vec<&'a str> = Vec::new();
        let mut rest: &'a str = contents;
        let ghost wanted = |line: Seq<char>| self.matches(query@, line);
        loop
            invariant
                line_views(results@) + lines_of(rest@).filter(wanted) == lines_of(
                    contents@,
                ).filter(wanted),
                wanted == (|line: Seq<char>| self.matches(query@, line)),
                folded_query@ == lowercase(query@),
                any_line == (query@.len() == 0),
            decreases rest@.len(),
        {
            match split_first_line(rest) {
                None => {
                    proof {
                        reveal_with_fuel(Seq::filter, 1);
                        assert(line_views(results@) =~= lines_of(contents@).filter(wanted));
                        lemma_search_done(lines_of(contents@), wanted);
                    }
                    return results;
                },
                Some((line, after)) => {
                    proof {
                        lemma_select_step(rest@, wanted);
                    }
                    let ghost before = results@;
                    let folded_line = to_lowercase(line);
                    if any_line || contains(folded_line.as_str(), folded_query.as_str()) {
                        results.push(line);
                        assert(line_views(results@) =~= line_views(before) + seq![line@]);
                    }
                    assert(line_views(results@) + lines_of(after@).filter(wanted) =~= line_views(
                        before,
                    ) + lines_of(rest@).filter(wanted));
                    rest = after;
                },
            }
        }
    }
}

/// Where folding loses no match of `query` among the lines of `contents`, a
/// search that ignores case reports every line that the exact search
/// reports, in the same order: the exact result is a subsequence of the
/// case-insensitive one.
pub proof fn lemma_ignoring_case_reports_more(query: Seq<char>, contents: Seq<char>)
    requires
        forall|i: int|
            0 <= i < lines_of(contents).len() && is_substring(
                query,
                #[trigger] lines_of(contents)[i],
            ) ==> matches_ignoring_case(query, lines_of(contents)[i]),
    ensures
        is_subsequence(
            found_by(&CaseSensitiveSearch, query, contents),
            found_by(&CaseInsensitiveSearch, query, contents),
        ),
{
    lemma_narrower_filter(
        lines_of(contents),
        |line: Seq<char>| CaseSensitiveSearch.matches(query, line),
        |line: Seq<char>| CaseInsensitiveSearch.matches(query, line),
    );
}

/// The strategy for a search that ignores case, or for one that does not.
/// There is one for either.
pub fn search_strategy_factory(ignore_case: bool) -> (strategy: Option<Box<dyn SearchStrategy>>)
    ensures
        strategy is Some,
        forall|query: Seq<char>, line: Seq<char>| #[trigger]
            strategy->0.matches(query, line) == if ignore_case {
                matches_ignoring_case(query, line)
            } else {
                is_substring(query, line)
            },
{
    match ignore_case {
        false => Some(Box::new(CaseSensitiveSearch)),
        true => Some(Box::new(CaseInsensitiveSearch)),
    }
}

} // verus!
