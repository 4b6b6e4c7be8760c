//! Running one search over a text that has been loaded.

use crate::config::Config;
use crate::lines::lines_of;
use crate::search::{line_views, search_strategy_factory, SearchStrategy};
use crate::subsequence::{is_subsequence, lemma_filter_agrees};
use vstd::prelude::*;

verus! {

/// Searches `contents` as `config` asks: picks the strategy that
/// `config.ignore_case` calls for and returns the lines that it reports for
/// `config.query`, in the order in which they are to be written out. Loading
/// the file that `config.file_path` names, and writing the lines, is left to
/// the caller.
pub fn run<'a>(config: Config, contents: &'a str) -> (results: Vec<&'a str>)
    ensures
        line_views(results@) == lines_of(contents@).filter(
            |line: Seq<char>| config.selects(line),
        ),
        config.query@.len() == 0 ==> line_views(results@) == lines_of(contents@),
        is_subsequence(line_views(results@), lines_of(contents@)),
{
    let strategy = search_strategy_factory(config.ignore_case).expect(
        "Should have returned a search strategy",
    );
    let results = strategy.search(config.query.as_str(), contents);
    proof {
        lemma_filter_agrees(
            lines_of(contents@),
            |line: Seq<char>| strategy.matches(config.query@, line),
            |line: Seq<char>| config.selects(line),
        );
    }
    results
}

} // verus!
