use minigrep::{search_strategy_factory, CaseInsensitiveSearch, CaseSensitiveSearch, SearchStrategy};

fn get_contents() -> &'static str {
    "Rust:
safe, fast, productive.
Pick three.
Trust me"
}

#[test]
fn case_sensitive_search() {
    let query = "Rust";
    let contents = get_contents();

    let result = CaseSensitiveSearch.search(query, contents);

    assert_eq!(vec!["Rust:"], result);
}

#[test]
fn case_insensitive_search() {
    let query = "RuSt";
    let contents = get_contents();

    let result = CaseInsensitiveSearch.search(query, contents);

    assert_eq!(vec!["Rust:", "Trust me"], result);
}

#[test]
fn empty_query_selects_every_line() {
    let every = vec!["Rust:", "safe, fast, productive.", "Pick three.", "Trust me"];
    assert_eq!(every, CaseSensitiveSearch.search("", get_contents()));
    assert_eq!(every, CaseInsensitiveSearch.search("", get_contents()));
}

#[test]
fn empty_contents_hold_no_line() {
    let none: Vec<&str> = Vec::new();
    assert_eq!(none, CaseSensitiveSearch.search("", ""));
    assert_eq!(none, CaseInsensitiveSearch.search("", ""));
    assert_eq!(none, CaseSensitiveSearch.search("x", ""));
    assert_eq!(none, CaseInsensitiveSearch.search("x", ""));
}

#[test]
fn query_that_no_line_holds_selects_nothing() {
    let none: Vec<&str> = Vec::new();
    assert_eq!(none, CaseSensitiveSearch.search("rust:", get_contents()));
    assert_eq!(none, CaseInsensitiveSearch.search("rusty", get_contents()));
}

#[test]
fn last_line_needs_no_line_feed() {
    assert_eq!(vec!["two"], CaseSensitiveSearch.search("two", "one\ntwo"));
    assert_eq!(vec!["one", "two"], CaseSensitiveSearch.search("", "one\ntwo"));
}

#[test]
fn final_line_feed_adds_no_line() {
    assert_eq!(vec!["one", "two"], CaseSensitiveSearch.search("", "one\ntwo\n"));
    assert_eq!(vec!["one", "two", ""], CaseSensitiveSearch.search("", "one\ntwo\n\n"));
}

#[test]
fn blank_lines_are_lines() {
    assert_eq!(vec!["a", "", "b"], CaseSensitiveSearch.search("", "a\n\nb\n"));
    assert_eq!(vec![""], CaseInsensitiveSearch.search("", "\n"));
}

#[test]
fn carriage_return_before_line_feed_is_no_part_of_the_line() {
    assert_eq!(vec!["a", "b"], CaseSensitiveSearch.search("", "a\r\nb\r\n"));
    assert_eq!(vec!["a\rb"], CaseSensitiveSearch.search("", "a\rb\n"));
    assert_eq!(vec!["a", "b\r"], CaseSensitiveSearch.search("", "a\nb\r"));
    assert_eq!(vec!["a\r", ""], CaseSensitiveSearch.search("", "a\r\r\n\r\n"));
    let none: Vec<&str> = Vec::new();
    assert_eq!(none, CaseSensitiveSearch.search("\r", "a\r\nb\r\n"));
}

#[test]
fn every_line_is_a_line_of_std() {
    let texts = [
        "",
        "\n",
        "\r\n",
        "\r",
        "a",
        "a\n",
        "a\r\n",
        "a\n\n",
        "\n\na",
        "a\r\n\r\nb\r",
        "foo\r\nbar\n\nbaz\r",
        "na\u{ef}ve caf\u{e9}\n\u{fc}ber\r\n\u{65e5}\u{672c}\u{8a9e}\n\u{1f980}",
        get_contents(),
    ];
    for text in texts {
        let expected: Vec<&str> = text.lines().collect();
        assert_eq!(expected, CaseSensitiveSearch.search("", text));
        assert_eq!(expected, CaseInsensitiveSearch.search("", text));
    }
}

#[test]
fn results_keep_order_and_repeats() {
    let contents = "x1\ny\nx2\nx1\nX3";
    assert_eq!(vec!["x1", "x2", "x1"], CaseSensitiveSearch.search("x", contents));
    assert_eq!(vec!["x1", "x2", "x1", "X3"], CaseInsensitiveSearch.search("x", contents));
}

#[test]
fn results_are_slices_of_the_contents() {
    let contents = String::from("alpha\nbeta\ngamma");
    let range = contents.as_bytes().as_ptr_range();
    for line in CaseSensitiveSearch.search("a", &contents) {
        assert!(range.contains(&line.as_ptr()));
    }
}

#[test]
fn exact_result_is_within_the_result_that_ignores_case() {
    let contents = "Rust:\nsafe, fast, productive.\nTrust me\nRUST\nrust and Rust";
    let exact = CaseSensitiveSearch.search("Rust", contents);
    let folded = CaseInsensitiveSearch.search("Rust", contents);
    assert_eq!(vec!["Rust:", "rust and Rust"], exact);
    assert_eq!(vec!["Rust:", "Trust me", "RUST", "rust and Rust"], folded);
    let mut from: usize = 0;
    for line in exact {
        let at = folded[from..].iter().position(|other| *other == line);
        assert!(at.is_some());
        from += at.unwrap() + 1;
    }
}

#[test]
fn final_sigma_is_folded_by_its_place_in_the_word() {
    // The capital sigma that ends a word folds to the final form, a lone one
    // to the medial form, so folding loses this exact match.
    let contents = "\u{391}\u{3a3}";
    let query = "\u{3a3}";
    assert_eq!(vec![contents], CaseSensitiveSearch.search(query, contents));
    let none: Vec<&str> = Vec::new();
    assert_eq!(none, CaseInsensitiveSearch.search(query, contents));
}

#[test]
fn case_is_ignored_beyond_ascii() {
    let contents = "na\u{ef}ve caf\u{e9}\n\u{dc}BER ALLES\n\u{65e5}\u{672c}\u{8a9e}";
    assert_eq!(vec!["\u{dc}BER ALLES"], CaseInsensitiveSearch.search("\u{fc}ber", contents));
    assert_eq!(vec!["na\u{ef}ve caf\u{e9}"], CaseInsensitiveSearch.search("CAF\u{c9}", contents));
    let none: Vec<&str> = Vec::new();
    assert_eq!(none, CaseSensitiveSearch.search("\u{fc}ber", contents));
    assert_eq!(vec!["\u{65e5}\u{672c}\u{8a9e}"], CaseSensitiveSearch.search("\u{672c}", contents));
}

#[test]
fn line_is_returned_as_written_when_case_is_ignored() {
    assert_eq!(vec!["MiXeD Case"], CaseInsensitiveSearch.search("mixed case", "MiXeD Case\n"));
}

#[test]
fn factory_gives_a_strategy_for_either_flag() {
    let exact = search_strategy_factory(false);
    let folding = search_strategy_factory(true);
    assert!(exact.is_some());
    assert!(folding.is_some());
    assert_eq!(vec!["Rust:"], exact.unwrap().search("Rust", get_contents()));
    assert_eq!(vec!["Rust:", "Trust me"], folding.unwrap().search("rUsT", get_contents()));
}

#[test]
fn strategies_have_a_default() {
    assert_eq!(vec!["Rust:"], CaseSensitiveSearch::default().search("Rust", get_contents()));
    assert_eq!(
        vec!["Rust:", "Trust me"],
        CaseInsensitiveSearch::default().search("rust", get_contents())
    );
}
