use minigrep::config::{MISSING_FILE_PATH, MISSING_QUERY};
use minigrep::{run, Config};

fn args(given: &[&str]) -> std::vec::IntoIter<String> {
    given.iter().map(|arg| arg.to_string()).collect::<Vec<String>>().into_iter()
}

#[test]
fn build_reads_query_and_file_path() {
    let config = Config::build(args(&["minigrep", "needle", "haystack.txt"]), false);
    assert!(config.is_ok());
    let config = config.ok().unwrap();
    assert_eq!("needle", config.query);
    assert_eq!("haystack.txt", config.file_path);
    assert!(!config.ignore_case);
}

#[test]
fn build_passes_over_the_program_name() {
    let config = Config::build(args(&["needle", "haystack.txt"]), false);
    assert_eq!(Some("Didn't get a filepath"), config.err());
}

#[test]
fn build_reads_no_further_argument() {
    let config = Config::build(args(&["minigrep", "needle", "haystack.txt", "more", "-x"]), true);
    let config = config.ok().unwrap();
    assert_eq!("needle", config.query);
    assert_eq!("haystack.txt", config.file_path);
    assert!(config.ignore_case);
}

#[test]
fn build_takes_the_case_flag_as_given() {
    let exact = Config::build(args(&["minigrep", "q", "f"]), false).ok().unwrap();
    let folding = Config::build(args(&["minigrep", "q", "f"]), true).ok().unwrap();
    assert!(!exact.ignore_case);
    assert!(folding.ignore_case);
}

#[test]
fn build_accepts_empty_arguments() {
    let config = Config::build(args(&["", "", ""]), false).ok().unwrap();
    assert_eq!("", config.query);
    assert_eq!("", config.file_path);
}

#[test]
fn build_without_query_fails() {
    assert_eq!(Some("Didn't get a string to query"), Config::build(args(&["minigrep"]), false).err());
    assert_eq!(Some(MISSING_QUERY), Config::build(args(&[]), true).err());
}

#[test]
fn build_without_file_path_fails() {
    let config = Config::build(args(&["minigrep", "needle"]), false);
    assert_eq!(Some("Didn't get a filepath"), config.err());
    assert_eq!(Some(MISSING_FILE_PATH), Config::build(args(&["minigrep", "needle"]), true).err());
}

#[test]
fn run_searches_as_the_config_asks() {
    let contents = "Rust:\nsafe, fast, productive.\nPick three.\nTrust me";
    let exact = Config {
        query: String::from("Rust"),
        file_path: String::from("poem.txt"),
        ignore_case: false,
    };
    let folding = Config {
        query: String::from("RuSt"),
        file_path: String::from("poem.txt"),
        ignore_case: true,
    };
    assert_eq!(vec!["Rust:"], run(exact, contents));
    assert_eq!(vec!["Rust:", "Trust me"], run(folding, contents));
}

#[test]
fn run_with_an_empty_query_returns_every_line() {
    let contents = "one\r\ntwo\n\nthree";
    for ignore_case in [false, true] {
        let config = Config { query: String::new(), file_path: String::new(), ignore_case };
        assert_eq!(vec!["one", "two", "", "three"], run(config, contents));
    }
}

#[test]
fn run_on_an_empty_text_returns_nothing() {
    let config = Config { query: String::from("a"), file_path: String::new(), ignore_case: true };
    let none: Vec<&str> = Vec::new();
    assert_eq!(none, run(config, ""));
}
