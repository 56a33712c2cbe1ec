use minigrep::search::{search, search_case_insensitive};

#[test]
fn case_sensitive() {
    let query = "duct";
    let contents = "\
Rust is cool:
It does a lot of things
safe, fast, productive.
Duct tape.";

    assert_eq!(vec!["safe, fast, productive."], search(query, contents));
}

#[test]
fn case_insensitive() {
    let query = "duct";
    let contents = "\
Rust is cool:
It does a lot of things
safe, fast, productive.
Duct tape.";

    assert_eq!(
        vec!["safe, fast, productive.", "Duct tape."],
        search_case_insensitive(query, contents)
    );
}

#[test]
fn empty_query_returns_every_line() {
    let contents = "first\nsecond\nthird";
    assert_eq!(vec!["first", "second", "third"], search("", contents));
    assert_eq!(
        vec!["first", "second", "third"],
        search_case_insensitive("", contents)
    );
}

#[test]
fn empty_contents_returns_nothing() {
    assert_eq!(Vec::<&str>::new(), search("anything", ""));
    assert_eq!(Vec::<&str>::new(), search_case_insensitive("anything", ""));
    assert_eq!(Vec::<&str>::new(), search("", ""));
}

#[test]
fn trailing_newline_adds_no_empty_line() {
    assert_eq!(vec!["alpha", "beta"], search("", "alpha\nbeta\n"));
}

#[test]
fn carriage_return_line_endings_are_stripped() {
    let contents = "one\r\ntwo\r\nthree\r\n";
    assert_eq!(vec!["two"], search("two", contents));
    assert_eq!(vec!["one", "two", "three"], search("", contents));
}

#[test]
fn lone_carriage_return_stays_in_its_line() {
    let contents = "left\rright\nother";
    assert_eq!(vec!["left\rright"], search("\r", contents));
    assert_eq!(vec!["left\rright", "other"], search("", contents));
}

#[test]
fn no_match_is_a_silent_success() {
    let contents = "nothing to see\nhere";
    assert_eq!(Vec::<&str>::new(), search("absent", contents));
}

#[test]
fn search_is_exact_about_case() {
    let contents = "Rust\nrust\nRUST";
    assert_eq!(vec!["rust"], search("rust", contents));
}

#[test]
fn case_insensitive_folds_ascii_letters() {
    let contents = "rUsT is here\nnothing else";
    assert_eq!(vec!["rUsT is here"], search_case_insensitive("RuSt", contents));
}

#[test]
fn search_handles_multibyte_characters_exactly() {
    let contents = "caf\u{e9} au lait\nplain coffee";
    assert_eq!(vec!["caf\u{e9} au lait"], search("caf\u{e9}", contents));
}

#[test]
fn running_the_search_twice_gives_the_same_lines() {
    let query = "st";
    let contents = "first\nsecond\nlast\n";
    let once = search(query, contents);
    let twice = search(query, contents);
    assert_eq!(once, twice);
}

#[test]
fn case_insensitive_result_covers_the_case_sensitive_one() {
    let query = "Ta";
    let contents = "Duct tape\nTape measure\nstring\nTAPE";
    let strict = search(query, contents);
    let folded = search_case_insensitive(query, contents);
    for line in &strict {
        assert!(folded.contains(line));
    }
}

#[test]
fn line_matching_more_than_once_appears_once() {
    let contents = "echo echo echo\nquiet";
    assert_eq!(vec!["echo echo echo"], search("echo", contents));
}
