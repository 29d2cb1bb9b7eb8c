use minigrep::{contains_text, search, search_case_insensitive, split_lines};

#[test]
fn search_case_sensitive() {
    let query = "duct";
    let contents = "\
Rust:
safe, fast, productive.
Duct tape
Pick three.";

    assert_eq!(vec!["safe, fast, productive."], search(query, contents));
}

#[test]
fn search_test_case_insensitive() {
    let query = "rUsT";
    let contents = "\
Rust:
safe, fast, productive.
Duct tape
Trust me
Pick three.";

    assert_eq!(vec!["Rust:", "Trust me"], search_case_insensitive(query, contents));
}

#[test]
fn case_sensitive_search_skips_other_case() {
    let contents = "Rust:\nsafe, fast, productive.\nDuct tape\nPick three.";
    assert_eq!(vec!["Duct tape"], search("Duct", contents));
    assert!(search("rust", contents).is_empty());
}

#[test]
fn search_twice_gives_same_lines() {
    let contents = "one fish\ntwo fish\nred fish\nblue\n";
    let first = search("fish", contents);
    let second = search("fish", contents);
    assert_eq!(first, second);
    assert_eq!(vec!["one fish", "two fish", "red fish"], first);
    let first = search_case_insensitive("FISH", contents);
    let second = search_case_insensitive("FISH", contents);
    assert_eq!(first, second);
    assert_eq!(vec!["one fish", "two fish", "red fish"], first);
}

#[test]
fn empty_query_returns_every_line() {
    let contents = "  first  \n\nthird\tline";
    assert_eq!(vec!["  first  ", "", "third\tline"], search("", contents));
    assert_eq!(vec!["  first  ", "", "third\tline"], search_case_insensitive("", contents));
}

#[test]
fn empty_contents_has_no_lines() {
    assert!(search("", "").is_empty());
    assert!(search_case_insensitive("a", "").is_empty());
    assert!(split_lines("").is_empty());
}

#[test]
fn final_newline_adds_no_empty_line() {
    assert_eq!(vec!["a", "b"], split_lines("a\nb\n"));
    assert_eq!(vec!["a", "", "b"], split_lines("a\n\nb"));
    assert_eq!(vec![""], split_lines("\n"));
    assert_eq!(vec!["", ""], split_lines("\n\n"));
}

#[test]
fn lines_are_kept_verbatim() {
    assert_eq!(vec!["a\r", "b"], split_lines("a\r\nb"));
    assert_eq!(vec![" x x "], search("x", " x x \ny"));
}

#[test]
fn matching_line_is_listed_once() {
    assert_eq!(vec!["aaa"], search("a", "aaa\nbbb"));
}

#[test]
fn contains_text_finds_substrings() {
    assert!(contains_text("productive", "duct"));
    assert!(contains_text("duct", "duct"));
    assert!(contains_text("anything", ""));
    assert!(contains_text("", ""));
    assert!(!contains_text("Duct", "duct"));
    assert!(!contains_text("du", "duct"));
    assert!(!contains_text("", "a"));
    assert!(contains_text("abcabd", "abd"));
}

#[test]
fn case_insensitive_search_lowercases_beyond_ascii() {
    let contents = "ÜBER alles\nuber\nnichts";
    assert_eq!(vec!["ÜBER alles"], search_case_insensitive("über", contents));
    assert_eq!(vec!["ÜBER alles"], search("Ü", contents));
    assert!(search("ü", contents).is_empty());
}
