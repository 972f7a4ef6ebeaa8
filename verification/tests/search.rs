use minigrep::{search, search_case_insensitive};

#[test]
fn case_sensitive() {
    let query = "duct";
    let contents = "\
Rust:
safe, fast, productive.
Pick three.
Duct tape.";

    assert_eq!(vec!["safe, fast, productive."], search(query, contents));
}

#[test]
fn case_insensitive() {
    let query = "rUsT";
    let contents = "\
Rust:
safe, fast, productive.
Pick three.
Trust me.";

    assert_eq!(
        vec!["Rust:", "Trust me."],
        search_case_insensitive(query, contents)
    );
}

#[test]
fn no_match_is_an_empty_result() {
    let contents = "one\ntwo\nthree";
    assert_eq!(Vec::<&str>::new(), search("four", contents));
    assert_eq!(Vec::<&str>::new(), search_case_insensitive("FOUR", contents));
}

#[test]
fn empty_contents_have_no_lines() {
    assert_eq!(Vec::<&str>::new(), search("x", ""));
    assert_eq!(Vec::<&str>::new(), search("", ""));
    assert_eq!(Vec::<&str>::new(), search_case_insensitive("x", ""));
    assert_eq!(Vec::<&str>::new(), search_case_insensitive("", ""));
}

#[test]
fn empty_query_matches_every_line() {
    let contents = "alpha\n\nBeta\r\ngamma";
    let every = vec!["alpha", "", "Beta", "gamma"];
    assert_eq!(every, search("", contents));
    assert_eq!(every, search_case_insensitive("", contents));
}

#[test]
fn matches_keep_order_and_duplicates() {
    let contents = "b a\na b\nc\na b\nb a";
    assert_eq!(vec!["b a", "a b", "a b", "b a"], search("a", contents));
    assert_eq!(vec!["a b", "a b"], search("a b", contents));
}

#[test]
fn a_line_with_several_occurrences_appears_once() {
    assert_eq!(vec!["banana"], search("an", "banana\ncherry"));
    assert_eq!(vec!["banana"], search_case_insensitive("AN", "banana\ncherry"));
}

#[test]
fn every_result_contains_the_query_and_nothing_is_missed() {
    let contents = "to be\nor not\nto be\nthat is\nthe question\n";
    let query = "t";
    let found = search(query, contents);
    for line in &found {
        assert!(line.contains(query));
    }
    let expected: Vec<&str> = contents.lines().filter(|line| line.contains(query)).collect();
    assert_eq!(expected, found);
    assert_eq!(vec!["to be", "or not", "to be", "that is", "the question"], found);
}

#[test]
fn a_query_does_not_match_across_lines() {
    assert_eq!(Vec::<&str>::new(), search("ab", "a\nb"));
    assert_eq!(Vec::<&str>::new(), search("a\nb", "a\nb"));
    assert_eq!(Vec::<&str>::new(), search("\n", "a\nb\n"));
}

#[test]
fn the_query_may_be_the_whole_line_or_stand_at_either_end() {
    let contents = "needle\nneedle in front\nat the back needle\nnee dle";
    assert_eq!(
        vec!["needle", "needle in front", "at the back needle"],
        search("needle", contents)
    );
    assert_eq!(Vec::<&str>::new(), search("needles", contents));
}

#[test]
fn lines_are_split_as_the_standard_library_splits_them() {
    let samples = [
        "",
        "\n",
        "\n\n",
        "a",
        "a\n",
        "a\nb",
        "a\n\nb",
        "a\r\nb",
        "a\r\n",
        "\r\n",
        "\r",
        "a\r",
        "a\rb\nc",
        "a\r\r\nb",
        "\n\r\n\r",
        "caf\u{e9}\nna\u{ef}ve\r\n\u{65e5}\u{672c}\u{8a9e}\n\u{1f600}",
        "tab\there\n  spaces  \n",
    ];
    for contents in samples {
        let expected: Vec<&str> = contents.lines().collect();
        assert_eq!(expected, search("", contents));
        assert_eq!(expected, search_case_insensitive("", contents));
    }
}

#[test]
fn a_carriage_return_before_a_line_feed_is_not_part_of_the_line() {
    assert_eq!(vec!["one", "two"], search("", "one\r\ntwo\r\n"));
    assert_eq!(Vec::<&str>::new(), search("\r", "one\r\ntwo\r\n"));
    assert_eq!(vec!["two\r"], search("\r", "one\r\ntwo\r"));
    assert_eq!(vec!["a\rb"], search("\r", "a\rb\nc"));
}

#[test]
fn searching_twice_gives_the_same_lines() {
    let contents = "Rust:\nsafe, fast, productive.\nPick three.\nTrust me.";
    assert_eq!(search("st", contents), search("st", contents));
    assert_eq!(
        search_case_insensitive("ST", contents),
        search_case_insensitive("ST", contents)
    );
}

#[test]
fn ignoring_case_finds_what_the_exact_search_finds_and_more() {
    let contents = "Rust:\nsafe, fast, productive.\nPick three.\nTrust me.\nRUST";
    let exact = search("Rust", contents);
    let loose = search_case_insensitive("Rust", contents);
    assert_eq!(vec!["Rust:"], exact);
    assert_eq!(vec!["Rust:", "Trust me.", "RUST"], loose);
    let narrowed: Vec<&str> = loose.iter().copied().filter(|line| line.contains("Rust")).collect();
    assert_eq!(exact, narrowed);
}

#[test]
fn the_case_of_the_query_does_not_matter_when_case_is_ignored() {
    let contents = "Rust:\nsafe, fast, productive.\nPick three.\nTrust me.";
    let expected = vec!["Rust:", "Trust me."];
    for query in ["rust", "RUST", "Rust", "rUsT", "RusT"] {
        assert_eq!(expected, search_case_insensitive(query, contents));
    }
}

#[test]
fn results_keep_their_own_case() {
    assert_eq!(
        vec!["HELLO World", "hello world"],
        search_case_insensitive("Hello", "HELLO World\nbye\nhello world")
    );
}

#[test]
fn exact_search_matches_text_beyond_ascii() {
    let contents = "gr\u{fc}n\nGR\u{dc}N\n\u{65e5}\u{672c}\u{8a9e}\nrot";
    assert_eq!(vec!["gr\u{fc}n"], search("\u{fc}", contents));
    assert_eq!(vec!["\u{65e5}\u{672c}\u{8a9e}"], search("\u{672c}", contents));
}

#[test]
fn ignoring_case_folds_letters_beyond_ascii() {
    let contents = "gr\u{fc}n\nGR\u{dc}N\nrot";
    assert_eq!(
        vec!["gr\u{fc}n", "GR\u{dc}N"],
        search_case_insensitive("\u{dc}", contents)
    );
    assert_eq!(
        vec!["gr\u{fc}n", "GR\u{dc}N"],
        search_case_insensitive("r\u{fc}", contents)
    );
    assert_eq!(vec!["GR\u{dc}N"], search("\u{dc}", contents));
}

#[test]
fn an_ascii_query_is_found_in_a_folded_line_beyond_ascii() {
    assert_eq!(
        vec!["\u{c9}COLE normale"],
        search_case_insensitive("Cole", "\u{c9}COLE normale\nschool")
    );
}

#[test]
fn lowercase_looks_at_the_whole_string() {
    // A capital sigma at the end of a word folds to the final form of the
    // small letter, so the folded query is not part of the folded line here.
    let contents = "\u{391}\u{3a3}\u{391}";
    let query = "\u{391}\u{3a3}";
    assert_eq!(vec![contents], search(query, contents));
    assert_eq!(Vec::<&str>::new(), search_case_insensitive(query, contents));
    assert_eq!(
        contents.to_lowercase().contains(&query.to_lowercase()),
        !search_case_insensitive(query, contents).is_empty()
    );
}
