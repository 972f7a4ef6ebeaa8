use minigrep::{run, Config};

fn arguments(words: &[&str]) -> Vec<String> {
    words.iter().map(|word| word.to_string()).collect()
}

#[test]
fn three_arguments_make_a_config() {
    let args = arguments(&["prog", "needle", "haystack.txt"]);
    let config = Config::new(&args, false).unwrap();
    assert_eq!("needle", config.query);
    assert_eq!("haystack.txt", config.filename);
    assert!(config.case_sensitive);
}

#[test]
fn fewer_than_three_arguments_are_refused() {
    for words in [&[][..], &["prog"][..], &["prog", "needle"][..]] {
        let args = arguments(words);
        assert_eq!(Err("not enough arguments"), Config::new(&args, false).map(|_| ()));
        assert_eq!(Err("not enough arguments"), Config::new(&args, true).map(|_| ()));
    }
}

#[test]
fn arguments_after_the_third_are_ignored() {
    let args = arguments(&["prog", "needle", "haystack.txt", "extra", "more"]);
    let config = Config::new(&args, false).unwrap();
    assert_eq!("needle", config.query);
    assert_eq!("haystack.txt", config.filename);
    assert!(config.case_sensitive);
}

#[test]
fn the_switch_turns_case_sensitivity_off() {
    let args = arguments(&["prog", "needle", "haystack.txt"]);
    assert!(!Config::new(&args, true).unwrap().case_sensitive);
    assert!(Config::new(&args, false).unwrap().case_sensitive);
}

#[test]
fn an_empty_query_and_an_unknown_file_are_accepted() {
    let args = arguments(&["prog", "", "nofile.txt"]);
    let config = Config::new(&args, false).unwrap();
    assert_eq!("", config.query);
    assert_eq!("nofile.txt", config.filename);
    let args = arguments(&["prog", "foo", "nofile.txt"]);
    let config = Config::new(&args, false).unwrap();
    assert_eq!("foo", config.query);
    assert_eq!("nofile.txt", config.filename);
    assert!(config.case_sensitive);
}

#[test]
fn the_config_owns_copies_of_the_arguments() {
    let mut args = arguments(&["prog", "needle", "haystack.txt"]);
    let config = Config::new(&args, false).unwrap();
    args[1].push_str(" changed");
    args.clear();
    assert_eq!("needle", config.query);
    assert_eq!("haystack.txt", config.filename);
}

#[test]
fn run_searches_by_the_case_rule_of_the_config() {
    let contents = "Rust:\nsafe, fast, productive.\nPick three.\nTrust me.";
    let args = arguments(&["prog", "rUsT", "poem.txt"]);
    let exact = Config::new(&args, false).unwrap();
    assert_eq!(Vec::<&str>::new(), run(&exact, contents));
    let loose = Config::new(&args, true).unwrap();
    assert_eq!(vec!["Rust:", "Trust me."], run(&loose, contents));
}

#[test]
fn run_returns_the_lines_in_order() {
    let contents = "Rust:\nsafe, fast, productive.\nPick three.\nDuct tape.";
    let args = arguments(&["prog", "t", "poem.txt"]);
    let config = Config::new(&args, false).unwrap();
    assert_eq!(
        vec!["Rust:", "safe, fast, productive.", "Pick three.", "Duct tape."],
        run(&config, contents)
    );
    let args = arguments(&["prog", "duct", "poem.txt"]);
    let config = Config::new(&args, false).unwrap();
    assert_eq!(vec!["safe, fast, productive."], run(&config, contents));
}
