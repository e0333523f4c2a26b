use minigrep::{contains, format_match, run_on_text, search, ArgumentError, Config};

const POEM: &str = "Rust:\nsafe, fast, productive.\nPick three.\nDuct tape.";

fn args(items: &[&str]) -> Vec<String> {
    items.iter().map(|s| s.to_string()).collect()
}

#[test]
fn case_sensitive() {
    let query = "duct";
    let contents = "Rust:\nsafe, fast, productive.\nPick three.\nDuct tape.";
    assert_eq!(
        vec![(2, "safe, fast, productive.")],
        search(query, contents, &false),
        "Case sensitive results do not match expectations.",
    );
}

#[test]
fn case_insensitive() {
    let query = "rUsT";
    let contents = "Rust:\nsafe, fast, productive.\nPick three.\nTrust noone.";
    assert_eq!(
        vec![(1, "Rust:"), (4, "Trust noone.")],
        search(query, contents, &true),
        "Case in-sensitive results do not match expectations.",
    );
}

#[test]
fn config_build_on_pass() {
    let dummy_parsed_args = vec![
        "".to_string(),
        "dummy_query".to_string(),
        "dummy_file_path".to_string(),
    ];
    let config = Config::build(&dummy_parsed_args, &None);
    assert!(config.is_ok());
    let config = config.unwrap();
    assert_eq!(
        config.query, "dummy_query",
        "Unexpected `query` value {}",
        config.query
    );
    assert_eq!(
        config.file_path, "dummy_file_path",
        "Unexpected `file_path` value {}",
        config.query
    );
}

#[test]
fn config_build_too_few_arguments() {
    let dummy_parsed_args = vec!["prog_name".to_string()];
    let config = Config::build(&dummy_parsed_args, &None);
    assert!(config.is_err(), "Too few arguments case was not detected.");
    assert!(
        config.is_err_and(|err| err.message() == "Too few arguments provided."),
        "Unexpected error message when passing to few arguments."
    );
}

#[test]
fn minigrep_on_pass_case_sensitive() {
    let config = Config::build(&args(&["", "duct", "tests/data/dummy_input.txt"]), &None).unwrap();
    assert_eq!(
        vec![(2, "safe, fast, productive.")],
        search(&config.query, POEM, &config.ignore_case),
        "Case sensitive results do not match expectations.",
    );
}

#[test]
fn minigrep_on_pass_case_insensitive() {
    let config = Config::build(
        &args(&["", "duct", "tests/data/dummy_input.txt"]),
        &Some(String::new()),
    )
    .unwrap();
    assert_eq!(
        vec![(2, "safe, fast, productive."), (4, "Duct tape.")],
        search(&config.query, POEM, &config.ignore_case),
        "Case insensitive results do not match expectations.",
    );
}

#[test]
fn run_on_pass() {
    let config = Config::build(&args(&["", "duct", "tests/data/dummy_input.txt"]), &None).unwrap();
    let result: Result<Vec<String>, String> = run_on_text(&config, Ok(POEM.to_string()));
    assert!(result.is_ok());
}

#[test]
fn build_with_no_arguments_fails() {
    let config = Config::build(&Vec::new(), &Some("1".to_string()));
    assert!(matches!(config, Err(ArgumentError::InsufficientArguments)));
}

#[test]
fn build_with_two_arguments_fails() {
    let config = Config::build(&args(&["prog", "query"]), &None);
    assert!(matches!(config, Err(ArgumentError::InsufficientArguments)));
}

#[test]
fn build_keeps_empty_strings_and_ignores_extra_arguments() {
    let config = Config::build(&args(&["prog", "", "", "extra"]), &None).unwrap();
    assert_eq!(config.query, "");
    assert_eq!(config.file_path, "");
    assert!(!config.ignore_case);
}

#[test]
fn build_sets_ignore_case_for_any_value() {
    let empty = Config::build(&args(&["prog", "q", "f"]), &Some(String::new())).unwrap();
    assert!(empty.ignore_case);
    let other = Config::build(&args(&["prog", "q", "f"]), &Some("0".to_string())).unwrap();
    assert!(other.ignore_case);
    let unset = Config::build(&args(&["prog", "q", "f"]), &None).unwrap();
    assert!(!unset.ignore_case);
}

#[test]
fn empty_query_returns_every_line() {
    let expected = vec![
        (1, "Rust:"),
        (2, "safe, fast, productive."),
        (3, "Pick three."),
        (4, "Duct tape."),
    ];
    assert_eq!(search("", POEM, &false), expected);
    assert_eq!(search("", POEM, &true), expected);
}

#[test]
fn empty_query_keeps_empty_lines() {
    assert_eq!(search("", "a\n\nb\n", &false), vec![(1, "a"), (2, ""), (3, "b")]);
}

#[test]
fn empty_text_has_no_match() {
    assert!(search("", "", &false).is_empty());
    assert!(search("x", "", &true).is_empty());
}

#[test]
fn trailing_newline_adds_no_line() {
    assert_eq!(search("", "one\ntwo\n", &false), vec![(1, "one"), (2, "two")]);
    assert_eq!(search("", "\n", &false), vec![(1, "")]);
}

#[test]
fn carriage_return_line_endings_are_stripped() {
    assert_eq!(
        search("o", "one\r\ntwo\r\nthree\r", &false),
        vec![(1, "one"), (2, "two")]
    );
    assert_eq!(search("\r", "one\r\ntwo\r", &false), vec![(2, "two\r")]);
}

#[test]
fn no_line_matches_gives_empty_result() {
    assert!(search("monkey", POEM, &false).is_empty());
    assert!(search("MONKEY", POEM, &true).is_empty());
}

#[test]
fn query_longer_than_every_line_does_not_match() {
    assert!(search("abcdef", "abc\nab\nabcde", &false).is_empty());
}

#[test]
fn repeated_search_gives_same_result() {
    assert_eq!(search("t", POEM, &true), search("t", POEM, &true));
    assert_eq!(search("t", POEM, &false), search("t", POEM, &false));
}

#[test]
fn ignoring_case_keeps_case_sensitive_matches() {
    let exact = search("D", POEM, &false);
    let folded = search("D", POEM, &true);
    assert_eq!(exact, vec![(4, "Duct tape.")]);
    assert_eq!(folded, vec![(2, "safe, fast, productive."), (4, "Duct tape.")]);
    for m in &exact {
        assert!(folded.contains(m));
    }
}

#[test]
fn ignore_case_folds_non_ascii_letters() {
    assert_eq!(search("ÄPFEL", "äpfel\nbirnen", &true), vec![(1, "äpfel")]);
    assert!(search("ÄPFEL", "äpfel\nbirnen", &false).is_empty());
}

#[test]
fn line_numbers_follow_non_ascii_text() {
    assert_eq!(search("ß", "straße\nweg\nfuß", &false), vec![(1, "straße"), (3, "fuß")]);
}

#[test]
fn contains_finds_runs_of_characters() {
    assert!(contains("productive", "duct"));
    assert!(contains("abc", ""));
    assert!(contains("", ""));
    assert!(!contains("", "a"));
    assert!(!contains("Duct", "duct"));
    assert!(contains("aaab", "aab"));
}

#[test]
fn format_match_writes_number_and_line() {
    assert_eq!(format_match(2, "safe, fast, productive."), "L2: safe, fast, productive.");
    assert_eq!(format_match(0, ""), "L0: ");
    assert_eq!(format_match(1207, "x"), "L1207: x");
    assert_eq!(format_match(usize::MAX, "y"), format!("L{}: y", usize::MAX));
}

#[test]
fn run_on_text_formats_each_match() {
    let config = Config::build(&args(&["", "t", "f"]), &Some(String::new())).unwrap();
    let result: Result<Vec<String>, String> = run_on_text(&config, Ok(POEM.to_string()));
    assert_eq!(
        result.unwrap(),
        vec!["L1: Rust:", "L2: safe, fast, productive.", "L3: Pick three.", "L4: Duct tape."]
    );
}

#[test]
fn run_on_text_passes_read_error_on() {
    let config = Config::build(&args(&["", "t", "missing.txt"]), &None).unwrap();
    let result: Result<Vec<String>, &str> = run_on_text(&config, Err("not found"));
    assert_eq!(result, Err("not found"));
}

#[test]
fn argument_error_message_is_fixed() {
    assert_eq!(ArgumentError::InsufficientArguments.message(), "Too few arguments provided.");
}

#[test]
fn build_with_program_name_only_fails() {
    let config = Config::build(&args(&["prog"]), &None);
    assert!(matches!(config, Err(ArgumentError::InsufficientArguments)));
}

#[test]
fn line_numbers_are_valid_and_increasing() {
    let text = "ab\nb\n\nbb\r\nxyz\nb";
    let lines: Vec<&str> = text.lines().collect();
    let found = search("b", text, &false);
    assert_eq!(found, vec![(1, "ab"), (2, "b"), (4, "bb"), (6, "b")]);
    for (k, (number, line)) in found.iter().enumerate() {
        assert!(*number >= 1 && *number <= lines.len());
        assert_eq!(lines[*number - 1], *line);
        if k > 0 {
            assert!(found[k - 1].0 < *number);
        }
    }
}
