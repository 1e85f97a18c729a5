use resppress::config::{parse_args, ArgError, Knob};

fn args(list: &[&str]) -> Vec<Vec<char>> {
    list.iter().map(|s| s.chars().collect()).collect()
}

fn text(v: &[char]) -> String {
    v.iter().collect()
}

#[test]
fn no_flags_gives_defaults() {
    let c = parse_args(&args(&[])).unwrap();
    assert_eq!((c.n, c.batch, c.rate), (10_000, 1, 0));
    assert_eq!(text(&c.host), "127.0.0.1");
    assert_eq!(text(&c.port), "6379");
    assert!(c.n_def && c.batch_def && c.rate_def && c.target_def);
    assert!(!c.port_def);
}

#[test]
fn all_flags_short_and_long() {
    let c = parse_args(&args(&["-n", "200000", "--batch-size", "100", "-r", "5000", "--target", "10.0.0.5:7000"]))
        .unwrap();
    assert_eq!((c.n, c.batch, c.rate), (200_000, 100, 5000));
    assert_eq!(text(&c.host), "10.0.0.5");
    assert_eq!(text(&c.port), "7000");
    assert!(!c.n_def && !c.batch_def && !c.rate_def && !c.target_def && !c.port_def);
}

#[test]
fn target_without_port_gets_default_port() {
    let c = parse_args(&args(&["-t", "127.0.0.1"])).unwrap();
    assert_eq!(text(&c.host), "127.0.0.1");
    assert_eq!(text(&c.port), "6379");
    assert!(c.port_def && !c.target_def);
}

#[test]
fn target_splits_at_first_colon() {
    let c = parse_args(&args(&["--target", "a:b:c"])).unwrap();
    assert_eq!(text(&c.host), "a");
    assert_eq!(text(&c.port), "b:c");
}

#[test]
fn help_wins_where_a_flag_stands() {
    assert_eq!(parse_args(&args(&["-h"])).unwrap_err(), ArgError::Help);
    assert_eq!(parse_args(&args(&["-n", "5", "--help"])).unwrap_err(), ArgError::Help);
    assert!(parse_args(&args(&["-t", "-h"])).is_ok());
}

#[test]
fn flag_without_value_is_refused() {
    assert_eq!(parse_args(&args(&["-n"])).unwrap_err(), ArgError::MissingValue { flag: 0 });
    assert_eq!(parse_args(&args(&["-n", "1", "-x"])).unwrap_err(), ArgError::MissingValue { flag: 2 });
}

#[test]
fn duplicate_flag_is_refused_even_mixed_forms() {
    assert_eq!(
        parse_args(&args(&["-n", "1000", "--number", "2000"])).unwrap_err(),
        ArgError::Duplicate { knob: Knob::Number }
    );
    assert_eq!(
        parse_args(&args(&["-t", "a", "-t", "b"])).unwrap_err(),
        ArgError::Duplicate { knob: Knob::Target }
    );
    assert_eq!(
        parse_args(&args(&["-n", "1000", "--number", "oops"])).unwrap_err(),
        ArgError::Duplicate { knob: Knob::Number }
    );
}

#[test]
fn bad_number_is_refused() {
    assert_eq!(parse_args(&args(&["-b", "ten"])).unwrap_err(), ArgError::NotANumber { flag: 0 });
    assert_eq!(parse_args(&args(&["-r", "-5"])).unwrap_err(), ArgError::NotANumber { flag: 0 });
    assert_eq!(parse_args(&args(&["-n", "5", "-r", "1µ"])).unwrap_err(), ArgError::NotANumber { flag: 2 });
    assert_eq!(parse_args(&args(&["-r", "+7"])).unwrap().rate, 7);
}

#[test]
fn unknown_flag_is_refused() {
    assert_eq!(parse_args(&args(&["--port", "1"])).unwrap_err(), ArgError::UnknownFlag { flag: 0 });
    assert_eq!(parse_args(&args(&["200000"])).unwrap_err(), ArgError::MissingValue { flag: 0 });
    assert_eq!(parse_args(&args(&["200000", "1"])).unwrap_err(), ArgError::UnknownFlag { flag: 0 });
}

fn same(a: &resppress::config::Config, b: &resppress::config::Config) -> bool {
    (a.n, a.batch, a.rate, a.n_def, a.batch_def, a.rate_def, a.target_def, a.port_def)
        == (b.n, b.batch, b.rate, b.n_def, b.batch_def, b.rate_def, b.target_def, b.port_def)
        && a.host == b.host
        && a.port == b.port
}

#[test]
fn reordered_pairs_and_synonyms_give_the_same_config() {
    let a = parse_args(&args(&["-n", "50", "-b", "4", "-r", "9", "-t", "h:1"])).unwrap();
    let b = parse_args(&args(&["--target", "h:1", "--rate", "9", "-n", "50", "--batch-size", "4"])).unwrap();
    assert!(same(&a, &b));
    let c = parse_args(&args(&["-r", "9", "--number", "50", "-t", "h:1", "-b", "4"])).unwrap();
    assert!(same(&a, &c));
}

#[test]
fn reordered_pairs_are_refused_alike() {
    assert!(matches!(parse_args(&args(&["-n", "x", "-b", "2"])), Err(ArgError::NotANumber { .. })));
    assert!(matches!(parse_args(&args(&["-b", "2", "--number", "x"])), Err(ArgError::NotANumber { .. })));
    assert!(matches!(parse_args(&args(&["-b", "2", "-n", "1", "--batch-size", "3"])), Err(ArgError::Duplicate { .. })));
    assert!(matches!(parse_args(&args(&["--batch-size", "3", "-n", "1", "-b", "2"])), Err(ArgError::Duplicate { .. })));
}

#[test]
fn values_come_from_the_flags_given_and_defaults_mark_the_rest() {
    let c = parse_args(&args(&["--rate", "250"])).unwrap();
    assert_eq!((c.n, c.batch, c.rate), (10_000, 1, 250));
    assert!(c.n_def && c.batch_def && !c.rate_def && c.target_def);
}

#[test]
fn help_is_answered_where_the_first_unreadable_flag_stands() {
    assert_eq!(parse_args(&args(&["-n", "5", "-h", "x"])).unwrap_err(), ArgError::Help);
    assert_eq!(parse_args(&args(&["-q", "5", "-h"])).unwrap_err(), ArgError::UnknownFlag { flag: 0 });
    assert_eq!(parse_args(&args(&["-n", "5", "-n", "6", "--help"])).unwrap_err(), ArgError::Duplicate { knob: Knob::Number });
    assert!(parse_args(&args(&["-t", "--help"])).is_ok());
}

#[test]
fn unknown_flags_refuse_in_any_order() {
    assert!(parse_args(&args(&["-n", "5", "-x", "1"])).is_err());
    assert!(parse_args(&args(&["-x", "1", "--number", "5"])).is_err());
}
