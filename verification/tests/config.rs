use word_index::parsing::{parse_config, Config, ConfigParseError};

#[test]
fn full_config_parses() {
    let text = "[default]\nindexing_threads = 4\nindir = './data'\nout_by_a = \"by_a.txt\"\nout_by_n = by_n.txt\nmerging_threads = 3\n";
    let config = parse_config(text).unwrap();
    assert_eq!(config.indexing_threads, 4);
    assert_eq!(config.merging_threads, 3);
    assert_eq!(config.indir, "./data");
    assert_eq!(config.out_by_a, "by_a.txt");
    assert_eq!(config.out_by_n, "by_n.txt");
}

#[test]
fn merging_threads_defaults_to_one() {
    let text = "[default]\nindexing_threads = 2\nindir = in\nout_by_a = a\nout_by_n = n\n";
    let config = parse_config(text).unwrap();
    assert_eq!(config.merging_threads, 1);
}

#[test]
fn missing_required_key_is_rejected() {
    let text = "[default]\nindexing_threads = 2\nindir = in\nout_by_a = a\n";
    assert!(parse_config(text).is_err());
}

#[test]
fn missing_thread_count_is_rejected() {
    let text = "[default]\nindir = in\nout_by_a = a\nout_by_n = n\n";
    assert!(parse_config(text).is_err());
}

#[test]
fn malformed_thread_count_is_rejected() {
    let text = "[default]\nindexing_threads = many\nindir = in\nout_by_a = a\nout_by_n = n\n";
    assert!(parse_config(text).is_err());
}

#[test]
fn zero_thread_count_is_rejected() {
    let text = "[default]\nindexing_threads = 0\nindir = in\nout_by_a = a\nout_by_n = n\n";
    assert!(parse_config(text).is_err());
}

#[test]
fn config_new_strips_quotes() {
    let config = Config::new(1, "'quoted'", "\"double\"", "plain");
    assert_eq!(config.indexing_threads, 1);
    assert_eq!(config.indir, "quoted");
    assert_eq!(config.out_by_a, "double");
    assert_eq!(config.out_by_n, "plain");
}

#[test]
fn parse_error_has_message() {
    let e = ConfigParseError {};
    assert_eq!(e.message(), "Config parsing error");
}
