use clefd::keybindings::{Keybindings, KeybindingTable};
use clefd::user_config::UserConfig;

#[test]
fn read_config_should_succeed_with_valid_file() {
    let keybindings = UserConfig::parse_config("test_key: test_command\n")
        .expect("Reading valid config file should succeed");
    assert_eq!(
        keybindings.lookup("test_key"),
        Some(String::from("test_command"))
    );
    assert_eq!(keybindings.lookup("other"), None);
}

#[test]
fn read_config_should_fail_with_invalid_content() {
    let result = UserConfig::parse_config("invalid line content\n");
    assert!(result.is_err(), "Reading invalid config content should fail");
    let err = result.err().unwrap();
    assert_eq!(err.line, 1);
    assert_eq!(err.text, "invalid line content");
    assert!(
        err.message().contains("Invalid key-value pair on line"),
        "the rendered error should name the failure"
    );
    assert_eq!(
        err.message(),
        "Invalid key-value pair on line 1: 'invalid line content'"
    );
}

#[test]
fn reload_should_update_keybindings_when_file_changes() {
    let keybindings = Keybindings::new();

    UserConfig::reload_config("key1: command1\n", &keybindings)
        .expect("Reloading config should succeed");

    UserConfig::reload_config("key2: command2\n", &keybindings)
        .expect("Reloading config should succeed");

    assert_eq!(
        keybindings.lookup("key2"),
        Some(String::from("command2"))
    );
    assert_eq!(keybindings.lookup("key1"), None);
}

#[test]
fn parse_normalizes_chord_specifications() {
    let table = UserConfig::parse_config("Control_L+Shift_L + n : newsboat -r\n")
        .expect("A well-formed binding line parses");
    assert_eq!(
        table.lookup("Control_L Shift_L n"),
        Some(String::from("newsboat -r"))
    );
}

#[test]
fn parse_empty_text_yields_empty_table() {
    let table = UserConfig::parse_config("").expect("Empty text is not an error");
    assert!(table.is_empty());
}

#[test]
fn parse_comment_and_blank_lines_yield_empty_table() {
    let table = UserConfig::parse_config("# a comment\n\n   \n\t\n# another\n")
        .expect("Comment-only and blank-only text is not an error");
    assert!(table.is_empty());
}

#[test]
fn parse_line_without_separator_is_an_error_citing_line_one() {
    let err = UserConfig::parse_config("invalid line").err().expect("must fail");
    assert_eq!(err.line, 1);
    assert_eq!(err.text, "invalid line");
}

#[test]
fn parse_line_with_empty_key_is_an_error_citing_line_one() {
    let err = UserConfig::parse_config(":command").err().expect("must fail");
    assert_eq!(err.line, 1);
    assert_eq!(err.text, ":command");
}

#[test]
fn parse_line_with_empty_value_is_an_error_citing_line_one() {
    let err = UserConfig::parse_config("key:").err().expect("must fail");
    assert_eq!(err.line, 1);
    assert_eq!(err.text, "key:");
}

#[test]
fn parse_error_cites_the_first_bad_line() {
    let err = UserConfig::parse_config("a: b\n# fine\nbroken\nc: d\nworse\n")
        .err()
        .expect("must fail");
    assert_eq!(err.line, 3);
    assert_eq!(err.text, "broken");
}

#[test]
fn parse_error_line_numbers_reach_two_digits() {
    let mut text = String::new();
    for _ in 0..11 {
        text.push_str("# filler\n");
    }
    text.push_str("broken line\n");
    let err = UserConfig::parse_config(&text).err().expect("must fail");
    assert_eq!(err.line, 12);
    assert_eq!(
        err.message(),
        "Invalid key-value pair on line 12: 'broken line'"
    );
}

#[test]
fn parse_duplicate_chord_keeps_the_last_definition() {
    let table = UserConfig::parse_config("k: first\nk: second\n").expect("parses");
    assert_eq!(table.lookup("k"), Some(String::from("second")));
}

#[test]
fn reload_error_leaves_previous_table_intact() {
    let mut table = KeybindingTable::new();
    UserConfig::reload_table(&mut table, "key1: command1\n").expect("first load succeeds");
    assert_eq!(table.lookup("key1"), Some(String::from("command1")));

    let err = UserConfig::reload_table(&mut table, "key2: command2\nbroken\n")
        .err()
        .expect("a broken edit fails to parse");
    assert_eq!(err.line, 2);
    assert_eq!(table.lookup("key1"), Some(String::from("command1")));
    assert_eq!(table.lookup("key2"), None);
}

#[test]
fn reload_error_through_the_shared_table_keeps_bindings() {
    let keybindings = Keybindings::new();
    UserConfig::reload_config("key1: command1\n", &keybindings).expect("first load succeeds");

    assert!(UserConfig::reload_config("oops", &keybindings).is_err());
    assert_eq!(
        keybindings.lookup("key1"),
        Some(String::from("command1"))
    );
}

#[test]
fn parse_trims_command_and_keeps_inner_spacing() {
    let table = UserConfig::parse_config("a + b :  prog  arg1   arg2  \n").expect("parses");
    assert_eq!(table.lookup("a b"), Some(String::from("prog  arg1   arg2")));
}

#[test]
fn parse_splits_at_the_first_colon_only() {
    let table = UserConfig::parse_config("k: echo a:b\n").expect("parses");
    assert_eq!(table.lookup("k"), Some(String::from("echo a:b")));
}

#[test]
fn parse_handles_carriage_return_line_endings() {
    let table = UserConfig::parse_config("k1: c1\r\nk2: c2\r\n").expect("parses");
    assert_eq!(table.lookup("k1"), Some(String::from("c1")));
    assert_eq!(table.lookup("k2"), Some(String::from("c2")));
}
