use vigild::process_util::{
    find_unquoted, parse_command, resolve_gid, resolve_uid, shell_words, IdDatabase, IdErrorKind,
};

#[test]
fn process_util_parse_simple() {
    assert_eq!(parse_command("/bin/foo bar baz").unwrap(), vec!["/bin/foo", "bar", "baz"]);
}

#[test]
fn process_util_parse_default_args() {
    assert_eq!(
        parse_command("/bin/foo arg1 [ --port 8080 ]").unwrap(),
        vec!["/bin/foo", "arg1", "--port", "8080"]
    );
}

#[test]
fn process_util_parse_quoted() {
    assert_eq!(
        parse_command(r#"/bin/foo "hello world""#).unwrap(),
        vec!["/bin/foo", "hello world"]
    );
}

#[test]
fn process_util_parse_empty_defaults() {
    assert_eq!(parse_command("/bin/foo [ ]").unwrap(), vec!["/bin/foo"]);
}

#[test]
fn process_util_parse_shell_if_bracket_in_quoted_arg() {
    let cmd = r#"sh -c 'if [ $((i % 7)) -eq 0 ]; then echo err; fi'"#;
    let argv = parse_command(cmd).unwrap();
    assert_eq!(argv[0], "sh");
    assert_eq!(argv[1], "-c");
    assert!(argv[2].contains("if ["), "shell script preserved: {:?}", argv[2]);
    assert_eq!(argv.len(), 3);
}

#[test]
fn process_util_parse_newlines_as_whitespace() {
    let cmd = "sh -c 'script'\n";
    assert_eq!(parse_command(cmd).unwrap(), vec!["sh", "-c", "script"]);
}

#[test]
fn tests_parse_simple() {
    assert_eq!(parse_command("/bin/foo bar baz").unwrap(), vec!["/bin/foo", "bar", "baz"]);
}

#[test]
fn tests_parse_default_args() {
    assert_eq!(
        parse_command("/bin/foo arg1 [ --port 8080 ]").unwrap(),
        vec!["/bin/foo", "arg1", "--port", "8080"]
    );
}

#[test]
fn tests_parse_quoted() {
    assert_eq!(
        parse_command(r#"/bin/foo "hello world""#).unwrap(),
        vec!["/bin/foo", "hello world"]
    );
}

#[test]
fn tests_parse_empty_defaults() {
    assert_eq!(parse_command("/bin/foo [ ]").unwrap(), vec!["/bin/foo"]);
}

#[test]
fn tests_parse_shell_if_bracket_in_quoted_arg() {
    let cmd = r#"sh -c 'if [ $((i % 7)) -eq 0 ]; then echo err; fi'"#;
    let argv = parse_command(cmd).unwrap();
    assert_eq!(argv[0], "sh");
    assert_eq!(argv[1], "-c");
    assert!(argv[2].contains("if ["), "shell script preserved: {:?}", argv[2]);
    assert_eq!(argv.len(), 3);
}

#[test]
fn tests_parse_newlines_as_whitespace() {
    let cmd = "sh -c 'script'\n";
    assert_eq!(parse_command(cmd).unwrap(), vec!["sh", "-c", "script"]);
}

#[test]
fn parse_command_unmatched_open_bracket_errors() {
    let err = parse_command("foo [ bar").unwrap_err();
    assert!(err.to_string().contains("unmatched"));
}

#[test]
fn parse_command_malformed_bracket_order_errors() {
    let err = parse_command("foo ] bar [ baz").unwrap_err();
    assert!(err.to_string().contains("malformed"));
}

#[test]
fn shell_words_unterminated_single_quote_errors() {
    let err = shell_words("foo 'bar").unwrap_err();
    assert!(err.to_string().contains("unterminated"));
}

#[test]
fn shell_words_unterminated_double_quote_errors() {
    let err = shell_words("foo \"bar").unwrap_err();
    assert!(err.to_string().contains("unterminated"));
}

#[test]
fn shell_words_tab_and_newline_as_separator() {
    assert_eq!(shell_words("a\tb\nc").unwrap(), vec!["a", "b", "c"]);
}

#[test]
fn shell_words_backslash_escape_preserves_space() {
    assert_eq!(shell_words("foo\\ bar").unwrap(), vec!["foo bar"]);
}

#[test]
fn shell_words_double_quoted_space() {
    assert_eq!(shell_words("\"foo bar\"").unwrap(), vec!["foo bar"]);
}

#[test]
fn shell_words_single_quoted_space() {
    assert_eq!(shell_words("'foo bar'").unwrap(), vec!["foo bar"]);
}

#[test]
fn command_error_messages_quote_the_command() {
    assert_eq!(
        parse_command("foo [ bar").unwrap_err().to_string(),
        "unmatched '[' in command: \"foo [ bar\""
    );
    assert_eq!(
        shell_words("a 'b").unwrap_err().to_string(),
        "unterminated quote in command: \"a 'b\""
    );
}

#[test]
fn find_unquoted_skips_quoted_text() {
    assert_eq!(find_unquoted("a '[ ' [ b", " [ "), Some(6));
    assert_eq!(find_unquoted("'[ '", " [ "), None);
}

#[test]
fn resolve_uid_none_none_returns_none() {
    assert!(resolve_uid(None, None).unwrap().is_none());
}

#[test]
fn resolve_uid_id_only_returns_uid() {
    assert_eq!(resolve_uid(None, Some(0)).unwrap(), Some(0));
}

#[test]
fn resolve_uid_unknown_name_errors() {
    let err = resolve_uid(Some("_no_such_user_xyz_"), None).unwrap_err();
    assert!(err.to_string().contains("not found") || err.to_string().contains("getpwnam"));
}

#[test]
fn resolve_uid_name_and_matching_id() {
    assert_eq!(resolve_uid(Some("root"), Some(0)).unwrap(), Some(0));
}

#[test]
fn resolve_uid_name_and_mismatched_id_errors() {
    let err = resolve_uid(Some("root"), Some(9999)).unwrap_err();
    assert_eq!(err.kind, IdErrorKind::Mismatch { found: 0, wanted: 9999 });
    assert_eq!(err.to_string(), "user \"root\" has uid 0 but user-id 9999 was specified");
}

#[test]
fn resolve_uid_name_with_nul_is_not_found() {
    let err = resolve_uid(Some("ro\0ot"), None).unwrap_err();
    assert_eq!(err.kind, IdErrorKind::NotFound);
    assert_eq!(err.database, IdDatabase::User);
}

#[test]
fn resolve_gid_none_none_returns_none() {
    assert!(resolve_gid(None, None).unwrap().is_none());
}

#[test]
fn resolve_gid_id_only_returns_gid() {
    assert_eq!(resolve_gid(None, Some(0)).unwrap(), Some(0));
}

#[test]
fn resolve_gid_unknown_name_errors() {
    let err = resolve_gid(Some("_no_such_group_xyz_"), None).unwrap_err();
    assert!(err.to_string().contains("not found") || err.to_string().contains("getgrnam"));
}

#[test]
fn resolve_gid_name_and_matching_id() {
    assert_eq!(resolve_gid(Some("root"), Some(0)).unwrap(), Some(0));
}

#[test]
fn resolve_gid_name_and_mismatched_id_errors() {
    let err = resolve_gid(Some("root"), Some(9999)).unwrap_err();
    assert_eq!(err.to_string(), "group \"root\" has gid 0 but group-id 9999 was specified");
}

#[test]
fn find_unquoted_counts_bytes() {
    assert_eq!(find_unquoted("é [ x", " [ "), Some(2));
}
