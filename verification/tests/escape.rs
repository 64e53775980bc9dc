use nvy::env_var::escape_shell_value;

#[test]
fn test_escape_shell_value_should_wrap_basic_string_in_quotes() {
    assert_eq!(escape_shell_value("hello"), "'hello'");
}

#[test]
fn test_escape_shell_value_should_remove_existing_double_quotes() {
    assert_eq!(escape_shell_value("\"hello\""), "'hello'");
}

#[test]
fn test_escape_shell_value_should_remove_existing_single_quotes() {
    assert_eq!(escape_shell_value("'hello'"), "'hello'");
}

#[test]
fn test_escape_shell_value_should_escape_internal_single_quotes() {
    assert_eq!(escape_shell_value("he'llo"), "'he'\\''llo'");
}

#[test]
fn test_escape_shell_value_should_preserve_internal_double_quotes() {
    assert_eq!(escape_shell_value("he\"llo"), "'he\"llo'");
}

#[test]
fn test_escape_shell_value_should_handle_empty_string() {
    assert_eq!(escape_shell_value(""), "''");
}

#[test]
fn test_escape_shell_value_should_handle_mixed_quotes() {
    assert_eq!(escape_shell_value("\"hello'world\""), "'hello'\\''world'");
}

#[test]
fn test_escape_shell_value_should_handle_multiple_internal_single_quotes() {
    assert_eq!(escape_shell_value("it's O'clock"), "'it'\\''s O'\\''clock'");
}
