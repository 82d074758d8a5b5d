use minishell::tokenizer::parse_input;

#[test]
fn plain_words_split_on_whitespace() {
    assert_eq!(parse_input("  a  bb\tc "), vec!["a", "bb", "c"]);
}

#[test]
fn empty_line_gives_no_tokens() {
    assert_eq!(parse_input(""), Vec::<String>::new());
    assert_eq!(parse_input("   \t  "), Vec::<String>::new());
}

#[test]
fn quoted_arguments_keep_spaces() {
    assert_eq!(parse_input("echo a \"b c\" 'd e'"), vec!["echo", "a", "b c", "d e"]);
}

#[test]
fn unquoted_backslash_escapes_space() {
    assert_eq!(parse_input("echo hello\\ world"), vec!["echo", "hello world"]);
}

#[test]
fn double_quote_escape_honors_quote() {
    assert_eq!(parse_input("echo \"say \\\"hi\\\"\""), vec!["echo", "say \"hi\""]);
}

#[test]
fn double_quote_escaped_backslash_kept_once() {
    assert_eq!(parse_input("echo \"path\\\\to\""), vec!["echo", "path\\to"]);
}

#[test]
fn double_quote_backslash_kept_before_other_chars() {
    assert_eq!(parse_input("echo \"a\\xb\""), vec!["echo", "a\\xb"]);
    assert_eq!(parse_input("echo \"a\\$b\""), vec!["echo", "a$b"]);
}

#[test]
fn single_quotes_take_everything_verbatim() {
    assert_eq!(parse_input("echo 'no\\tab'"), vec!["echo", "no\\tab"]);
    assert_eq!(parse_input("echo 'a \"b\" c'"), vec!["echo", "a \"b\" c"]);
}

#[test]
fn quote_adjacent_to_text_glues_tokens() {
    assert_eq!(parse_input("echo foo\"bar\""), vec!["echo", "foobar"]);
    assert_eq!(parse_input("echo 'a'b\"c\""), vec!["echo", "abc"]);
}

#[test]
fn quote_after_escaped_space_starts_new_token() {
    // The accumulator ends in whitespace, so the quote flushes it first.
    assert_eq!(parse_input("echo a\\ \"b\""), vec!["echo", "a ", "b"]);
}

#[test]
fn unterminated_quote_ends_token_at_line_end() {
    assert_eq!(parse_input("echo 'abc"), vec!["echo", "abc"]);
    assert_eq!(parse_input("echo \"abc"), vec!["echo", "abc"]);
}

#[test]
fn empty_quotes_yield_no_token() {
    assert_eq!(parse_input("echo \"\""), vec!["echo"]);
    assert_eq!(parse_input("''"), Vec::<String>::new());
}

#[test]
fn trailing_backslash_is_dropped() {
    assert_eq!(parse_input("echo abc\\"), vec!["echo", "abc"]);
}
