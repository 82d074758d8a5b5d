use minishell::builtins::cd_error_message;
use minishell::builtins::cd_target;
use minishell::builtins::dispatch;
use minishell::builtins::echo_line;
use minishell::builtins::exec_error_message;
use minishell::builtins::exit_code;
use minishell::builtins::is_builtin;
use minishell::builtins::not_found_message;
use minishell::builtins::parse_i32;
use minishell::builtins::substitute_home;
use minishell::builtins::type_message;
use minishell::builtins::Action;
use minishell::tokenizer::parse_input;

fn strings(args: &[&str]) -> Vec<String> {
    args.iter().map(|s| s.to_string()).collect()
}

#[test]
fn dispatch_matches_builtin_names_exactly() {
    assert!(matches!(dispatch("echo"), Action::Echo));
    assert!(matches!(dispatch("exit"), Action::Exit));
    assert!(matches!(dispatch("type"), Action::Type));
    assert!(matches!(dispatch("pwd"), Action::Pwd));
    assert!(matches!(dispatch("cd"), Action::Cd));
    assert!(matches!(dispatch("zzz"), Action::External));
    assert!(matches!(dispatch("Echo"), Action::External));
}

#[test]
fn builtin_set_is_the_five_names() {
    assert!(is_builtin("echo"));
    assert!(is_builtin("exit"));
    assert!(is_builtin("type"));
    assert!(is_builtin("pwd"));
    assert!(is_builtin("cd"));
    assert!(!is_builtin("ls"));
    assert!(!is_builtin(""));
}

#[test]
fn echo_joins_with_single_spaces() {
    let tokens = parse_input("echo a \"b c\" 'd e'");
    assert_eq!(tokens, vec!["echo", "a", "b c", "d e"]);
    assert_eq!(echo_line(&tokens[1..].to_vec()), "a b c d e");
}

#[test]
fn echo_of_nothing_is_empty() {
    assert_eq!(echo_line(&Vec::new()), "");
    assert_eq!(echo_line(&strings(&["only"])), "only");
}

#[test]
fn exit_code_parses_first_argument() {
    assert_eq!(exit_code(&strings(&["42"])), 42);
    assert_eq!(exit_code(&strings(&["-7", "9"])), -7);
}

#[test]
fn exit_code_defaults_to_zero() {
    assert_eq!(exit_code(&Vec::new()), 0);
    assert_eq!(exit_code(&strings(&["abc"])), 0);
}

#[test]
fn parse_i32_accepts_signed_decimals() {
    assert_eq!(parse_i32("42"), Some(42));
    assert_eq!(parse_i32("+7"), Some(7));
    assert_eq!(parse_i32("-0"), Some(0));
    assert_eq!(parse_i32("2147483647"), Some(i32::MAX));
    assert_eq!(parse_i32("-2147483648"), Some(i32::MIN));
}

#[test]
fn parse_i32_rejects_other_shapes() {
    assert_eq!(parse_i32(""), None);
    assert_eq!(parse_i32("+"), None);
    assert_eq!(parse_i32("-"), None);
    assert_eq!(parse_i32(" 1"), None);
    assert_eq!(parse_i32("1 "), None);
    assert_eq!(parse_i32("1x"), None);
    assert_eq!(parse_i32("2147483648"), None);
    assert_eq!(parse_i32("-2147483649"), None);
    assert_eq!(parse_i32("99999999999999999999"), None);
}

#[test]
fn tilde_substitution_uses_home() {
    assert_eq!(substitute_home("~/x", "/home/u"), "/home/u/x");
    assert_eq!(substitute_home("/abs/path", "/home/u"), "/abs/path");
}

#[test]
fn tilde_substitution_is_naive() {
    // Every occurrence is replaced, not only a leading one.
    assert_eq!(substitute_home("a~b~", "H"), "aHbH");
    assert_eq!(substitute_home("~/x", ""), "/x");
}

#[test]
fn cd_without_argument_is_a_no_op() {
    assert_eq!(cd_target(&Vec::new(), "/home/u"), None);
    assert_eq!(cd_target(&strings(&["~/x"]), "/home/u"), Some("/home/u/x".to_string()));
}

#[test]
fn cd_error_names_the_path() {
    assert_eq!(cd_error_message("/nonexistent"), "cd: /nonexistent: No such file or directory");
}

#[test]
fn unknown_command_message() {
    assert_eq!(not_found_message("zzz"), "zzz: command not found");
}

#[test]
fn spawn_failure_message_names_cause() {
    assert_eq!(
        exec_error_message("prog", "Permission denied (os error 13)"),
        "Error executing prog: Permission denied (os error 13)"
    );
}

#[test]
fn type_reports_builtins_first() {
    assert_eq!(type_message("cd", None), "cd is a shell builtin");
    let path = String::from("/bin/echo");
    assert_eq!(type_message("echo", Some(&path)), "echo is a shell builtin");
}

#[test]
fn type_reports_resolved_path_or_not_found() {
    let path = String::from("/usr/bin/ls");
    assert_eq!(type_message("ls", Some(&path)), "ls is /usr/bin/ls");
    assert_eq!(type_message("zzz", None), "zzz: not found");
}
