use cmdy::clipboard::Clipboard;
use cmdy::config::AppConfig;
use cmdy::exec::{
    detect_shell, dry_run_report, escape_cmd, escape_posix, history_entry, history_file_name,
    run_result, RunError, Shell, ShellOutcome,
};
use cmdy::text::{compare_text, decimal, ends_with_text};
use cmdy::types::CommandDef;

#[test]
fn posix_escaping() {
    assert_eq!(escape_posix("abc"), "abc");
    assert_eq!(escape_posix("/tmp/x-1.txt"), "/tmp/x-1.txt");
    assert_eq!(escape_posix(""), "''");
    assert_eq!(escape_posix("a b"), "'a b'");
    assert_eq!(escape_posix("it's"), "'it'\\''s'");
    assert_eq!(escape_posix("say \"hi\""), "'say \"hi\"'");
    assert_eq!(escape_posix("$HOME"), "'$HOME'");
    assert_eq!(escape_posix("a=b"), "'a=b'");
    assert_eq!(escape_posix("'"), "''\\'''");
}

#[test]
fn cmd_escaping() {
    assert_eq!(escape_cmd("abc"), "abc");
    assert_eq!(escape_cmd(""), "\"\"");
    assert_eq!(escape_cmd("a b"), "\"a b\"");
    assert_eq!(escape_cmd("say \"hi\""), "\"say \"\"hi\"\"\"");
    assert_eq!(escape_cmd("tab\there"), "\"tab\there\"");
    assert_eq!(escape_cmd("it's"), "it's");
}

#[test]
fn shell_detection() {
    assert_eq!(detect_shell(Some("/bin/bash")), Shell::Bash);
    assert_eq!(detect_shell(Some("/usr/local/bin/zsh")), Shell::Zsh);
    assert_eq!(detect_shell(Some("/bin/fish")), Shell::Unknown);
    assert_eq!(detect_shell(Some("bash")), Shell::Unknown);
    assert_eq!(detect_shell(None), Shell::Unknown);
}

#[test]
fn history_entries() {
    assert_eq!(history_file_name(Shell::Bash), Some(".bash_history".to_string()));
    assert_eq!(history_file_name(Shell::Zsh), Some(".zsh_history".to_string()));
    assert_eq!(history_file_name(Shell::Unknown), None);
    assert_eq!(
        history_entry(Shell::Zsh, "echo hi", 1700000000),
        Some(": 1700000000:0;echo hi\n".to_string())
    );
    assert_eq!(history_entry(Shell::Bash, "ls -l", 5), Some("ls -l\n".to_string()));
    assert_eq!(history_entry(Shell::Unknown, "ls", 5), None);
}

#[test]
fn test_execute_command_success() {
    let ok = run_result(
        &"success".to_string(),
        ShellOutcome::Exited { success: true, status: "exit status: 0".to_string(), code: Some(0) },
    );
    assert!(ok.is_ok());
}

#[test]
fn test_execute_command_failure() {
    let err = run_result(
        &"failure".to_string(),
        ShellOutcome::Exited { success: false, status: "exit status: 1".to_string(), code: Some(1) },
    )
    .unwrap_err();
    let msg = err.message();
    assert!(msg.contains("failed with status"), "unexpected error: {msg}");
    assert_eq!(msg, "Command snippet 'failure' failed with status: exit status: 1");
    assert_eq!(
        err.context_message(),
        "Failed to execute command snippet 'failure': Command snippet 'failure' failed with status: exit status: 1"
    );
    assert_eq!(err.exit_code(), 1);
}

#[test]
fn failure_exit_codes_and_start_errors() {
    let err = run_result(
        &"seven".to_string(),
        ShellOutcome::Exited { success: false, status: "exit status: 7".to_string(), code: Some(7) },
    )
    .unwrap_err();
    assert_eq!(err.exit_code(), 7);
    let err = run_result(
        &"killed".to_string(),
        ShellOutcome::Exited { success: false, status: "signal: 9".to_string(), code: None },
    )
    .unwrap_err();
    assert_eq!(err.exit_code(), 1);
    let err = run_result(
        &"missing".to_string(),
        ShellOutcome::NotStarted { reason: "not found".to_string() },
    )
    .unwrap_err();
    assert_eq!(
        err,
        RunError::NotStarted { description: "missing".to_string(), reason: "not found".to_string() }
    );
    assert_eq!(err.message(), "Failed to start command snippet 'missing': not found");
}

#[test]
fn scenario_dry_run_report() {
    let d = CommandDef {
        description: "Clean".to_string(),
        command: "rm -rf /tmp/x".to_string(),
        source_file: "/cfg/commands/clean.toml".to_string(),
        tags: vec!["dangerous".to_string()],
    };
    let report = dry_run_report(&d, &d.command);
    assert_eq!(report, "Would execute: rm -rf /tmp/x\nFrom file: /cfg/commands/clean.toml");
}

#[test]
fn default_config() {
    let c = AppConfig::default();
    assert_eq!(c.filter_command, "fzf --ansi --layout=reverse --border=rounded --height=50%");
    assert!(c.directories.is_empty());
}

#[test]
fn clipboard_holds_last_text() {
    let mut c = Clipboard::new();
    assert_eq!(c.text(), None);
    c.set_text("echo one".to_string());
    c.set_text("echo two".to_string());
    assert_eq!(c.text(), Some(&"echo two".to_string()));
}

#[test]
fn text_helpers() {
    assert_eq!(decimal(0), "0");
    assert_eq!(decimal(1234567890123), "1234567890123");
    assert_eq!(decimal(u64::MAX), "18446744073709551615");
    assert_eq!(compare_text("a", "b"), -1);
    assert_eq!(compare_text("b", "a"), 1);
    assert_eq!(compare_text("ab", "ab"), 0);
    assert_eq!(compare_text("ab", "abc"), -1);
    assert_eq!(compare_text("Z", "a"), -1);
    assert!(ends_with_text("/bin/zsh", "/zsh"));
    assert!(!ends_with_text("zsh", "/zsh"));
}
