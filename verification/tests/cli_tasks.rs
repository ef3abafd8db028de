use genie::cli::{parse_shell, ui_port, Shell, Task, DEFAULT_UI_PORT};
use genie::{Cli, Commands};

fn task(command: Option<Commands>) -> Task {
    Cli { command }.task()
}

#[test]
fn no_command_asks_for_the_usage() {
    assert_eq!(task(None), Task::Usage);
}

#[test]
fn plain_commands_come_to_their_tasks() {
    assert_eq!(task(Some(Commands::Init)), Task::Init);
    assert_eq!(task(Some(Commands::Status)), Task::Status);
    assert_eq!(task(Some(Commands::Log)), Task::Log);
    assert_eq!(task(Some(Commands::Man)), Task::Man);
    assert_eq!(task(Some(Commands::SelfUpdate)), Task::SelfUpdate);
    assert_eq!(task(Some(Commands::Welcome)), Task::Welcome);
    assert_eq!(task(Some(Commands::Docs)), Task::Docs);
}

#[test]
fn a_commit_needs_a_message() {
    assert_eq!(
        task(Some(Commands::Commit { message: Some("Initial commit".to_string()) })),
        Task::Commit { message: "Initial commit".to_string() }
    );
    assert_eq!(task(Some(Commands::Commit { message: None })), Task::CommitExample);
}

#[test]
fn the_dashboard_has_a_default_port() {
    assert_eq!(DEFAULT_UI_PORT, 2718);
    assert_eq!(ui_port(None), 2718);
    assert_eq!(ui_port(Some(8080)), 8080);
    assert_eq!(task(Some(Commands::Ui { port: None })), Task::Ui { port: 2718 });
    assert_eq!(task(Some(Commands::Ui { port: Some(1) })), Task::Ui { port: 1 });
}

#[test]
fn completions_are_made_for_three_shells() {
    assert_eq!(parse_shell("bash"), Some(Shell::Bash));
    assert_eq!(parse_shell("zsh"), Some(Shell::Zsh));
    assert_eq!(parse_shell("fish"), Some(Shell::Fish));
    assert_eq!(parse_shell("powershell"), None);
    assert_eq!(parse_shell("Bash"), None);
    assert_eq!(parse_shell(""), None);
    assert_eq!(
        task(Some(Commands::Completions { shell: "zsh".to_string() })),
        Task::Completions { shell: Shell::Zsh }
    );
    assert_eq!(
        task(Some(Commands::Completions { shell: "csh".to_string() })),
        Task::UnsupportedShell { name: "csh".to_string() }
    );
}
