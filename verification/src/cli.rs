//! The command surface: what can be asked of the tool, and the task that
//! each request comes to.

use crate::text::same_text;
use vstd::prelude::*;

verus! {

/// The port that the dashboard listens on unless another is asked for.
pub const DEFAULT_UI_PORT: u16 = 2718;

/// What can be asked of the tool.
#[derive(Debug, PartialEq, Eq)]
pub enum Commands {
    /// Initialize a project in the current directory.
    Init,
    /// Show what has changed since the latest commit.
    Status,
    /// Commit the project as it is.
    Commit { message: Option<String> },
    /// Show the commits.
    Log,
    /// Serve the dashboard.
    Ui { port: Option<u16> },
    /// Print completions for a shell.
    Completions { shell: String },
    /// Print the manual page.
    Man,
    /// Update the tool to its latest release.
    SelfUpdate,
    /// Print the welcome text.
    Welcome,
    /// Open the documentation.
    Docs,
}

/// A command line: a command, or none.
#[derive(Debug, PartialEq, Eq)]
pub struct Cli {
    pub command: Option<Commands>,
}

/// A shell that completions can be made for.
#[derive(Clone, Copy, Debug, PartialEq, Eq)]
pub enum Shell {
    Bash,
    Zsh,
    Fish,
}

/// What the tool does for a command line.
#[derive(Debug, PartialEq, Eq)]
pub enum Task {
    /// Print the banner and the list of commands: nothing was asked for.
    Usage,
    /// Initialize a project.
    Init,
    /// Show the status.
    Status,
    /// Make a commit with this message.
    Commit { message: String },
    /// Say how a commit is asked for: the message was missing.
    CommitExample,
    /// Show the log.
    Log,
    /// Serve the dashboard on this port.
    Ui { port: u16 },
    /// Print completions for this shell.
    Completions { shell: Shell },
    /// Say that there are no completions for a shell of this name.
    UnsupportedShell { name: String },
    /// Print the manual page.
    Man,
    /// Update the tool.
    SelfUpdate,
    /// Print the welcome text.
    Welcome,
    /// Open the documentation.
    Docs,
}

/// What a `Task` stands for.
pub enum TaskView {
    Usage,
    Init,
    Status,
    Commit { message: Seq<char> },
    CommitExample,
    Log,
    Ui { port: u16 },
    Completions { shell: Shell },
    UnsupportedShell { name: Seq<char> },
    Man,
    SelfUpdate,
    Welcome,
    Docs,
}

impl View for Task {
    type V = TaskView;

    open spec fn view(&self) -> TaskView {
        match *self {
            Task::Usage => TaskView::Usage,
            Task::Init => TaskView::Init,
            Task::Status => TaskView::Status,
            Task::Commit { message } => TaskView::Commit { message: message@ },
            Task::CommitExample => TaskView::CommitExample,
            Task::Log => TaskView::Log,
            Task::Ui { port } => TaskView::Ui { port },
            Task::Completions { shell } => TaskView::Completions { shell },
            Task::UnsupportedShell { name } => TaskView::UnsupportedShell { name: name@ },
            Task::Man => TaskView::Man,
            Task::SelfUpdate => TaskView::SelfUpdate,
            Task::Welcome => TaskView::Welcome,
            Task::Docs => TaskView::Docs,
        }
    }
}

/// The shell called `name`, if completions can be made for it: `bash`,
/// `zsh` or `fish`.
pub open spec fn shell_named(name: Seq<char>) -> Option<Shell> {
    if name == seq!['b', 'a', 's', 'h'] {
        Some(Shell::Bash)
    } else if name == seq!['z', 's', 'h'] {
        Some(Shell::Zsh)
    } else if name == seq!['f', 'i', 's', 'h'] {
        Some(Shell::Fish)
    } else {
        None
    }
}

/// The task that a command line comes to.
pub open spec fn task_for(cli: Cli) -> TaskView {
    match cli.command {
        None => TaskView::Usage,
        Some(Commands::Init) => TaskView::Init,
        Some(Commands::Status) => TaskView::Status,
        Some(Commands::Commit { message: Some(message) }) => TaskView::Commit { message: message@ },
        Some(Commands::Commit { message: None }) => TaskView::CommitExample,
        Some(Commands::Log) => TaskView::Log,
        Some(Commands::Ui { port: Some(port) }) => TaskView::Ui { port },
        Some(Commands::Ui { port: None }) => TaskView::Ui { port: DEFAULT_UI_PORT },
        Some(Commands::Completions { shell }) => match shell_named(shell@) {
            Some(shell) => TaskView::Completions { shell },
            None => TaskView::UnsupportedShell { name: shell@ },
        },
        Some(Commands::Man) => TaskView::Man,
        Some(Commands::SelfUpdate) => TaskView::SelfUpdate,
        Some(Commands::Welcome) => TaskView::Welcome,
        Some(Commands::Docs) => TaskView::Docs,
    }
}

/// Finds the shell called `name`.
pub fn parse_shell(name: &str) -> (shell: Option<Shell>)
    ensures
        shell == shell_named(name@),
{
    proof {
        reveal_strlit("bash");
        reveal_strlit("zsh");
        reveal_strlit("fish");
        assert("bash"@ =~= seq!['b', 'a', 's', 'h']);
        assert("zsh"@ =~= seq!['z', 's', 'h']);
        assert("fish"@ =~= seq!['f', 'i', 's', 'h']);
    }
    if same_text(name, "bash") {
        Some(Shell::Bash)
    } else if same_text(name, "zsh") {
        Some(Shell::Zsh)
    } else if same_text(name, "fish") {
        Some(Shell::Fish)
    } else {
        None
    }
}

/// The port that the dashboard is served on: the one asked for, or the
/// default.
pub fn ui_port(port: Option<u16>) -> (r: u16)
    ensures
        r == match port {
            Some(p) => p,
            None => DEFAULT_UI_PORT,
        },
{
    match port {
        Some(p) => p,
        None => DEFAULT_UI_PORT,
    }
}

impl Cli {
    /// Decides what the tool does for this command line.
    pub fn task(&self) -> (task: Task)
        ensures
            task@ == task_for(*self),
    {
        match &self.command {
            None => Task::Usage,
            Some(Commands::Init) => Task::Init,
            Some(Commands::Status) => Task::Status,
            Some(Commands::Commit { message }) => match message {
                Some(message) => Task::Commit { message: message.clone() },
                None => Task::CommitExample,
            },
            Some(Commands::Log) => Task::Log,
            Some(Commands::Ui { port }) => Task::Ui { port: ui_port(*port) },
            Some(Commands::Completions { shell }) => match parse_shell(shell.as_str()) {
                Some(shell) => Task::Completions { shell },
                None => Task::UnsupportedShell { name: shell.clone() },
            },
            Some(Commands::Man) => Task::Man,
            Some(Commands::SelfUpdate) => Task::SelfUpdate,
            Some(Commands::Welcome) => Task::Welcome,
            Some(Commands::Docs) => Task::Docs,
        }
    }
}

} // verus!
