//! Initialization: what has to be created for a directory to become a
//! project, in the order in which it is created.

use vstd::prelude::*;
use vstd::string::StringExecFns;

verus! {

/// The version written into a new project's configuration.
pub const GENIE_VERSION: &'static str = "0.0.1";

/// The name given to a project whose directory has no name that is text.
pub const UNNAMED: &'static str = "unnamed";

/// The control directory, relative to the project root.
pub const CONTROL_DIR: &'static str = ".genie";

/// The directory reserved for key material.
pub const KEYS_DIR: &'static str = ".genie/keys";

/// The directory reserved for named references.
pub const REFS_DIR: &'static str = ".genie/refs";

/// The directory of the branch heads.
pub const HEADS_DIR: &'static str = ".genie/refs/heads";

/// The ignore file, relative to the project root.
pub const IGNORE_FILE: &'static str = ".genieignore";

/// The project's configuration.
pub const CONFIG_FILE: &'static str = ".genie/config.json";

/// The marker that says that a repository is here. It is advisory: nothing
/// is locked by it.
pub const LOCK_FILE: &'static str = ".genie/lock";

/// The reference to the current branch.
pub const HEAD_FILE: &'static str = ".genie/HEAD";

/// What a new project's `HEAD` holds.
pub const HEAD_CONTENTS: &'static str = "ref: refs/heads/main\n";

/// The head of the main branch.
pub const MAIN_REF_FILE: &'static str = ".genie/refs/heads/main";

/// The snapshot store.
pub const STORE_FILE: &'static str = ".genie/history.db";

/// The ignore file that a new project gets where it has none.
pub const DEFAULT_IGNORE: &'static str =
    "target/\n\nbuild/\n\ndist/\n\nnode_modules/\n\n.git/\n\n.DS_Store\n\n.genie/\n\n*.o\n\n*.so\n\n*.dll\n\n*.exe\n\n*.log\n\n.github/\n\n.gitignore\n\n";

/// A project's configuration, written once when the project is created.
#[derive(Debug, PartialEq, Eq)]
pub struct Config {
    /// The project's name: the name of its root directory.
    pub project_name: String,
    /// When the project was created, in seconds since the epoch.
    pub created_at_unix: u64,
    /// The version of the tool that created the project.
    pub genie_version: &'static str,
}

/// What a `Config` stands for.
pub struct ConfigView {
    pub project_name: Seq<char>,
    pub created_at_unix: u64,
    pub genie_version: Seq<char>,
}

impl View for Config {
    type V = ConfigView;

    open spec fn view(&self) -> ConfigView {
        ConfigView {
            project_name: self.project_name@,
            created_at_unix: self.created_at_unix,
            genie_version: self.genie_version@,
        }
    }
}

/// One thing to do when a project is initialized. Paths are relative to
/// the project root.
#[derive(Debug, PartialEq, Eq)]
pub enum InitStep {
    /// Create a directory, and those above it that are missing.
    CreateDir { path: &'static str },
    /// Write a file with these contents.
    WriteFile { path: &'static str, contents: &'static str },
    /// Write the configuration.
    WriteConfig { path: &'static str, config: Config },
    /// Enter the project into the registry of projects.
    Register { name: String, created_at_unix: u64 },
    /// Create the snapshot store, with no commits.
    CreateStore { path: &'static str },
}

/// What an `InitStep` stands for.
pub enum InitStepView {
    CreateDir { path: Seq<char> },
    WriteFile { path: Seq<char>, contents: Seq<char> },
    WriteConfig { path: Seq<char>, config: ConfigView },
    Register { name: Seq<char>, created_at_unix: u64 },
    CreateStore { path: Seq<char> },
}

impl View for InitStep {
    type V = InitStepView;

    open spec fn view(&self) -> InitStepView {
        match *self {
            InitStep::CreateDir { path } => InitStepView::CreateDir { path: path@ },
            InitStep::WriteFile { path, contents } => InitStepView::WriteFile {
                path: path@,
                contents: contents@,
            },
            InitStep::WriteConfig { path, config } => InitStepView::WriteConfig {
                path: path@,
                config: config@,
            },
            InitStep::Register { name, created_at_unix } => InitStepView::Register {
                name: name@,
                created_at_unix,
            },
            InitStep::CreateStore { path } => InitStepView::CreateStore { path: path@ },
        }
    }
}

/// The views of a sequence of steps, element by element.
pub open spec fn step_views(steps: Seq<InitStep>) -> Seq<InitStepView> {
    Seq::new(steps.len(), |i: int| steps[i]@)
}

/// The name of the project in a directory called `dir_name`.
pub open spec fn name_for(dir_name: Option<Seq<char>>) -> Seq<char> {
    match dir_name {
        Some(name) => name,
        None => UNNAMED@,
    }
}

/// The steps that lay out the control directory, before the configuration
/// is written.
pub open spec fn layout_steps() -> Seq<InitStepView> {
    seq![
        InitStepView::CreateDir { path: CONTROL_DIR@ },
        InitStepView::CreateDir { path: KEYS_DIR@ },
        InitStepView::CreateDir { path: REFS_DIR@ },
        InitStepView::CreateDir { path: HEADS_DIR@ },
    ]
}

/// The steps from the configuration on.
pub open spec fn content_steps(name: Seq<char>, now: u64) -> Seq<InitStepView> {
    seq![
        InitStepView::WriteConfig {
            path: CONFIG_FILE@,
            config: ConfigView {
                project_name: name,
                created_at_unix: now,
                genie_version: GENIE_VERSION@,
            },
        },
        InitStepView::WriteFile { path: LOCK_FILE@, contents: Seq::<char>::empty() },
        InitStepView::WriteFile { path: HEAD_FILE@, contents: HEAD_CONTENTS@ },
        InitStepView::WriteFile { path: MAIN_REF_FILE@, contents: Seq::<char>::empty() },
        InitStepView::Register { name, created_at_unix: now },
        InitStepView::CreateStore { path: STORE_FILE@ },
    ]
}

/// What initializing a project does, step by step.
///
/// Where the control directory exists the project is initialized already
/// and nothing is done. Otherwise the control directory is laid out, the
/// default ignore file is written unless the project has an ignore file,
/// and then come the configuration, the marker, the references, the entry
/// in the registry and the empty store.
pub open spec fn init_steps(
    dir_name: Option<Seq<char>>,
    control_dir_exists: bool,
    ignore_file_exists: bool,
    now: u64,
) -> Seq<InitStepView> {
    if control_dir_exists {
        seq![]
    } else if ignore_file_exists {
        layout_steps() + content_steps(name_for(dir_name), now)
    } else {
        layout_steps() + seq![
            InitStepView::WriteFile { path: IGNORE_FILE@, contents: DEFAULT_IGNORE@ },
        ] + content_steps(name_for(dir_name), now)
    }
}

/// The name of the project in a directory called `dir_name`; `unnamed`
/// where the directory has no name that is text.
pub fn project_name(dir_name: Option<&str>) -> (name: String)
    ensures
        name@ == name_for(
            match dir_name {
                Some(n) => Some(n@),
                None => None,
            },
        ),
{
    match dir_name {
        Some(name) => String::from_str(name),
        None => String::from_str(UNNAMED),
    }
}

/// Plans the initialization of a project: the steps to take, in order.
/// Initializing a project that is initialized already takes no step, so
/// that nothing of it is touched.
pub fn init_project(
    dir_name: Option<&str>,
    control_dir_exists: bool,
    ignore_file_exists: bool,
    now: u64,
) -> (steps: Vec<InitStep>)
    ensures
        step_views(steps@) == init_steps(
            match dir_name {
                Some(n) => Some(n@),
                None => None,
            },
            control_dir_exists,
            ignore_file_exists,
            now,
        ),
        control_dir_exists ==> steps@.len() == 0,
{
    let mut steps: Vec<InitStep> = Vec::new();
    if control_dir_exists {
        assert(step_views(steps@) =~= Seq::<InitStepView>::empty());
        return steps;
    }
    steps.push(InitStep::CreateDir { path: CONTROL_DIR });
    steps.push(InitStep::CreateDir { path: KEYS_DIR });
    steps.push(InitStep::CreateDir { path: REFS_DIR });
    steps.push(InitStep::CreateDir { path: HEADS_DIR });
    if !ignore_file_exists {
        steps.push(InitStep::WriteFile { path: IGNORE_FILE, contents: DEFAULT_IGNORE });
    }
    let name = project_name(dir_name);
    let config = Config {
        project_name: name.clone(),
        created_at_unix: now,
        genie_version: GENIE_VERSION,
    };
    proof {
        reveal_strlit("");
        assert(""@ =~= Seq::<char>::empty());
    }
    steps.push(InitStep::WriteConfig { path: CONFIG_FILE, config });
    steps.push(InitStep::WriteFile { path: LOCK_FILE, contents: "" });
    steps.push(InitStep::WriteFile { path: HEAD_FILE, contents: HEAD_CONTENTS });
    steps.push(InitStep::WriteFile { path: MAIN_REF_FILE, contents: "" });
    steps.push(InitStep::Register { name, created_at_unix: now });
    steps.push(InitStep::CreateStore { path: STORE_FILE });
    assert(step_views(steps@) =~= init_steps(
        match dir_name {
            Some(n) => Some(n@),
            None => None,
        },
        control_dir_exists,
        ignore_file_exists,
        now,
    ));
    steps
}

} // verus!
