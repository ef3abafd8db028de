use genie::ignore::{build_ignore_set, is_ignored};
use genie::init::{project_name, InitStep, DEFAULT_IGNORE, GENIE_VERSION};
use genie::{init_project, Config};

#[test]
fn initializing_twice_does_nothing_the_second_time() {
    assert!(init_project(Some("p"), true, true, 5).is_empty());
    assert!(init_project(Some("p"), true, false, 5).is_empty());
    assert!(init_project(None, true, false, 0).is_empty());
}

#[test]
fn a_new_project_is_laid_out_step_by_step() {
    let steps = init_project(Some("proj"), false, false, 1700000000);
    assert_eq!(
        steps,
        vec![
            InitStep::CreateDir { path: ".genie" },
            InitStep::CreateDir { path: ".genie/keys" },
            InitStep::CreateDir { path: ".genie/refs" },
            InitStep::CreateDir { path: ".genie/refs/heads" },
            InitStep::WriteFile { path: ".genieignore", contents: DEFAULT_IGNORE },
            InitStep::WriteConfig {
                path: ".genie/config.json",
                config: Config {
                    project_name: "proj".to_string(),
                    created_at_unix: 1700000000,
                    genie_version: "0.0.1",
                },
            },
            InitStep::WriteFile { path: ".genie/lock", contents: "" },
            InitStep::WriteFile { path: ".genie/HEAD", contents: "ref: refs/heads/main\n" },
            InitStep::WriteFile { path: ".genie/refs/heads/main", contents: "" },
            InitStep::Register { name: "proj".to_string(), created_at_unix: 1700000000 },
            InitStep::CreateStore { path: ".genie/history.db" },
        ]
    );
}

#[test]
fn an_ignore_file_that_is_there_is_kept() {
    let steps = init_project(Some("proj"), false, true, 1);
    assert_eq!(steps.len(), 10);
    for step in &steps {
        if let InitStep::WriteFile { path, .. } = step {
            assert_ne!(*path, ".genieignore");
        }
    }
}

#[test]
fn a_directory_without_a_name_gives_an_unnamed_project() {
    assert_eq!(project_name(None), "unnamed");
    assert_eq!(project_name(Some("genie")), "genie");
    let steps = init_project(None, false, true, 1);
    assert!(steps.contains(&InitStep::Register { name: "unnamed".to_string(), created_at_unix: 1 }));
}

#[test]
fn the_version_is_the_first_release() {
    assert_eq!(GENIE_VERSION, "0.0.1");
}

#[test]
fn the_default_ignore_file_hides_build_output_and_the_control_directory() {
    let set = build_ignore_set(DEFAULT_IGNORE);
    for path in [
        "target/debug/genie",
        "crates/x/target/release/y",
        "build/out.js",
        "web/node_modules/left-pad/index.js",
        ".git/HEAD",
        ".DS_Store",
        "docs/.DS_Store",
        ".genie/config.json",
        "main.o",
        "lib/libx.so",
        "bin/tool.exe",
        "logs/today.log",
        ".github/workflows/ci.yml",
        ".gitignore",
    ] {
        assert!(is_ignored(&set, path), "{} is not ignored", path);
    }
    for path in ["src/main.rs", "README.md", "builder.rs", "targets.txt", "a/dist.txt"] {
        assert!(!is_ignored(&set, path), "{} is ignored", path);
    }
}
