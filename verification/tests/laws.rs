//! What holds of every input, checked on a few: names tmux accepts, a
//! ranking that is best first and stable, and a run that ends at the picker
//! when the developer walks away from it.

use vibestation::fake::{Answer, FakeHost};
use vibestation::host::Error;
use vibestation::naming::{from_branch, sanitize};
use vibestation::scan::Project;
use vibestation::state::{self, Open};

const NOW: u64 = 1_700_000_000;
const HOUR: u64 = 60 * 60;
const LIST: &str = "tmux list-sessions -F #{session_attached}\t#{session_last_attached}\t#{pane_current_path}\t#{pane_current_command}\t#{@note}\t#{session_name}";
const CONFIG: &str = "/home/dev/.vibestation/config.toml";
const CACHE: &str = "/home/dev/.vibestation/projects-cache.json";

fn project(path: &str) -> Project {
    Project {
        name: path.rsplit('/').next().unwrap().to_string(),
        path: path.to_string(),
        worktrees: Vec::new(),
    }
}

fn names(projects: &[Project]) -> Vec<String> {
    projects.iter().map(|p| p.name.clone()).collect()
}

#[test]
fn a_sanitised_name_is_clean_and_stays_as_it_is() {
    let once = sanitize("ada/v1.2:rc");
    assert_eq!(once, "ada/v1-2-rc");
    assert!(!once.contains('.') && !once.contains(':'));
    assert_eq!(sanitize(&once), once);
}

#[test]
fn a_name_from_a_branch_carries_the_prefix_once() {
    let named = from_branch("ada", "VBSN-1.fix");
    assert_eq!(named, "ada/VBSN-1-fix");
    assert_eq!(from_branch("ada", &named), named);
    assert_eq!(from_branch("ada", "ada/VBSN-1-init"), "ada/VBSN-1-init");
}

#[test]
fn ranking_is_best_first_and_keeps_ties_in_order() {
    let opens = vec![
        Open { path: "/code/b".to_string(), count: 1, last: NOW - 2 * HOUR },
        Open { path: "/code/c".to_string(), count: 5, last: NOW },
        Open { path: "/code/e".to_string(), count: 4, last: NOW - 3 * HOUR },
    ];
    let projects = vec![
        project("/code/a"),
        project("/code/b"),
        project("/code/c"),
        project("/code/d"),
        project("/code/e"),
    ];
    let ranked = state::rank(projects, &opens, NOW);
    assert_eq!(
        names(&ranked),
        ["c", "e", "b", "a", "d"],
        "c scores 80, e 32, b 8; a and d were never opened and keep their order"
    );
    let again = state::rank(ranked.clone(), &opens, NOW);
    assert_eq!(names(&again), names(&ranked), "a ranked list is left as it is");
}

/// Two cached projects, no tmux server.
fn quiet_host() -> FakeHost {
    FakeHost::new()
        .file(
            CONFIG,
            "projects_dirs = [\"/home/dev/code\"]\nusername = \"ada\"\n",
        )
        .file(
            CACHE,
            r#"[
              {"name": "api", "path": "/home/dev/code/api", "worktrees": []},
              {"name": "notes", "path": "/home/dev/code/notes", "worktrees": []}
            ]"#,
        )
        .fails(LIST, 1, "no server running on /tmp/tmux-1000/default")
}

#[test]
fn esc_at_the_picker_ends_the_run_there() {
    let mut host = quiet_host().answers(vec![Answer::Abort]);
    let ran = vibestation::run(&mut host);
    assert!(matches!(ran, Err(Error::Aborted)));
    assert_eq!(host.log(), [LIST], "nothing is run after the picker is left");
    assert_eq!(host.prompts(), ["Open  2 projects"]);
}

#[test]
fn joining_a_session_is_the_last_thing_a_run_does() {
    let mut host = FakeHost::new()
        .file(
            CONFIG,
            "projects_dirs = [\"/home/dev/code\"]\nusername = \"ada\"\n",
        )
        .file(CACHE, "[]")
        .succeeds(LIST, "1\t0\t/home/dev/code/api\tnvim\t\tada/VBSN-4\n")
        .succeeds("/home/dev/code/api $ git rev-parse --abbrev-ref HEAD", "ada/VBSN-4\n")
        .answers(vec![Answer::Select(0)]);
    let ran = vibestation::run(&mut host);
    assert!(ran.is_ok());
    assert_eq!(
        host.log().last().map(String::as_str),
        Some("tmux attach-session -t ada/VBSN-4")
    );
}
