//! The picker's rows, laid out as one grid and fitted to the terminal.

use vibestation::config::Config;
use vibestation::group::Worktree;
use vibestation::host::Pick;
use vibestation::{decide, Action};
use vibestation::picker::{self, Row};
use vibestation::scan::Project;
use vibestation::tmux::Session;

fn session(name: &str, path: &str, branch: &str, command: &str, age: &str) -> Session {
    Session {
        name: name.to_string(),
        path: path.to_string(),
        command: command.to_string(),
        attached: false,
        current: false,
        branch: branch.to_string(),
        age: age.to_string(),
        note: String::new(),
    }
}

fn project(name: &str, path: &str, worktrees: &[(&str, &str)]) -> Project {
    Project {
        name: name.to_string(),
        path: path.to_string(),
        worktrees: worktrees
            .iter()
            .map(|(path, branch)| Worktree {
                path: path.to_string(),
                branch: branch.to_string(),
            })
            .collect(),
    }
}

fn listing() -> (Vec<Session>, Vec<Project>) {
    let mut here = session("ada/VBSN-4-picker", "/home/dev/code/vibestation", "ada/VBSN-4-picker", "nvim", "2m");
    here.current = true;
    let mut elsewhere = session("notes-scratch", "/etc", "", "zsh", "1h");
    elsewhere.attached = true;
    (
        vec![here, elsewhere],
        vec![
            project("api", "/home/dev/code/api", &[("/home/dev/code/api-VBSN-7-retries", "ada/VBSN-7-retries")]),
            project("notes", "/home/dev/notes", &[]),
            project("vibestation", "/home/dev/code/vibestation", &[]),
        ],
    )
}

#[test]
fn the_grid_reads_as_the_readme_shows_it() {
    let (sessions, projects) = listing();

    let rows = picker::rows(&sessions, &projects, "/home/dev", "ada", 80);
    let labels: Vec<&str> = rows.iter().map(|(_, label)| label.as_str()).collect();

    assert_eq!(
        labels,
        [
            "▶  ada/VBSN-4-picker   ~/code/vibestation  VBSN-4-picker   nvim  2m",
            "●  notes-scratch       /etc                                zsh   1h",
            "───────────────────────────────────────────────────────────────────",
            "   api                 ~/code/api",
            "└  api-VBSN-7-retries                      VBSN-7-retries",
            "   notes               ~/notes",
            "   vibestation         ~/code/vibestation",
            "✚  add a project by path",
        ]
    );
    assert_eq!(
        rows.iter().map(|(row, _)| *row).collect::<Vec<_>>(),
        [
            Row::Session(0),
            Row::Session(1),
            Row::Separator,
            Row::Project(0),
            Row::Worktree(0, 0),
            Row::Project(1),
            Row::Project(2),
            Row::AddManually,
        ]
    );
    assert_eq!(picker::title(&rows), "Open  2 running · 3 projects");
}

#[test]
fn a_narrow_terminal_gives_up_the_command_and_age_before_the_path() {
    let (sessions, projects) = listing();

    let rows = picker::rows(&sessions, &projects, "/home/dev", "ada", 50);

    assert!(rows.iter().all(|(_, label)| label.chars().count() <= 48), "{rows:?}");
    assert!(!rows[0].1.contains("nvim"), "{:?}", rows[0].1);
}

#[test]
fn a_path_gives_up_its_front_a_segment_at_a_time() {
    let (sessions, mut projects) = listing();
    projects.push(project(
        "android-monorepo-3",
        "/home/dev/projects/sports/android-monorepo-3",
        &[],
    ));

    let rows = picker::rows(&sessions[..0], &projects, "/home/dev", "ada", 74);
    let label = &rows[rows.len() - 2].1;

    assert!(label.contains("~/…/android-monorepo-3"), "{label}");
}

#[test]
fn one_project_is_said_in_the_singular() {
    let projects = vec![project("api", "/home/dev/code/api", &[])];

    let rows = picker::rows(&[], &projects, "/home/dev", "ada", 80);

    assert_eq!(picker::title(&rows), "Open  1 project");
    assert_eq!(rows.len(), 2, "no separator without sessions");
}

#[test]
fn a_panel_shows_the_row_in_full_and_what_right_offers() {
    let (sessions, projects) = listing();
    let offered = ["New session".to_string(), "Open in vi".to_string()];

    assert_eq!(
        picker::preview(Row::Project(1), &sessions, &projects, "/home/dev", &offered),
        ["notes", "dir     ~/notes", "", "→ New session · Open in vi"]
    );
    assert!(picker::preview(Row::Separator, &sessions, &projects, "/home/dev", &offered).is_empty());
}

#[test]
fn a_worktree_a_session_sits_in_is_left_to_its_session_row() {
    let (mut sessions, projects) = listing();
    sessions.push(session(
        "ada/VBSN-7-retries",
        "/home/dev/code/api-VBSN-7-retries",
        "ada/VBSN-7-retries",
        "zsh",
        "5m",
    ));

    let rows = picker::rows(&sessions, &projects, "/home/dev", "ada", 80);

    assert_eq!(
        rows.iter().map(|(row, _)| *row).collect::<Vec<_>>(),
        [
            Row::Session(0),
            Row::Session(1),
            Row::Session(2),
            Row::Separator,
            Row::Project(0),
            Row::Project(1),
            Row::Project(2),
            Row::AddManually,
        ]
    );
    assert_eq!(picker::title(&rows), "Open  3 running · 3 projects");
}

#[test]
fn what_an_answer_from_the_list_asks_for() {
    let (sessions, projects) = listing();
    let rows = picker::rows(&sessions, &projects, "/home/dev", "ada", 80);
    let config = Config::default();

    assert_eq!(decide(Pick::Enter(1), &rows, &sessions, &projects, &config, "vi"), Some(Action::Join(1)));
    assert_eq!(decide(Pick::Enter(2), &rows, &sessions, &projects, &config, "vi"), None);
    assert_eq!(decide(Pick::Enter(3), &rows, &sessions, &projects, &config, "vi"), Some(Action::Start(0, None)));
    assert_eq!(decide(Pick::Enter(4), &rows, &sessions, &projects, &config, "vi"), Some(Action::Start(0, Some(0))));
    assert_eq!(decide(Pick::Enter(7), &rows, &sessions, &projects, &config, "vi"), Some(Action::Add));
    assert_eq!(decide(Pick::Tab(0), &rows, &sessions, &projects, &config, "vi"), Some(Action::Note(0)));
    assert_eq!(decide(Pick::Tab(3), &rows, &sessions, &projects, &config, "vi"), None);
    assert_eq!(decide(Pick::Left, &rows, &sessions, &projects, &config, "vi"), Some(Action::Rescan));
}
