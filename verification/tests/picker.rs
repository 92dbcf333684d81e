//! The one picker end to end: what a choice emits, and the two ways of
//! joining a session.

use vibestation::fake::{Answer, FakeHost};
use vibestation::host::aborted;

const LIST: &str = "tmux list-sessions -F #{session_attached}\t#{session_last_attached}\t#{pane_current_path}\t#{pane_current_command}\t#{@note}\t#{session_name}";
const BRANCH: &str = "git rev-parse --abbrev-ref HEAD";
const DISPLAY: &str = "tmux display-message -p #{session_name}";
const CONFIG: &str = "/home/dev/.vibestation/config.toml";
const CACHE: &str = "/home/dev/.vibestation/projects-cache.json";

/// Two live sessions, one of them attached elsewhere, and three cached
/// projects — one of which is the session's own directory, one carrying two
/// worktrees. A settled config and a warm cache keep the disk out of it.
fn host() -> FakeHost {
    FakeHost::new()
        .file(
            CONFIG,
            "projects_dirs = [\"/home/dev/code\"]\nusername = \"ada\"\n",
        )
        .file(
            CACHE,
            r#"[
              {"name": "vibestation", "path": "/home/dev/code/vibestation",
               "worktrees": [
                 {"path": "/home/dev/code/vibestation-VBSN-1", "branch": "ada/VBSN-1-init"},
                 {"path": "/home/dev/code/vibestation-VBSN-9", "branch": "ada/VBSN-9-fix"}
               ]},
              {"name": "api", "path": "/home/dev/code/api", "worktrees": []},
              {"name": "notes", "path": "/home/dev/notes", "worktrees": []}
            ]"#,
        )
        .succeeds(
            LIST,
            "0\t0\t/home/dev/code/vibestation\tnvim\t\tada/VBSN-4-picker\n\
             1\t0\t/etc\tzsh\t\tnotes-scratch\n",
        )
        .succeeds(
            &format!("/home/dev/code/vibestation $ {BRANCH}"),
            "ada/VBSN-4-picker\n",
        )
        .fails(
            &format!("/etc $ {BRANCH}"),
            128,
            "fatal: not a git repository",
        )
}

/// The picker's rows, by driving the tool and aborting at the prompt.
fn rows(host: &mut FakeHost) -> Vec<String> {
    vibestation::run(host).unwrap_err();
    host.options()
}

/// Where `needle` starts, counted in cells: a glyph is one column and three
/// bytes, so byte offsets do not compare across rows.
fn column(row: &str, needle: &str) -> usize {
    row[..row.find(needle).expect(needle)].chars().count()
}

#[test]
fn choosing_a_session_outside_tmux_attaches_to_it() {
    let mut host = host().answer(Answer::Select(1));

    vibestation::run(&mut host).unwrap();

    assert_eq!(
        host.prompts(),
        ["Open  2 running · 3 projects"],
        "the prompt line never scrolls, so it carries what the list is made of"
    );
    assert_eq!(
        host.log().last().unwrap(),
        "tmux attach-session -t notes-scratch",
        "the name is taken from the chosen row, not its position"
    );
}

#[test]
fn choosing_a_session_inside_tmux_switches_the_client_instead() {
    let mut host = host()
        .in_tmux(true)
        .succeeds(DISPLAY, "ada/VBSN-4-picker\n")
        .answer(Answer::Select(0));

    vibestation::run(&mut host).unwrap();

    assert_eq!(
        host.log().last().unwrap(),
        "tmux switch-client -t ada/VBSN-4-picker",
        "attaching inside tmux would nest a client in its own session"
    );
}

#[test]
fn the_separator_reopens_the_picker_and_an_abort_leaves_it() {
    let mut separator = host().answers(vec![Answer::Select(2), Answer::Abort]);
    let mut abort = host().answer(Answer::Abort);

    vibestation::run(&mut separator).unwrap_err();
    let error = vibestation::run(&mut abort).unwrap_err();

    assert_eq!(
        separator.prompts(),
        [
            "Open  2 running · 3 projects",
            "Open  2 running · 3 projects"
        ],
        "choosing decoration costs nothing: the same picker comes back"
    );

    assert!(
        aborted(&error),
        "an abort is distinguishable from a failure"
    );
    for host in [&separator, &abort] {
        assert!(
            !host
                .log()
                .iter()
                .any(|c| c.contains("attach-session") || c.contains("switch-client")),
            "nothing was joined: {:?}",
            host.log()
        );
        assert!(host.writes().is_empty(), "nothing was written: {:?}", host.writes());
    }
}

#[test]
fn columns_line_up_across_sessions_projects_and_worktrees() {
    let mut host = host().answer(Answer::Abort);

    let rows = rows(&mut host);

    assert_eq!(
        column(&rows[0], "~/code/vibestation"),
        column(&rows[6], "~/code/api"),
        "a session's directory and a project's start in the same column: {rows:?}"
    );
    assert_eq!(
        column(&rows[0], "VBSN-4-picker  nvim"),
        column(&rows[4], "VBSN-1-init"),
        "and so do a session's branch and a worktree's: {rows:?}"
    );
    assert_eq!(
        rows[2].chars().count(),
        rows[0].chars().count().max(rows[3].chars().count()),
        "the separator spans the grid it separates: {rows:?}"
    );
}

/// Everything long at once: a deep path, an owner-prefixed branch, a command,
/// and a session name past its share of the width. This is the row that used
/// to wrap into two.
fn long() -> FakeHost {
    FakeHost::new()
        .file(
            CONFIG,
            "projects_dirs = [\"/home/dev/projects\"]\nusername = \"antondudakov\"\n",
        )
        .file(
            CACHE,
            r#"[{"name": "android-monorepo-3",
                 "path": "/home/dev/projects/sports/android-monorepo-3",
                 "worktrees": []}]"#,
        )
        .succeeds(
            LIST,
            "0\t0\t/home/dev/projects/sports/android-monorepo-3\tpython\t\tandroid3 | Ana input everywhere\n",
        )
        .succeeds(
            "/home/dev/projects/sports/android-monorepo-3 $ git rev-parse --abbrev-ref HEAD",
            "antondudakov/ana_input_everywhere\n",
        )
}

#[test]
fn a_row_that_used_to_wrap_now_fits_the_terminal() {
    let mut host = long().answer(Answer::Abort);

    let rows = rows(&mut host);

    for row in &rows {
        assert!(
            row.chars().count() <= 78,
            "80 columns less the two inquire writes before every option: {row:?}"
        );
    }
    assert_eq!(rows[0].chars().count(), 78, "and it uses what it is given");
}

#[test]
fn a_narrow_terminal_gives_up_the_command_before_it_destroys_the_path() {
    let mut host = long().terminal(60, 24).answer(Answer::Abort);

    let rows = rows(&mut host);

    for row in &rows {
        assert!(row.chars().count() <= 58, "{row:?}");
    }
    assert!(
        !rows[0].contains("python"),
        "the command goes before the branch or the name: {rows:?}"
    );
}

#[test]
fn your_own_prefix_comes_off_a_branch_and_another_owners_stays() {
    let mut host = host()
        .succeeds(
            LIST,
            "0\t0\t/home/dev/code/vibestation\tnvim\t\tmine\n1\t0\t/home/dev/notes\tzsh\t\ttheirs\n",
        )
        .succeeds(
            &format!("/home/dev/notes $ {BRANCH}"),
            "grace/VBSN-2-review\n",
        )
        .answer(Answer::Abort);

    let rows = rows(&mut host);

    assert!(
        rows[0].contains("VBSN-4-picker") && !rows[0].contains("ada/"),
        "your own name on every row is your own name, repeated: {rows:?}"
    );
    assert!(
        rows[1].contains("grace/VBSN-2-review"),
        "someone else's prefix is information: {rows:?}"
    );
}

#[test]
fn one_long_worktree_name_does_not_widen_the_name_column() {
    let mut host = host()
        .file(
            CACHE,
            r#"[{"name": "vibestation", "path": "/home/dev/code/vibestation",
                 "worktrees": [
                   {"path": "/home/dev/code/vibestation-VBSN-7-prod-error-rate-0c4faa-again",
                    "branch": "ada/VBSN-7-prod"}
                 ]},
                {"name": "api", "path": "/home/dev/code/api", "worktrees": []}]"#,
        )
        .answer(Answer::Abort);

    let rows = rows(&mut host);

    assert!(
        rows[4].contains('…'),
        "the long name is the one that gives way: {rows:?}"
    );
    assert_eq!(
        column(&rows[5], "~/code/api"),
        column(&rows[0], "~/code/vibestation"),
        "and the column it is in stays where it was: {rows:?}"
    );
}

#[test]
fn the_session_you_are_in_leads_the_list_and_says_how_long_it_has_been() {
    let mut host = host()
        .in_tmux(true)
        .succeeds(
            LIST,
            "1\t1699996400\t/home/dev/code/vibestation\tnvim\t\tada/VBSN-4-picker\n\
             1\t0\t/etc\tzsh\t\tnotes-scratch\n",
        )
        .succeeds(
            "tmux display-message -p #{session_name}",
            "ada/VBSN-4-picker\n",
        )
        .answer(Answer::Abort);

    let rows = rows(&mut host);

    assert!(
        rows[0].starts_with('▶') && rows[0].ends_with("1h"),
        "the session you are in, an hour since you were last in it: {rows:?}"
    );
    assert!(
        rows[1].starts_with('●'),
        "and the one someone left attached elsewhere: {rows:?}"
    );
}

#[test]
fn the_prompt_line_counts_what_the_list_is_made_of() {
    let mut sessions = host().answer(Answer::Abort);
    let mut cold = host()
        .fails(LIST, 1, "no server running on /tmp/tmux-1000/default")
        .answer(Answer::Abort);
    let mut one = FakeHost::new()
        .file(
            CONFIG,
            "projects_dirs = [\"/home/dev/code\"]\nusername = \"ada\"\n",
        )
        .file(
            CACHE,
            r#"[{"name": "api", "path": "/home/dev/code/api", "worktrees": []}]"#,
        )
        .fails(LIST, 1, "no server running")
        .answer(Answer::Abort);

    for host in [&mut sessions, &mut cold, &mut one] {
        vibestation::run(host).unwrap_err();
    }

    assert_eq!(sessions.prompts(), ["Open  2 running · 3 projects"]);
    assert_eq!(
        cold.prompts(),
        ["Open  3 projects"],
        "with nothing running the half that would say so is left out"
    );
    assert_eq!(one.prompts(), ["Open  1 project"], "singular at one");
}
