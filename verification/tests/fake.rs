//! The fake host itself: its virtual filesystem, its command script and its
//! record of writes.

use vibestation::fake::FakeHost;
use vibestation::host::Host;

fn host() -> FakeHost {
    FakeHost::new()
        .file("/code/one/.git/HEAD", "")
        .file("/code/one/src/deep/nested/file.rs", "")
        .file("/elsewhere/two/.git/HEAD", "")
}

#[test]
fn walk_reports_the_directories_implied_by_the_files() {
    assert_eq!(
        host().walk("/code", 2).unwrap(),
        ["/code", "/code/one", "/code/one/.git", "/code/one/src"],
        "deeper directories and other roots are excluded"
    );
}

#[test]
fn exists_covers_both_files_and_their_directories() {
    let host = host();

    assert!(host.path_exists("/code/one/.git"));
    assert!(host.path_exists("/code/one/.git/HEAD"));
    assert!(!host.path_exists("/code/three"));
}

#[test]
fn a_working_directory_key_beats_the_bare_one() {
    let mut host = FakeHost::new()
        .succeeds("git branch", "everywhere")
        .succeeds("/code/one $ git branch", "here");

    assert_eq!(
        host.run(&["git", "branch"], Some("/code/one")).unwrap().stdout,
        "here"
    );
    assert_eq!(
        host.run(&["git", "branch"], None).unwrap().stdout,
        "everywhere"
    );
    assert_eq!(
        host.run(&["git", "branch"], Some("/code/two")).unwrap().stdout,
        "everywhere",
        "an unmatched working directory falls back to the bare key"
    );
    assert_eq!(
        host.log(),
        [
            "/code/one $ git branch",
            "git branch",
            "/code/two $ git branch"
        ]
    );
}

#[test]
fn writes_are_readable_back_and_recorded_in_order() {
    let mut host = FakeHost::new();

    host.write_file("/state.json", "first").unwrap();
    host.write_file("/state.json", "second").unwrap();

    assert_eq!(
        host.read_file("/state.json").unwrap().as_deref(),
        Some("second")
    );
    assert_eq!(
        host.writes(),
        [
            ("/state.json".to_string(), "first".to_string()),
            ("/state.json".to_string(), "second".to_string()),
        ]
    );
}

#[test]
fn an_unscripted_command_fails_with_its_key() {
    let mut host = FakeHost::new();

    let error = host.run(&["git", "status"], Some("/repo")).unwrap_err();

    assert_eq!(error.message(), "unscripted command /repo $ git status");
}

#[test]
fn a_mismatched_answer_fails_naming_the_prompt() {
    let mut host = FakeHost::new().answer(vibestation::fake::Answer::Select(0));

    let error = host.confirm("Sure?", true).unwrap_err().message();

    assert!(error.contains("Sure?"), "{error}");
}

#[test]
fn an_abort_answers_any_prompt_as_aborted() {
    let mut host = FakeHost::new().answer(vibestation::fake::Answer::Abort);

    let error = host.input("Name", "").unwrap_err();

    assert!(vibestation::host::aborted(&error));
}
