use vstd::prelude::*;

pub mod config;
pub mod fake;
pub mod git;
pub mod group;
pub mod host;
pub mod json;
pub mod line;
pub mod naming;
pub mod path;
pub mod picker;
pub mod scan;
pub mod select;
pub mod state;
pub mod text;
pub mod tmux;

use crate::config::Config;
use crate::host::{
    asks, asks_nothing, extends, lemma_asks_nothing_push, lemma_asks_nothing_same, lemma_asks_nothing_trans,
    ends_calmly, lemma_extends_trans, lemma_extends_index, lemma_handed_ends_calmly, lemma_one_run_quietly, lemma_quietly_ends_calmly,
    lemma_quietly_push, lemma_quietly_same, lemma_quietly_trans, outcome, quiet, quietly, Error, Event, Host, Output, Pick,
};
use crate::picker::Row;
use crate::scan::Project;
use crate::tmux::Session;

verus! {

/// What the picker's own keys do, in the line under it.
pub const KEYS: &'static str = "↑↓ move · type to filter · enter select · ← refresh · → more · esc cancel";

/// And in a row's menu.
pub const MENU_KEYS: &'static str = "↑↓ move · enter select · ← back · esc cancel";

/// How many times the picker is opened at most before the tool gives up on
/// the developer: every loop here ends, and no one reaches this.
pub const ROUNDS: u64 = 0xffff_ffff_ffff_ffff;

/// What can be done to a row. Indexes are into the lists the picker was
/// built from, as a [`Row`]'s are.
#[derive(Debug, Clone, Copy, PartialEq, Eq, Structural)]
pub enum Action {
    Join(usize),
    Kill(usize),
    Rename(usize),
    /// Leave a note on a session.
    Note(usize),
    /// A project, or one of its worktrees.
    Start(usize, Option<usize>),
    Edit(usize, Option<usize>),
    /// Ask about each of a project's worktrees whose work is done.
    CleanUp(usize),
    /// Take a manually added project off the list.
    Forget(usize),
    /// A project and one of its worktrees.
    Remove(usize, usize),
    Rescan,
    Add,
}

/// The indexes an action holds are into these lists.
pub open spec fn action_fits(a: Action, sessions: Seq<Session>, projects: Seq<Project>) -> bool {
    match a {
        Action::Join(i) | Action::Kill(i) | Action::Rename(i) | Action::Note(i) => i < sessions.len(),
        Action::Start(i, c) | Action::Edit(i, c) => i < projects.len() && (c matches Some(w) ==> w
            < projects[i as int].worktrees.len()),
        Action::CleanUp(i) | Action::Forget(i) => i < projects.len(),
        Action::Remove(i, c) => i < projects.len() && c < projects[i as int].worktrees.len(),
        Action::Rescan | Action::Add => true,
    }
}

/// The indexes a row holds are into these lists.
pub open spec fn row_fits(row: Row, sessions: Seq<Session>, projects: Seq<Project>) -> bool {
    match row {
        Row::Session(i) => i < sessions.len(),
        Row::Project(i) => i < projects.len(),
        Row::Worktree(i, c) => i < projects.len() && c < projects[i as int].worktrees.len(),
        _ => true,
    }
}

/// The editor's name for its menu entry: the last component of its command.
pub open spec fn editor_label(editor: Seq<char>) -> Seq<char> {
    let t = text::tokens(editor);
    if t.len() > 0 && path::file_name(t[0]) is Some {
        "Open in "@ + path::file_name(t[0])->Some_0
    } else {
        "Open in the editor"@
    }
}

fn edit_label(editor: &str) -> (r: String)
    ensures
        r@ == editor_label(editor@),
{
    let t = text::tokens_of(editor);
    if t.len() > 0 {
        assert(path::texts(t@)[0] == t@[0]@);
        match path::file_name_of(t[0].as_str()) {
            Some(bin) => text::concat("Open in ", bin.as_str()),
            None => String::from_str("Open in the editor"),
        }
    } else {
        String::from_str("Open in the editor")
    }
}

/// Whether `project` was added by hand.
fn added_by_hand(config: &Config, project: &str) -> (r: bool)
    ensures
        r == path::texts(config.extra_projects@).contains(project@),
{
    config::listed_in(&config.extra_projects, project)
}

/// The actions of a row, each with its menu label: what Enter does first.
pub open spec fn offered(row: Row, sessions: Seq<Session>, projects: Seq<Project>, config: Config, editor: Seq<char>) -> Seq<(Action, Seq<char>)> {
    match row {
        Row::Session(i) => seq![
            (Action::Join(i), "Join"@),
            (Action::Kill(i), "Kill"@),
            (Action::Rename(i), "Rename"@),
        ],
        Row::Project(i) => {
            let p = projects[i as int];
            seq![(Action::Start(i, None), "New session"@), (Action::Edit(i, None), editor_label(editor))]
                + (if p.worktrees.len() > 0 {
                seq![(Action::CleanUp(i), "Clean up worktrees"@)]
            } else {
                Seq::empty()
            }) + (if path::texts(config.extra_projects@).contains(p.path@) {
                seq![(Action::Forget(i), "Remove from the list"@)]
            } else {
                Seq::empty()
            })
        },
        Row::Worktree(i, c) => seq![
            (Action::Start(i, Some(c)), "New session"@),
            (Action::Edit(i, Some(c)), editor_label(editor)),
            (Action::Remove(i, c), "Remove the worktree"@),
        ],
        Row::Separator => Seq::empty(),
        Row::AddManually => seq![(Action::Add, Seq::empty())],
    }
}

/// The title a row's menu carries: the name its row shows.
pub open spec fn menu_title(row: Row, sessions: Seq<Session>, projects: Seq<Project>) -> Seq<char> {
    match row {
        Row::Session(i) => sessions[i as int].name@,
        Row::Project(i) => projects[i as int].name@,
        Row::Worktree(i, c) => picker::base(projects[i as int].worktrees[c as int].path@),
        _ => Seq::empty(),
    }
}

pub open spec fn labelled(a: Seq<(Action, String)>) -> Seq<(Action, Seq<char>)> {
    a.map_values(|p: (Action, String)| (p.0, p.1@))
}

fn offer(out: &mut Vec<(Action, String)>, action: Action, label: &str)
    ensures
        labelled(final(out)@) == labelled(old(out)@).push((action, label@)),
{
    let ghost before = labelled(out@);
    out.push((action, label.to_owned()));
    assert(labelled(out@) =~= before.push((action, label@)));
}

/// What can be done to a row, each labelled for its menu, under the name
/// the menu is titled with. The first is what Enter does; → offers them all.
pub fn actions(row: Row, sessions: &[Session], projects: &[Project], config: &Config, editor: &str) -> (r: (
    String,
    Vec<(Action, String)>,
))
    requires
        row_fits(row, sessions@, projects@),
    ensures
        r.0@ == menu_title(row, sessions@, projects@),
        labelled(r.1@) == offered(row, sessions@, projects@, *config, editor@),
        forall|k: int| 0 <= k < r.1.len() ==> action_fits(#[trigger] r.1@[k].0, sessions@, projects@),
{
    let mut out: Vec<(Action, String)> = Vec::new();
    let title = match row {
        Row::Session(i) => {
            offer(&mut out, Action::Join(i), "Join");
            offer(&mut out, Action::Kill(i), "Kill");
            offer(&mut out, Action::Rename(i), "Rename");
            assert(labelled(out@) =~= offered(row, sessions@, projects@, *config, editor@));
            sessions[i].name.clone()
        },
        Row::Project(i) => {
            let p = &projects[i];
            let label = edit_label(editor);
            offer(&mut out, Action::Start(i, None), "New session");
            offer(&mut out, Action::Edit(i, None), label.as_str());
            let ghost two = labelled(out@);
            if p.worktrees.len() > 0 {
                offer(&mut out, Action::CleanUp(i), "Clean up worktrees");
            }
            let ghost three = labelled(out@);
            if added_by_hand(config, p.path.as_str()) {
                offer(&mut out, Action::Forget(i), "Remove from the list");
            }
            assert(labelled(out@) =~= offered(row, sessions@, projects@, *config, editor@));
            p.name.clone()
        },
        Row::Worktree(i, c) => {
            let label = edit_label(editor);
            offer(&mut out, Action::Start(i, Some(c)), "New session");
            offer(&mut out, Action::Edit(i, Some(c)), label.as_str());
            offer(&mut out, Action::Remove(i, c), "Remove the worktree");
            assert(labelled(out@) =~= offered(row, sessions@, projects@, *config, editor@));
            text::string(&picker::base_of(projects[i].worktrees[c].path.as_str()))
        },
        Row::Separator => {
            assert(labelled(out@) =~= offered(row, sessions@, projects@, *config, editor@));
            String::new()
        },
        Row::AddManually => {
            offer(&mut out, Action::Add, "");
            proof {
                reveal_strlit("");
            }
            assert(""@ =~= Seq::<char>::empty());
            assert(labelled(out@)[0] == (Action::Add, Seq::<char>::empty()));
            assert(labelled(out@) =~= offered(row, sessions@, projects@, *config, editor@));
            String::new()
        },
    };
    assert(labelled(out@) =~= offered(row, sessions@, projects@, *config, editor@));
    assert forall|k: int| 0 <= k < out.len() implies action_fits(#[trigger] out@[k].0, sessions@, projects@) by {
        assert(labelled(out@)[k].0 == out@[k].0);
    }
    (title, out)
}

/// The labels of the actions.
fn labels_of(offered: &Vec<(Action, String)>) -> (r: Vec<String>)
    ensures
        path::texts(r@) == labelled(offered@).map_values(|p: (Action, Seq<char>)| p.1),
{
    let mut r: Vec<String> = Vec::new();
    let mut i: usize = 0;
    while i < offered.len()
        invariant
            i <= offered.len(),
            path::texts(r@) == labelled(offered@).take(i as int).map_values(|p: (Action, Seq<char>)| p.1),
        decreases offered.len() - i,
    {
        let ghost r0 = path::texts(r@);
        let l = offered[i].1.clone();
        assert(l@ == labelled(offered@)[i as int].1);
        r.push(l);
        assert(path::texts(r@) =~= r0.push(l@));
        assert(labelled(offered@).take(i + 1).map_values(|p: (Action, Seq<char>)| p.1) =~= labelled(
            offered@,
        ).take(i as int).map_values(|p: (Action, Seq<char>)| p.1).push(l@));
        i += 1;
    }
    assert(labelled(offered@).take(i as int) == labelled(offered@));
    r
}

/// What a menu's answer chooses: the action of the entry Enter or → was
/// pressed on, nothing for ← or Tab.
pub open spec fn menu_choice(p: Result<Pick, Error>, offered: Seq<(Action, String)>) -> Result<Option<Action>, Error> {
    match p {
        Err(e) => Err(e),
        Ok(Pick::Enter(i)) => Ok(Some(offered[i as int].0)),
        Ok(Pick::Right(i)) => Ok(Some(offered[i as int].0)),
        Ok(_) => Ok(None),
    }
}

/// A picker the developer walked away from, or that failed, with `err`.
pub open spec fn cancelled(e: Event, err: Error) -> bool {
    match e {
        Event::Picked(_, _, _, _, Err(x)) => x == err,
        _ => false,
    }
}

/// A picker that gave no answer.
pub open spec fn pick_failed(e: Event) -> bool {
    match e {
        Event::Picked(_, _, _, _, Err(_)) => true,
        _ => false,
    }
}

/// → on a row: its menu, when it has more to offer than the one thing Enter
/// does. ← goes back to the list, which is `None`.
fn more<H: Host>(host: &mut H, title: &str, offered: &Vec<(Action, String)>) -> (r: Result<
    Option<Action>,
    Error,
>)
    ensures
        H::obeys_model() ==> crate::host::same_place(*old(host), *final(host)),
        r matches Ok(Some(a)) ==> exists|k: int| 0 <= k < offered.len() && offered@[k].0 == a,
        offered.len() < 2 ==> r == Ok::<Option<Action>, Error>(None),
        H::obeys_model() ==> (offered.len() < 2 ==> final(host).events() == old(host).events()),
        H::obeys_model() ==> (offered.len() >= 2 ==> {
            &&& final(host).events().len() == old(host).events().len() + 1
            &&& final(host).events().take(old(host).events().len() as int) == old(host).events()
            &&& final(host).events().last() matches Event::Picked(t, opts, _, keys, p) && t == title@ && opts
                == labelled(offered@).map_values(|x: (Action, Seq<char>)| x.1) && keys == MENU_KEYS@ && r
                == menu_choice(p, offered@)
        }),
{
    if offered.len() < 2 {
        return Ok(None);
    }
    let labels = labels_of(offered);
    assert(labels.len() == path::texts(labels@).len());
    assert(labels.len() == offered.len());
    let none: Vec<Vec<String>> = Vec::new();
    let picked = host.pick(title, &labels, &none, MENU_KEYS);
    proof {
        if H::obeys_model() {
            assert(host.events().take(old(host).events().len() as int) =~= old(host).events());
        }
    }
    match picked? {
        Pick::Enter(i) | Pick::Right(i) => {
            let a = offered[i].0;
            assert(offered@[i as int].0 == a);
            Ok(Some(a))
        },
        Pick::Left | Pick::Tab(_) => Ok(None),
    }
}

/// The argument vector of the editor's command line, on `.`.
fn editor_argv(editor: &str) -> (r: Vec<String>)
    ensures
        path::texts(r@) == text::tokens(editor@).push(seq!['.']),
{
    let mut argv = text::tokens_of(editor);
    let ghost a0 = argv@;
    proof {
        reveal_strlit(".");
    }
    let dot = String::from_str(".");
    assert(dot@ == seq!['.']);
    argv.push(dot);
    assert(argv@ == a0.push(dot));
    assert(path::texts(argv@) =~= path::texts(a0).push(seq!['.']));
    argv
}

/// `&str`s of these strings.
fn borrowed(v: &Vec<String>) -> (r: Vec<&str>)
    ensures
        text::strs(r@) == path::texts(v@),
{
    let mut r: Vec<&str> = Vec::new();
    let mut i: usize = 0;
    while i < v.len()
        invariant
            i <= v.len(),
            text::strs(r@) == path::texts(v@).take(i as int),
        decreases v.len() - i,
    {
        let ghost r0 = text::strs(r@);
        let x = v[i].as_str();
        assert(x@ == v@[i as int]@);
        r.push(x);
        assert(text::strs(r@) =~= r0.push(x@));
        assert(path::texts(v@).take(i + 1) =~= path::texts(v@).take(i as int).push(v@[i as int]@));
        i += 1;
    }
    assert(path::texts(v@).take(i as int) == path::texts(v@));
    r
}

/// Open the project or worktree in the developer's editor, in this
/// terminal, from inside the directory. It counts as an open, as a session
/// would.
fn edit<H: Host>(host: &mut H, project: &Project, worktree: Option<usize>) -> (r: Result<(), Error>)
    requires
        worktree matches Some(c) ==> c < project.worktrees.len(),
    ensures
        H::obeys_model() ==> crate::host::same_place(*old(host), *final(host)),
        H::obeys_model() ==> (r is Ok ==> final(host).events().len() > 0 && final(host).events().last() is Handed),
        H::obeys_model() ==> ends_calmly(old(host).events(), final(host).events()),
{
    let ghost h0 = *host;
    let counted = state::record(host, project.path.as_str());
    let ghost e1 = host.events();
    proof {
        if H::obeys_model() {
            lemma_recorded_quietly(h0, project.path@, old(host).events(), e1, counted);
            lemma_quietly_ends_calmly(old(host).events(), e1);
        }
    }
    counted?;
    let editor = host.editor();
    let argv = editor_argv(editor.as_str());
    let refs = borrowed(&argv);
    let handed = host.exec(&refs, Some(project.dir(worktree)));
    proof {
        if H::obeys_model() {
            lemma_handed_ends_calmly(old(host).events(), e1, host.events().last());
        }
    }
    handed
}

/// A line for the developer, made of a name and why nothing was done to it.
fn tell<H: Host>(host: &mut H, first: &str, second: &str, third: &str, fourth: &str)
    ensures
        H::obeys_model() ==> crate::host::kept(*old(host), *final(host)),
        H::obeys_model() ==> (final(host).events() == old(host).events().push(Event::Said(first@ + second@ + third@ + fourth@))),
{
    let mut m = String::from_str(first);
    text::push_str(&mut m, second);
    text::push_str(&mut m, third);
    text::push_str(&mut m, fourth);
    host.say(m.as_str());
}

/// `k` is the first session sitting in `worktree`.
pub open spec fn first_inside(sessions: Seq<Session>, worktree: Seq<char>, k: int) -> bool {
    &&& 0 <= k < sessions.len()
    &&& path::within(sessions[k].path@, worktree)
    &&& forall|i: int| 0 <= i < k ==> !path::within(#[trigger] sessions[i].path@, worktree)
}

/// What [`remove`] does: a session sitting in the worktree is named and
/// nothing else is done; otherwise git is asked for changes, and a worktree
/// with changes is refused with a word; otherwise the developer is asked, and
/// only a yes removes it — without force.
pub open spec fn removed(
    sessions: Seq<Session>,
    main: Seq<char>,
    worktree: Seq<char>,
    before: Seq<Event>,
    after: Seq<Event>,
    r: Result<bool, Error>,
) -> bool {
    let n = before.len() as int;
    if exists|k: int| first_inside(sessions, worktree, k) {
        let k = choose|k: int| first_inside(sessions, worktree, k);
        &&& after == before.push(
            Event::Said(sessions[k].name@ + " is running in "@ + worktree + ", so it is not removed"@),
        )
        &&& r == Ok::<bool, Error>(false)
    } else {
        &&& after.len() > n
        &&& after.take(n) == before
        &&& after[n] == Event::Ran(git::status_command(), Some(worktree), outcome(after[n]))
        &&& match git::changes_result(outcome(after[n])) {
            Err(e) => after.len() == n + 1 && r == Err::<bool, Error>(e),
            Ok(true) => after.len() == n + 2 && after[n + 1] == Event::Said(
                "uncommitted changes in "@ + worktree + ", so it is not removed"@,
            ) && r == Ok::<bool, Error>(false),
            Ok(false) => {
                &&& after.len() > n + 1
                &&& after[n + 1] matches Event::Confirmed(q, d, c) && q == "Remove "@ + worktree + seq!['?'] && !d
                    && match c {
                    Err(e) => after.len() == n + 2 && r == Err::<bool, Error>(e),
                    Ok(false) => after.len() == n + 2 && r == Ok::<bool, Error>(false),
                    Ok(true) => {
                        &&& crate::host::one_run(
                            after.take(n + 2),
                            after,
                            seq!["git"@, "worktree"@, "remove"@, worktree],
                            Some(main),
                        )
                        &&& match outcome(after.last()) {
                            Err(e) => r == Err::<bool, Error>(e),
                            Ok(o) => if o.success() {
                                r == Ok::<bool, Error>(true)
                            } else {
                                r matches Err(Error::Failed(m)) && m@ == git::refused(
                                    "git would not remove worktree "@ + worktree,
                                    o,
                                )
                            },
                        }
                    },
                }
            },
        }
    }
}

/// Remove a worktree — never forced, and after refusing what git would not:
/// a session still sitting in it, whose shell would be left in a directory
/// that is gone, and changes, untracked files included. Says whether it went.
fn remove<H: Host>(host: &mut H, sessions: &[Session], main: &str, worktree: &str) -> (r: Result<bool, Error>)
    ensures
        H::obeys_model() ==> crate::host::same_place(*old(host), *final(host)),
        H::obeys_model() ==> removed(sessions@, main@, worktree@, old(host).events(), final(host).events(), r),
        H::obeys_model() ==> quietly(old(host).events(), final(host).events()),
{
    proof {
        reveal_strlit("");
    }
    let ghost before = host.events();
    let ghost n = before.len() as int;
    let mut i: usize = 0;
    while i < sessions.len()
        invariant
            i <= sessions.len(),
            host.events() == before,
            before == old(host).events(),
            H::obeys_model() ==> crate::host::kept(*old(host), *host),
            forall|k: int| 0 <= k < i ==> !path::within(#[trigger] sessions@[k].path@, worktree@),
        decreases sessions.len() - i,
    {
        if path::is_within(sessions[i].path.as_str(), worktree) {
            tell(host, sessions[i].name.as_str(), " is running in ", worktree, ", so it is not removed");
            proof {
                assert(first_inside(sessions@, worktree@, i as int));
                let k = choose|k: int| first_inside(sessions@, worktree@, k);
                if k < i {
                    assert(!path::within(sessions@[k].path@, worktree@));
                } else if k > i {
                    assert(!path::within(sessions@[i as int].path@, worktree@));
                }
                assert(k == i);
                if H::obeys_model() {
                    lemma_quietly_push(before, host.events().last());
                }
            }
            return Ok(false);
        }
        i += 1;
    }
    assert(!exists|k: int| first_inside(sessions@, worktree@, k));
    let checked = git::has_changes(host, worktree);
    let ghost e1 = host.events();
    proof {
        if H::obeys_model() {
            lemma_one_run_quietly(before, e1, git::status_command(), Some(worktree@));
            assert(e1.take(n) =~= before);
        }
    }
    if checked? {
        tell(host, "uncommitted changes in ", worktree, ", so it is not removed", "");
        proof {
            assert("uncommitted changes in "@ + worktree@ + ", so it is not removed"@ + ""@ =~= "uncommitted changes in "@
                + worktree@ + ", so it is not removed"@);
            if H::obeys_model() {
                lemma_quietly_push(e1, host.events().last());
                lemma_quietly_trans(before, e1, host.events());
                assert(host.events().take(n) =~= before);
                assert(host.events()[n] == e1[n]);
            }
        }
        return Ok(false);
    }
    let mut question = text::concat("Remove ", worktree);
    text::push_char(&mut question, '?');
    assert(question@ =~= "Remove "@ + worktree@ + seq!['?']);
    let answer = host.confirm(question.as_str(), false);
    let ghost e2 = host.events();
    proof {
        if H::obeys_model() {
            lemma_quietly_push(e1, e2.last());
            lemma_quietly_trans(before, e1, e2);
            assert(e2.take(n) =~= before);
            assert(e2[n] == e1[n]);
        }
    }
    if !answer? {
        return Ok(false);
    }
    let gone = git::remove_worktree(host, main, worktree);
    proof {
        if H::obeys_model() {
            lemma_one_run_quietly(e2, host.events(), seq!["git"@, "worktree"@, "remove"@, worktree@], Some(main@));
            lemma_quietly_trans(before, e2, host.events());
            assert(host.events().take(n + 2) =~= e2);
            assert(host.events().take(n) =~= before);
            assert(host.events()[n] == e1[n]);
            assert(host.events()[n + 1] == e2[n + 1]);
        }
    }
    gone?;
    Ok(true)
}

/// The first line of `s`, or all of it.
fn first_line(s: &str) -> (r: Vec<char>)
    ensures
        r@ == (if text::lines(s@).len() > 0 { text::lines(s@)[0] } else { Seq::empty() }),
{
    let ls = text::lines_of(s);
    if ls.len() > 0 {
        assert(text::views(ls@)[0] == ls@[0]@);
        text::copy(&ls[0])
    } else {
        Vec::new()
    }
}

/// A worktree's work is done when its branch's remote is gone, or when
/// merging its HEAD into `base` would change nothing: git gives the tree
/// `base` already has. A git too old for `merge-tree --write-tree` fails it,
/// and a failure counts as not merged.
fn done<H: Host>(host: &mut H, worktree: &group::Worktree, gone: &str, base: &str, tree: &[char]) -> (r: Result<bool, Error>)
    ensures
        H::obeys_model() ==> crate::host::same_place(*old(host), *final(host)),
        H::obeys_model() ==> quietly(old(host).events(), final(host).events()),
{
    proof {
        lemma_quietly_same(old(host).events());
    }
    if text::chars(worktree.branch.as_str()).len() > 0 && git::is_gone(gone, worktree.branch.as_str()) {
        return Ok(true);
    }
    if tree.len() == 0 {
        return Ok(false);
    }
    let argv = ["git", "merge-tree", "--write-tree", base, "HEAD"];
    let asked = host.run(&argv, Some(worktree.path.as_str()));
    proof {
        if H::obeys_model() {
            lemma_quietly_push(old(host).events(), host.events().last());
        }
    }
    let out = asked?;
    if !out.succeeded() {
        return Ok(false);
    }
    let first = first_line(out.stdout.as_str());
    Ok(text::same_chars(&first, tree))
}

/// The tree `reference` names, empty when it names none.
fn tree_of<H: Host>(host: &mut H, main: &str, reference: &str) -> (r: Result<Vec<char>, Error>)
    ensures
        H::obeys_model() ==> crate::host::same_place(*old(host), *final(host)),
        H::obeys_model() ==> quietly(old(host).events(), final(host).events()),
{
    let mut spec = String::from_str(reference);
    text::push_str(&mut spec, "^{tree}");
    let argv = ["git", "rev-parse", "--verify", "--quiet", spec.as_str()];
    let asked = host.run(&argv, Some(main));
    proof {
        if H::obeys_model() {
            lemma_quietly_push(old(host).events(), host.events().last());
        }
    }
    let out = asked?;
    if out.succeeded() {
        Ok(text::chars(out.trimmed().as_str()))
    } else {
        Ok(Vec::new())
    }
}

/// Prune the worktrees whose directories are gone, then ask about each
/// worktree whose work is done, one at a time, through the same [`remove`]
/// the menu's own entry uses. Nothing is fetched. Says whether any went.
fn clean_up<H: Host>(host: &mut H, config: &Config, sessions: &[Session], main: &str) -> (r: Result<bool, Error>)
    ensures
        H::obeys_model() ==> crate::host::same_place(*old(host), *final(host)),
        H::obeys_model() ==> quietly(old(host).events(), final(host).events()),
{
    let ghost before = host.events();
    let prune = ["git", "worktree", "prune"];
    let pruned = host.run(&prune, Some(main));
    let ghost e1 = host.events();
    proof {
        if H::obeys_model() {
            lemma_quietly_push(before, e1.last());
        }
    }
    pruned?;
    let listed = group::worktrees(host, main);
    let ghost e2 = host.events();
    proof {
        if H::obeys_model() {
            lemma_one_run_quietly(e1, e2, group::list_command(), Some(main@));
            lemma_quietly_trans(before, e1, e2);
        }
    }
    let listed = listed?;
    let default = git::default_branch(host, config, main);
    let ghost e3 = host.events();
    proof {
        if H::obeys_model() {
            lemma_default_quietly(
                match &config.default_branch {
                    Some(b) => Some(b@),
                    None => None,
                },
                main@,
                e2,
                e3,
                host::text_view(default),
            );
            lemma_quietly_trans(before, e2, e3);
        }
    }
    let default = default?;
    let remote = text::concat("origin/", default.as_str());
    let mut base = remote.clone();
    let first = tree_of(host, main, remote.as_str());
    let ghost e4 = host.events();
    proof {
        if H::obeys_model() {
            lemma_quietly_trans(before, e3, e4);
        }
    }
    let mut tree = first?;
    if tree.len() == 0 {
        base = default.clone();
        let second = tree_of(host, main, default.as_str());
        proof {
            if H::obeys_model() {
                lemma_quietly_trans(before, e4, host.events());
            }
        }
        tree = second?;
    }
    let ghost e5 = host.events();
    let refs = ["git", "for-each-ref", "--format=%(refname:short)\t%(upstream:track)", "refs/heads"];
    let listing = host.run(&refs, Some(main));
    proof {
        if H::obeys_model() {
            lemma_quietly_push(e5, host.events().last());
            lemma_quietly_trans(before, e5, host.events());
        }
    }
    let out = listing?;
    let gone = if out.succeeded() {
        out.stdout
    } else {
        String::new()
    };
    let mut removed = false;
    let mut i: usize = 0;
    while i < listed.len()
        invariant
            i <= listed.len(),
            before == old(host).events(),
            H::obeys_model() ==> crate::host::same_place(*old(host), *host),
            H::obeys_model() ==> quietly(before, host.events()),
        decreases listed.len() - i,
    {
        let w = &listed[i];
        let ghost e6 = host.events();
        let finished = done(host, w, gone.as_str(), base.as_str(), &tree);
        let ghost e7 = host.events();
        proof {
            if H::obeys_model() {
                lemma_quietly_trans(before, e6, e7);
            }
        }
        if finished? {
            let went = remove(host, sessions, main, w.path.as_str());
            proof {
                if H::obeys_model() {
                    lemma_quietly_trans(before, e7, host.events());
                }
            }
            if went? {
                removed = true;
            }
        }
        i += 1;
    }
    Ok(removed)
}

/// Take a repository by path and write it into the config. A path that is
/// not a repository is refused with a message rather than an error: the
/// picker is still open behind it and the developer can simply try again.
fn add_project<H: Host>(host: &mut H, config: &mut Config) -> (r: Result<(), Error>)
    ensures
        H::obeys_model() ==> crate::host::same_place(*old(host), *final(host)),
        H::obeys_model() ==> quietly(old(host).events(), final(host).events()),
{
    let ghost before = host.events();
    let typed = host.input("Path to the repository", "");
    let ghost e1 = host.events();
    proof {
        if H::obeys_model() {
            lemma_quietly_push(before, e1.last());
        }
    }
    let typed = typed?;
    let home = host.home()?;
    let project = config::expand(home.as_str(), typed.as_str());
    let marker = path::join_paths(project.as_str(), ".git");
    if !host.path_exists(marker.as_str()) {
        tell(host, project.as_str(), " is not a git repository", "", "");
        proof {
            if H::obeys_model() {
                lemma_quietly_push(e1, host.events().last());
                lemma_quietly_trans(before, e1, host.events());
            }
        }
        return Ok(());
    }
    let ghost h1 = *host;
    let ghost c1 = *config;
    let added = config::add_extra(host, config, project);
    proof {
        if H::obeys_model() {
            config::lemma_written_back_quietly(h1, e1, host.events(), *config, added);
            lemma_quietly_trans(before, e1, host.events());
        }
    }
    added
}

/// What [`ask`] asks: one line saying what the work is, then the name it
/// implies offered as an editable default; the name is what was typed at the
/// second prompt, sanitised, never the suggestion applied silently.
pub open spec fn asked_name(username: Seq<char>, before: Seq<Event>, after: Seq<Event>, r: Result<Seq<char>, Error>) -> bool {
    let n = before.len() as int;
    &&& after.len() > n
    &&& after.take(n) == before
    &&& after[n] matches Event::Typed(q, d, said) && q == "What are you working on?"@ && d == Seq::<char>::empty()
        && match said {
        Err(e) => after.len() == n + 1 && r == Err::<Seq<char>, Error>(e),
        Ok(s) => {
            &&& after.len() == n + 2
            &&& after[n + 1] matches Event::Typed(q2, d2, typed) && q2 == "Session name"@ && d2
                == naming::suggested(username, s@) && match typed {
                Err(e) => r == Err::<Seq<char>, Error>(e),
                Ok(t) => r == Ok::<Seq<char>, Error>(naming::sanitized(t@)),
            }
        },
    }
}

/// Name the work from one line of prompt input: a ticket and a description
/// in, the name they imply offered as an editable default, never applied
/// silently.
fn ask<H: Host>(host: &mut H, config: &Config) -> (r: Result<String, Error>)
    ensures
        H::obeys_model() ==> crate::host::kept(*old(host), *final(host)),
        H::obeys_model() ==> asked_name(config.username@, old(host).events(), final(host).events(), host::text_view(r)),
{
    proof {
        reveal_strlit("");
        assert(""@ =~= Seq::<char>::empty());
    }
    let ghost before = host.events();
    let said = host.input("What are you working on?", "");
    let ghost first = host.events();
    proof {
        if H::obeys_model() {
            assert(first.take(before.len() as int) == before);
        }
    }
    let said = said?;
    let suggested = naming::suggest(config.username.as_str(), said.as_str());
    let typed = host.input("Session name", suggested.as_str());
    proof {
        if H::obeys_model() {
            assert(host.events().take(first.len() as int) == first);
            assert(host.events().take(before.len() as int) == before);
            assert(host.events()[before.len() as int] == first[before.len() as int]);
        }
    }
    let typed = typed?;
    Ok(naming::sanitize(typed.as_str()))
}

/// What [`base_ref`] asks and gives: whether to fetch first, and only when
/// told to, the fetch, with a warning when it fails.
pub open spec fn based(default: Seq<char>, dir: Seq<char>, fetch: bool, before: Seq<Event>, after: Seq<Event>, r: Result<Seq<char>, Error>) -> bool {
    let n = before.len() as int;
    &&& after.len() > n
    &&& after.take(n) == before
    &&& after[n] matches Event::Confirmed(q, d, c) && q == "Fetch origin first?"@ && d == fetch && match c {
        Err(e) => after.len() == n + 1 && r == Err::<Seq<char>, Error>(e),
        Ok(false) => after.len() == n + 1 && r == Ok::<Seq<char>, Error>(default),
        Ok(true) => {
            &&& after.len() > n + 1
            &&& after[n + 1] == Event::Ran(seq!["git"@, "fetch"@, "origin"@], Some(dir), outcome(after[n + 1]))
            &&& match outcome(after[n + 1]) {
                Err(e) => after.len() == n + 2 && r == Err::<Seq<char>, Error>(e),
                Ok(o) => if o.success() {
                    after.len() == n + 2 && r == Ok::<Seq<char>, Error>("origin/"@ + default)
                } else {
                    &&& after.len() == n + 3
                    &&& after[n + 2] == Event::Said(
                        "fetch failed ("@ + text::trim(o.stderr@) + "), branching from local "@ + default,
                    )
                    &&& r == Ok::<Seq<char>, Error>(default)
                },
            }
        },
    }
}

/// The ref a new branch is cut from: `origin/<default>` when the offered
/// fetch is accepted and succeeds, the local default branch otherwise. The
/// fetch is never fatal: a remote that cannot be reached costs a warning and
/// the local ref.
fn base_ref<H: Host>(host: &mut H, config: &Config, dir: &str, default: &str) -> (r: Result<String, Error>)
    ensures
        H::obeys_model() ==> crate::host::kept(*old(host), *final(host)),
        H::obeys_model() ==> based(
            default@,
            dir@,
            config.fetch_before_branch,
            old(host).events(),
            final(host).events(),
            host::text_view(r),
        ),
        H::obeys_model() ==> quietly(old(host).events(), final(host).events()),
{
    let ghost before = host.events();
    let ghost n = before.len() as int;
    let answer = host.confirm("Fetch origin first?", config.fetch_before_branch);
    proof {
        if H::obeys_model() {
            assert(host.events().take(n) == before);
            lemma_quietly_push(before, host.events().last());
        }
    }
    let go = answer?;
    if !go {
        proof {
            if H::obeys_model() {
                assert(host.events().take(n) == before);
            }
        }
        return Ok(default.to_owned());
    }
    let ghost asked = host.events();
    let fetched = git::fetch(host, dir);
    proof {
        if H::obeys_model() {
            lemma_quietly_push(asked, host.events().last());
            lemma_quietly_trans(before, asked, host.events());
            assert(host.events().take(n + 1) == asked);
            assert(host.events().take(n) == before);
            assert(host.events()[n] == asked[n]);
        }
    }
    let out = fetched?;
    if out.succeeded() {
        Ok(text::concat("origin/", default))
    } else {
        let ghost ran = host.events();
        let why = text::string(&text::trimmed(&text::chars(out.stderr.as_str())));
        tell(host, "fetch failed (", why.as_str(), "), branching from local ", default);
        proof {
            if H::obeys_model() {
                lemma_quietly_push(ran, host.events().last());
                lemma_quietly_trans(before, ran, host.events());
                assert(host.events().take(n + 2) == ran);
                assert(host.events().take(n) == before);
                assert(host.events()[n] == asked[n]);
                assert(host.events()[n + 1] == ran[n + 1]);
            }
        }
        Ok(default.to_owned())
    }
}

/// What [`reuse`] does with the world as `h` has it: one listing of git's
/// worktrees from `main`; the directory `at` is taken when git lists it,
/// still standing, on `name`, and refused with a message saying so
/// otherwise; a listing git could not give ends it with that error.
pub open spec fn reused<H: Host>(
    h: H,
    main: Seq<char>,
    at: Seq<char>,
    name: Seq<char>,
    before: Seq<Event>,
    after: Seq<Event>,
    r: Result<Seq<char>, Error>,
) -> bool {
    &&& crate::host::one_run(before, after, group::list_command(), Some(main))
    &&& match outcome(after.last()) {
        Err(e) => r == Err::<Seq<char>, Error>(e),
        Ok(out) => {
            &&& r is Ok <==> group::standing(group::listing(text::lines(out.stdout@)), main, h).contains((at, name))
            &&& r matches Ok(d) ==> d == at
            &&& r matches Err(err) ==> err is Failed && err.text() == at + " already exists and is not a worktree on "@
                + name
        },
    }
}

proof fn lemma_reused_kept<H: Host>(
    a: H,
    b: H,
    main: Seq<char>,
    at: Seq<char>,
    name: Seq<char>,
    before: Seq<Event>,
    after: Seq<Event>,
    r: Result<Seq<char>, Error>,
)
    requires
        reused(b, main, at, name, before, after, r),
        forall|p: Seq<char>| #[trigger] b.present_at(p) == a.present_at(p),
    ensures
        reused(a, main, at, name, before, after, r),
{
    if outcome(after.last()) is Ok {
        group::lemma_standing_kept(
            group::listing(text::lines(outcome(after.last())->Ok_0.stdout@)),
            main,
            a,
            b,
        );
    }
}

/// A directory already sitting where the worktree would go: this
/// repository's worktree on this branch is reused, anything else stops the
/// work. Nothing is ever written into a directory the tool did not create.
fn reuse<H: Host>(host: &mut H, main: &str, at: &str, name: &str) -> (r: Result<String, Error>)
    ensures
        H::obeys_model() ==> reused(*old(host), main@, at@, name@, old(host).events(), final(host).events(), host::text_view(r)),
        H::obeys_model() ==> crate::host::kept(*old(host), *final(host)),
        H::obeys_model() ==> quietly(old(host).events(), final(host).events()),
        r matches Ok(d) ==> d@ == at@,
        H::obeys_model() ==> crate::host::one_run(
            old(host).events(),
            final(host).events(),
            group::list_command(),
            Some(main@),
        ),
        H::obeys_model() ==> match outcome(final(host).events().last()) {
            Err(e) => r == Err::<String, Error>(e),
            Ok(out) => {
                &&& r is Ok <==> group::standing(group::listing(text::lines(out.stdout@)), main@, *final(host)).contains(
                    (at@, name@),
                )
                &&& r matches Err(err) ==> err.text() == at@ + " already exists and is not a worktree on "@ + name@
                    && err is Failed
            },
        },
{
    let listed = group::worktrees(host, main);
    proof {
        if H::obeys_model() {
            lemma_one_run_quietly(old(host).events(), host.events(), group::list_command(), Some(main@));
        }
    }
    let ghost h1 = *host;
    let ghost e1 = host.events();
    let listed = listed?;
    let ghost shown = group::worktree_texts(listed@);
    let mut i: usize = 0;
    while i < listed.len()
        invariant
            i <= listed.len(),
            *host == h1,
            e1 == h1.events(),
            H::obeys_model() ==> crate::host::kept(*old(host), h1),
            shown == group::worktree_texts(listed@),
            H::obeys_model() ==> crate::host::one_run(old(host).events(), e1, group::list_command(), Some(main@)),
            H::obeys_model() ==> outcome(e1.last()) is Ok,
            H::obeys_model() ==> shown == group::standing(
                group::listing(text::lines(outcome(e1.last())->Ok_0.stdout@)),
                main@,
                h1,
            ),
            H::obeys_model() ==> quietly(old(host).events(), host.events()),
            forall|k: int| 0 <= k < i ==> #[trigger] shown[k] != (at@, name@),
        decreases listed.len() - i,
    {
        assert(shown[i as int] == (listed@[i as int].path@, listed@[i as int].branch@));
        if text::same(listed[i].path.as_str(), at) && text::same(listed[i].branch.as_str(), name) {
            assert(shown.contains((at@, name@))) by {
                assert(shown[i as int] == (at@, name@));
            }
            proof {
                if H::obeys_model() {
                    group::lemma_standing_kept(
                        group::listing(text::lines(outcome(e1.last())->Ok_0.stdout@)),
                        main@,
                        *old(host),
                        h1,
                    );
                }
            }
            return Ok(at.to_owned());
        }
        i += 1;
    }
    assert(!shown.contains((at@, name@))) by {
        if shown.contains((at@, name@)) {
            let k = choose|k: int| 0 <= k < shown.len() && shown[k] == (at@, name@);
            assert(shown[k] != (at@, name@));
        }
    }
    proof {
        if H::obeys_model() {
            group::lemma_standing_kept(
                group::listing(text::lines(outcome(e1.last())->Ok_0.stdout@)),
                main@,
                *old(host),
                h1,
            );
        }
    }
    let mut m = String::from_str(at);
    text::push_str(&mut m, " already exists and is not a worktree on ");
    text::push_str(&mut m, name);
    Err(Error::Failed(m))
}

/// The options [`branch_for`] offers: a new worktree, branching in place
/// unless the checkout is dirty, or neither.
pub open spec fn branch_options(worktree: Seq<char>, main: Seq<char>, here: Seq<char>, dirty: bool) -> Seq<Seq<char>> {
    seq!["New worktree at "@ + worktree] + (if dirty {
        Seq::empty()
    } else {
        seq!["Branch in place in "@ + main]
    }) + seq!["Neither, stay on "@ + here]
}

/// The command that cuts `name` from `base`: a new worktree at `worktree`,
/// or a branch in place.
pub open spec fn cut_command(new_worktree: bool, name: Seq<char>, worktree: Seq<char>, base: Seq<char>) -> Seq<Seq<char>> {
    if new_worktree {
        seq!["git"@, "worktree"@, "add"@, "--no-track"@, "-b"@, name, worktree, base]
    } else {
        seq!["git"@, "checkout"@, "--no-track"@, "-b"@, name, base]
    }
}

/// A result with its value dropped.
pub open spec fn unit_of(r: Result<Seq<char>, Error>) -> Result<(), Error> {
    match r {
        Ok(_) => Ok(()),
        Err(e) => Err(e),
    }
}

/// What follows the ref to cut from: the cut, at `after[p]`, and only when
/// git made it, the submodules and LFS files where the work now lives; the
/// result is that directory, or the first thing that failed.
pub open spec fn cut_from(
    new_worktree: bool,
    main: Seq<char>,
    name: Seq<char>,
    worktree: Seq<char>,
    base: Seq<char>,
    after: Seq<Event>,
    p: int,
    r: Result<Seq<char>, Error>,
) -> bool {
    let there = if new_worktree { worktree } else { main };
    let what = if new_worktree {
        "git would not add worktree "@ + worktree
    } else {
        "git would not create branch "@ + name
    };
    &&& 0 <= p < after.len()
    &&& after[p] == Event::Ran(cut_command(new_worktree, name, worktree, base), Some(main), outcome(after[p]))
    &&& match outcome(after[p]) {
        Err(e) => after.len() == p + 1 && r == Err::<Seq<char>, Error>(e),
        Ok(o) => if !o.success() {
            &&& after.len() == p + 1
            &&& r matches Err(Error::Failed(m)) && m@ == git::refused(what, o)
        } else {
            &&& git::arrival(there, after.take(p + 1), after, unit_of(r))
            &&& r matches Ok(d) ==> d == there
        },
    }
}

/// What [`branch_for`] does once an option other than the last is chosen,
/// with the world as `h` has it. The worktree option reuses the directory
/// when something is already there (one listing of git's worktrees, and
/// nothing cut or fetched), and otherwise gets the ref to cut from and adds
/// the worktree; branching in place gets the ref and checks the branch out.
pub open spec fn branch_cut<H: Host>(
    h: H,
    new_worktree: bool,
    main: Seq<char>,
    name: Seq<char>,
    worktree: Seq<char>,
    default: Seq<char>,
    fetch: bool,
    before: Seq<Event>,
    after: Seq<Event>,
    r: Result<Seq<char>, Error>,
) -> bool {
    let k = before.len() as int;
    if new_worktree && h.present_at(worktree) {
        reused(h, main, worktree, name, before, after, r)
    } else {
        exists|p: int, b: Result<Seq<char>, Error>|
            #[trigger] based(default, main, fetch, before, after.take(p), b) && k < p <= after.len() && match b {
                Err(e) => p == after.len() && r == Err::<Seq<char>, Error>(e),
                Ok(base) => cut_from(new_worktree, main, name, worktree, base, after, p, r),
            }
    }
}

/// What [`branch_for`] asks before it acts: whether the checkout is dirty, a
/// warning when it is, and the choice between the options; and where the
/// work lives after it: the new worktree for the first option, the checkout
/// for any other, nothing done at all for the last.
pub open spec fn branch_offered<H: Host>(
    h: H,
    main: Seq<char>,
    name: Seq<char>,
    here: Seq<char>,
    worktree: Seq<char>,
    default: Seq<char>,
    fetch: bool,
    before: Seq<Event>,
    after: Seq<Event>,
    r: Result<Seq<char>, Error>,
) -> bool {
    let n = before.len() as int;
    &&& after.len() > n
    &&& after.take(n) == before
    &&& after[n] == Event::Ran(git::dirty_command(), Some(main), outcome(after[n]))
    &&& match git::changes_result(outcome(after[n])) {
        Err(e) => after.len() == n + 1 && r == Err::<Seq<char>, Error>(e),
        Ok(dirty) => {
            let m = if dirty { n + 2 } else { n + 1 };
            &&& dirty ==> after[n + 1] == Event::Said(
                "uncommitted changes in "@ + main + ", so branching in place is not offered"@,
            )
            &&& after.len() > m
            &&& after[m] matches Event::Selected(q, opts, s) && q == "Create branch "@ + name + seq!['?']
                && opts == branch_options(worktree, main, here, dirty) && match s {
                Err(e) => after.len() == m + 1 && r == Err::<Seq<char>, Error>(e),
                Ok(c) => if c + 1 == opts.len() {
                    after.len() == m + 1 && r == Ok::<Seq<char>, Error>(main)
                } else {
                    branch_cut(h, c == 0, main, name, worktree, default, fetch, after.take(m + 1), after, r)
                },
            }
        },
    }
}

/// Offer the branch the session was just named for: a new worktree beside
/// the checkout, in place in it, or neither. Gives the directory the work
/// now lives in. The worktree leads because it alters no checkout; a dirty
/// tree withholds the in-place option rather than offering one that would be
/// refused.
fn branch_for<H: Host>(host: &mut H, config: &Config, main: &str, name: &str, here: &str, default: &str) -> (r: Result<String, Error>)
    ensures
        H::obeys_model() ==> crate::host::kept(*old(host), *final(host)),
        H::obeys_model() ==> branch_offered(
            *old(host),
            main@,
            name@,
            here@,
            naming::worktree_path(main@, config.username@, name@),
            default@,
            config.fetch_before_branch,
            old(host).events(),
            final(host).events(),
            host::text_view(r),
        ),
        H::obeys_model() ==> quietly(old(host).events(), final(host).events()),
{
    proof {
        reveal_strlit("");
    }
    let ghost before = host.events();
    let ghost n = before.len() as int;
    let worktree = naming::worktree_dir(main, config.username.as_str(), name);
    let checked = git::is_dirty(host, main);
    proof {
        if H::obeys_model() {
            assert(host.events().take(n) == before);
            lemma_one_run_quietly(before, host.events(), git::dirty_command(), Some(main@));
        }
    }
    let ghost e1 = host.events();
    let dirty = checked?;
    if dirty {
        tell(host, "uncommitted changes in ", main, ", so branching in place is not offered", "");
        assert("uncommitted changes in "@ + main@ + ", so branching in place is not offered"@ + ""@
            =~= "uncommitted changes in "@ + main@ + ", so branching in place is not offered"@);
    }
    let ghost m = if dirty { n + 2 } else { n + 1 };
    let ghost told = host.events();
    proof {
        if H::obeys_model() {
            assert(told.len() == m);
            assert(told.take(n) == before);
            if dirty {
                lemma_quietly_push(e1, told.last());
                lemma_quietly_trans(before, e1, told);
            }
        }
    }
    let mut options: Vec<String> = Vec::new();
    options.push(text::concat("New worktree at ", worktree.as_str()));
    if !dirty {
        options.push(text::concat("Branch in place in ", main));
    }
    options.push(text::concat("Neither, stay on ", here));
    assert(path::texts(options@) =~= branch_options(worktree@, main@, here@, dirty));
    let mut question = text::concat("Create branch ", name);
    text::push_char(&mut question, '?');
    let selected = host.select(question.as_str(), &options);
    let ghost asked = host.events();
    assert(question@ == "Create branch "@ + name@ + seq!['?']);
    proof {
        if H::obeys_model() {
            assert(asked.len() == m + 1);
            assert(asked[m] == Event::Selected(question@, path::texts(options@), selected));
            assert(asked.take(m) == told);
            assert(asked.take(n) == before);
            assert(asked[n] == told[n]);
            if dirty {
                assert(asked[n + 1] == told[n + 1]);
            }
            lemma_quietly_push(told, asked.last());
            lemma_quietly_trans(before, told, asked);
        }
    }
    let choice = selected?;
    if choice + 1 == options.len() {
        return Ok(main.to_owned());
    }
    let ghost hr = *host;
    if choice == 0 && host.path_exists(worktree.as_str()) {
        let reused = reuse(host, main, worktree.as_str(), name);
        proof {
            if H::obeys_model() {
                lemma_reused_kept(*old(host), hr, main@, worktree@, name@, asked, host.events(), host::text_view(reused));
                lemma_quietly_trans(before, asked, host.events());
                assert(host.events().take(m + 1) == asked);
                assert(host.events().take(n) == before);
                assert(host.events()[n] == asked[n]);
                assert(host.events()[m] == asked[m]);
                if dirty {
                    assert(host.events()[n + 1] == asked[n + 1]);
                }
            }
        }
        return reused;
    }
    let got_base = base_ref(host, config, main, default);
    let ghost after_base = host.events();
    proof {
        if H::obeys_model() {
            assert(extends(asked, after_base));
            lemma_quietly_trans(before, asked, after_base);
        }
    }
    let base = match got_base {
        Ok(b) => b,
        Err(e) => {
            proof {
                if H::obeys_model() {
                    assert(host.events().take(m + 1) == asked);
                    assert(host.events().take(n) == before);
                    assert(host.events()[n] == asked[n]);
                    assert(host.events()[m] == asked[m]);
                    if dirty {
                        assert(host.events()[n + 1] == asked[n + 1]);
                    }
                }
            }
            proof {
                if H::obeys_model() {
                    let later = host.events();
                    assert(later.take(later.len() as int) =~= later);
                    assert(based(default@, main@, config.fetch_before_branch, asked, later.take(later.len() as int), host::text_view(got_base)));
                    assert(branch_cut(*old(host), choice == 0, main@, name@, worktree@, default@, config.fetch_before_branch, asked, later, Err(e)));
                }
            }
            return Err(e);
        },
    };
    let cut = if choice == 0 {
        git::add_worktree(host, main, worktree.as_str(), name, base.as_str())
    } else {
        git::create_branch(host, main, name, base.as_str())
    };
    let ghost after_cut = host.events();
    proof {
        if H::obeys_model() {
            assert(after_cut.take(after_base.len() as int) == after_base);
            lemma_extends_trans(asked, after_base, after_cut);
            lemma_quietly_push(after_base, after_cut.last());
            assert(after_cut == after_base.push(after_cut.last()));
            lemma_quietly_trans(before, after_base, after_cut);
        }
    }
    let ghost mut arrived_result: Result<(), Error> = Ok(());
    let result = match cut {
        Ok(()) => {
            let there = if choice == 0 { worktree.as_str() } else { main };
            let arrived = git::arrive(host, there);
            proof {
                arrived_result = arrived;
                if H::obeys_model() {
                    lemma_arrival_quietly(there@, after_cut, host.events(), arrived);
                }
            }
            match arrived {
                Ok(()) => if choice == 0 { Ok(worktree) } else { Ok(main.to_owned()) },
                Err(e) => Err(e),
            }
        },
        Err(e) => {
            proof {
                if H::obeys_model() {
                    lemma_quietly_same(after_cut);
                }
            }
            Err(e)
        },
    };
    proof {
        if H::obeys_model() {
            lemma_quietly_trans(before, after_cut, host.events());
            assert(host.events().take(after_cut.len() as int) =~= after_cut);
            let later = host.events();
            let p = after_base.len() as int;
            assert(later.take(p) =~= after_base) by {
                assert(later.take(p) =~= after_cut.take(p));
            }
            assert(later[p] == after_cut[p]) by {
                assert(later.take(after_cut.len() as int)[p] == later[p]);
            }
            assert(later.take(p + 1) =~= after_cut);
            assert(based(default@, main@, config.fetch_before_branch, asked, later.take(p), Ok::<Seq<char>, Error>(base@)));
            assert(after_cut.last() == after_cut[p]);
            assert(after_cut[p] == Event::Ran(cut_command(choice == 0, name@, worktree@, base@), Some(main@), outcome(after_cut[p])));
            match outcome(after_cut[p]) {
                Err(e) => {
                    assert(cut == Err::<(), Error>(e));
                    assert(later == after_cut);
                    assert(later.len() == p + 1);
                    assert(host::text_view(result) == Err::<Seq<char>, Error>(e));
                    assert(cut_from(choice == 0, main@, name@, worktree@, base@, later, p, host::text_view(result)));
                },
                Ok(o) => {
                    if !o.success() {
                        assert(cut is Err);
                        assert(later == after_cut);
                        assert(later.len() == p + 1);
                        assert(host::text_view(result) == Err::<Seq<char>, Error>(cut->Err_0));
                        assert(cut_from(choice == 0, main@, name@, worktree@, base@, later, p, host::text_view(result)));
                    } else {
                        assert(cut is Ok);
                        let there = if choice == 0 { worktree@ } else { main@ };
                        assert(git::arrival(there, later.take(p + 1), later, arrived_result));
                        assert(host::text_view(result) == match arrived_result {
                            Ok(()) => Ok::<Seq<char>, Error>(there),
                            Err(e) => Err::<Seq<char>, Error>(e),
                        });
                        assert(cut_from(choice == 0, main@, name@, worktree@, base@, later, p, host::text_view(result)));
                    }
                },
            }
            assert(cut_from(choice == 0, main@, name@, worktree@, base@, later, p, host::text_view(result)));
            assert(branch_cut(*old(host), choice == 0, main@, name@, worktree@, default@, config.fetch_before_branch, asked, later, host::text_view(result)));
            lemma_extends_trans(asked, after_cut, host.events());
            assert(host.events().take(m + 1) == asked);
            assert(host.events().take(n) == before);
            assert(host.events()[n] == asked[n]);
            assert(host.events()[m] == asked[m]);
            if dirty {
                assert(host.events()[n + 1] == asked[n + 1]);
            }
        }
    }
    result
}

/// Whether any session sits exactly in `dir`.
fn running_in(sessions: &[Session], dir: &str) -> (r: bool)
    ensures
        r == exists|k: int| 0 <= k < sessions.len() && #[trigger] sessions@[k].path@ == dir@,
{
    let mut i: usize = 0;
    while i < sessions.len()
        invariant
            i <= sessions.len(),
            forall|k: int| 0 <= k < i ==> #[trigger] sessions@[k].path@ != dir@,
        decreases sessions.len() - i,
    {
        if text::same(sessions[i].path.as_str(), dir) {
            return true;
        }
        i += 1;
    }
    false
}

/// The default branch, read from the requests [`git::default_branch`] made
/// from position `k` on.
pub open spec fn default_read(configured: Option<Seq<char>>, events: Seq<Event>, k: int) -> Result<Seq<char>, Error> {
    match configured {
        Some(b) => Ok(b),
        None => match outcome(events[k]) {
            Err(e) => Err(e),
            Ok(h) => match git::remote_head(h) {
                Some(b) => Ok(b),
                None => match outcome(events[k + 1]) {
                    Err(e) => Err(e),
                    Ok(m) => Ok(git::default_from(None, Some(h), Some(m))),
                },
            },
        },
    }
}

proof fn lemma_default_read(
    configured: Option<Seq<char>>,
    path: Seq<char>,
    before: Seq<Event>,
    after: Seq<Event>,
    r: Result<Seq<char>, Error>,
    later: Seq<Event>,
)
    requires
        git::default_asked(configured, path, before, after, r),
        extends(after, later),
    ensures
        r == default_read(configured, later, before.len() as int),
        asks_nothing(before, after),
{
    let n = before.len() as int;
    if configured is None {
        assert(after.take(n + 1)[n] == after[n]);
        assert(later[n] == after[n]) by {
            assert(later.take(after.len() as int)[n] == later[n]);
        }
        if after.len() > n + 1 {
            assert(later[n + 1] == after[n + 1]) by {
                assert(later.take(after.len() as int)[n + 1] == later[n + 1]);
            }
            assert(after.last() == after[n + 1]);
        }
        assert forall|j: int| n <= j < after.len() implies !asks(#[trigger] after[j]) by {
            if j == n {
                assert(after.take(n + 1)[n] == after[n]);
            } else {
                assert(after.last() == after[j]);
            }
        }
        assert(after.take(n) =~= before) by {
            assert(after.take(n + 1).take(n) =~= after.take(n));
        }
    } else {
        lemma_asks_nothing_same(before);
    }
}

proof fn lemma_created_quiet(name: Seq<char>, dir: Seq<char>, before: Seq<Event>, after: Seq<Event>, r: Result<(), Error>)
    requires
        tmux::created(name, dir, before, after, r),
    ensures
        asks_nothing(before, after),
{
    let n = before.len() as int;
    assert(after.take(n) =~= before) by {
        assert(after.take(n + 1).take(n) =~= after.take(n));
    }
    assert forall|j: int| n <= j < after.len() implies !asks(#[trigger] after[j]) by {
        if j == n {
            assert(after.take(n + 1)[n] == after[n]);
        } else {
            assert(after.last() == after[j]);
        }
    }
}

proof fn lemma_recorded_quiet<H: Host>(host: H, project: Seq<char>, before: Seq<Event>, after: Seq<Event>, r: Result<(), Error>)
    requires
        state::recorded(host, project, before, after, r),
    ensures
        asks_nothing(before, after),
{
    if after == before {
        lemma_asks_nothing_same(before);
    } else {
        assert(after.take(before.len() as int) =~= before);
    }
}

/// Whether the checkout is on a branch of its own: one that is not the
/// default branch git answered with.
pub open spec fn on_own_branch(b: Seq<char>, default: Result<Seq<char>, Error>) -> bool {
    b.len() > 0 && match default {
        Ok(d) => d != b,
        Err(_) => false,
    }
}

/// Joining the session `name`.
pub open spec fn joins(e: Event, name: Seq<char>) -> bool {
    match e {
        Event::Handed(argv, _, _) => argv.len() == 4 && argv[3] == name,
        _ => false,
    }
}

/// Asking `q`, with yes as the answer Enter gives.
pub open spec fn confirms(e: Event, q: Seq<char>) -> bool {
    match e {
        Event::Confirmed(q2, d, _) => q2 == q && d,
        _ => false,
    }
}

/// Asking for a line of text at the prompt `q`.
pub open spec fn types(e: Event, q: Seq<char>) -> bool {
    match e {
        Event::Typed(q2, _, _) => q2 == q,
        _ => false,
    }
}

proof fn lemma_default_quietly(
    configured: Option<Seq<char>>,
    path: Seq<char>,
    before: Seq<Event>,
    after: Seq<Event>,
    r: Result<Seq<char>, Error>,
)
    requires
        git::default_asked(configured, path, before, after, r),
    ensures
        quietly(before, after),
{
    let n = before.len() as int;
    if configured is None {
        assert forall|j: int| n <= j < after.len() implies quiet(#[trigger] after[j]) by {
            if j == n {
                assert(after.take(n + 1)[n] == after[n]);
            } else {
                assert(after.last() == after[j]);
            }
        }
        assert(after.take(n) =~= before) by {
            assert(after.take(n + 1).take(n) =~= after.take(n));
        }
    } else {
        lemma_quietly_same(before);
    }
}

proof fn lemma_recorded_quietly<H: Host>(host: H, project: Seq<char>, before: Seq<Event>, after: Seq<Event>, r: Result<(), Error>)
    requires
        state::recorded(host, project, before, after, r),
    ensures
        quietly(before, after),
{
    if after == before {
        lemma_quietly_same(before);
    } else {
        lemma_quietly_push(before, after.last());
    }
}

proof fn lemma_arrival_quietly(dir: Seq<char>, before: Seq<Event>, after: Seq<Event>, r: Result<(), Error>)
    requires
        git::arrival(dir, before, after, r),
    ensures
        quietly(before, after),
{
    let n = before.len() as int;
    assert forall|j: int| n <= j < after.len() implies quiet(#[trigger] after[j]) by {
        if j == n {
        } else {
            let o = outcome(after[n])->Ok_0;
            let k = if o.success() { n + 1 } else { n + 2 };
            if j < k {
                assert(after[n + 1] is Said);
            } else if j == k {
                assert(after[k] is Ran);
            } else {
                assert(after[k + 1] is Said);
            }
        }
    }
}

proof fn lemma_created_quietly(name: Seq<char>, dir: Seq<char>, before: Seq<Event>, after: Seq<Event>, r: Result<(), Error>)
    requires
        tmux::created(name, dir, before, after, r),
    ensures
        quietly(before, after),
{
    let n = before.len() as int;
    assert(after.take(n) =~= before) by {
        assert(after.take(n + 1).take(n) =~= after.take(n));
    }
    assert forall|j: int| n <= j < after.len() implies quiet(#[trigger] after[j]) by {
        if j == n {
            assert(after.take(n + 1)[n] == after[n]);
        } else {
            assert(after.last() == after[j]);
        }
    }
}

proof fn lemma_asked_name_quietly(username: Seq<char>, before: Seq<Event>, after: Seq<Event>, r: Result<Seq<char>, Error>)
    requires
        asked_name(username, before, after, r),
    ensures
        quietly(before, after),
{
    let n = before.len() as int;
    assert forall|j: int| n <= j < after.len() implies quiet(#[trigger] after[j]) by {
        if j == n {
            assert(after[n] is Typed);
        } else {
            assert(after[n + 1] is Typed);
        }
    }
}

/// A request [`open`] makes while it settles on a name: git asked about the
/// directory, a yes or no, or a line of text.
pub open spec fn settling(e: Event, dir: Seq<char>) -> bool {
    match e {
        Event::Ran(_, cwd, _) => cwd == Some(dir),
        Event::Confirmed(..) => true,
        Event::Typed(..) => true,
        _ => false,
    }
}

/// The request `e` failed, and `r` is its error.
pub open spec fn failed_with(e: Event, r: Result<(), Error>) -> bool {
    match e {
        Event::Ran(_, _, Err(x)) => r == Err::<(), Error>(x),
        Event::Confirmed(_, _, Err(x)) => r == Err::<(), Error>(x),
        Event::Typed(_, _, Err(x)) => r == Err::<(), Error>(x),
        _ => false,
    }
}

/// How the session's name was settled by `after[..q]`: typed at the prompt,
/// or else taken from the branch checked out.
pub open spec fn settled(username: Seq<char>, b: Seq<char>, typed: bool, name: Seq<char>, q: int, after: Seq<Event>) -> bool {
    if typed {
        exists|s: int| 0 <= s < q && #[trigger] asked_name(username, after.take(s), after.take(q), Ok::<Seq<char>, Error>(name))
    } else {
        name == naming::named_from_branch(username, b)
    }
}

/// What [`open`] does once the session `name` has a directory, `target`:
/// the session is created there; only once it is there is the open counted
/// against `project`, and only once that is written back is the session
/// joined, as the very last request. Whatever fails first ends the run with
/// its error and nothing after it.
pub open spec fn made<H: Host>(
    h0: H,
    name: Seq<char>,
    target: Seq<char>,
    project: Seq<char>,
    before: Seq<Event>,
    after: Seq<Event>,
    r: Result<(), Error>,
) -> bool {
    exists|c: int, m: Result<(), Error>|
        before.len() < c <= after.len() && #[trigger] tmux::created(name, target, before, after.take(c), m) && match m {
            Err(e) => c == after.len() && r == Err::<(), Error>(e),
            Ok(_) => exists|d: int, h: H, w: Result<(), Error>|
                c <= d <= after.len() && crate::host::kept(h0, h) && #[trigger] state::recorded(
                    h,
                    project,
                    after.take(c),
                    after.take(d),
                    w,
                ) && match w {
                    Err(e) => d == after.len() && r == Err::<(), Error>(e),
                    Ok(_) => d + 1 == after.len() && after[d] == Event::Handed(
                        tmux::attach_command(h0.tmux_client(), name),
                        None,
                        r,
                    ),
                },
        }
}

/// What [`open`] does from `after[q]` on, the name settled: when the name
/// was typed, the directory is on a branch, and the name is not that branch,
/// the branch is offered and the session goes where the offer put the work;
/// otherwise it goes to `dir`.
pub open spec fn from_name<H: Host>(
    h0: H,
    username: Seq<char>,
    dir: Seq<char>,
    b: Seq<char>,
    default: Seq<char>,
    fetch: bool,
    typed: bool,
    name: Seq<char>,
    project: Seq<char>,
    q: int,
    after: Seq<Event>,
    r: Result<(), Error>,
) -> bool {
    if typed && b.len() > 0 && name != b {
        exists|p: int, t: Result<Seq<char>, Error>, h: H|
            q < p <= after.len() && crate::host::kept(h0, h) && #[trigger] branch_offered(
                h,
                dir,
                name,
                b,
                naming::worktree_path(dir, username, name),
                default,
                fetch,
                after.take(q),
                after.take(p),
                t,
            ) && match t {
                Err(e) => p == after.len() && r == Err::<(), Error>(e),
                Ok(target) => made::<H>(h0, name, target, project, after.take(p), after, r),
            }
    } else {
        made::<H>(h0, name, dir, project, after.take(q), after, r)
    }
}

/// Every request from `before` on is one [`open`] makes while it settles on
/// a name.
pub open spec fn all_settling(before: Seq<Event>, after: Seq<Event>, dir: Seq<char>) -> bool {
    &&& extends(before, after)
    &&& forall|j: int| before.len() <= j < after.len() ==> settling(#[trigger] after[j], dir)
}

proof fn lemma_settling_trans(a: Seq<Event>, b: Seq<Event>, c: Seq<Event>, dir: Seq<char>)
    requires
        all_settling(a, b, dir),
        all_settling(b, c, dir),
    ensures
        all_settling(a, c, dir),
{
    lemma_extends_trans(a, b, c);
    assert forall|j: int| a.len() <= j < c.len() implies settling(#[trigger] c[j], dir) by {
        if j < b.len() {
            lemma_extends_index(b, c, j);
        }
    }
}

proof fn lemma_settling_push(before: Seq<Event>, e: Event, dir: Seq<char>)
    requires
        settling(e, dir),
    ensures
        all_settling(before, before.push(e), dir),
{
    assert(before.push(e).take(before.len() as int) =~= before);
}

proof fn lemma_settling_same(before: Seq<Event>, dir: Seq<char>)
    ensures
        all_settling(before, before, dir),
{
    assert(before.take(before.len() as int) =~= before);
}

proof fn lemma_default_settling(
    configured: Option<Seq<char>>,
    dir: Seq<char>,
    before: Seq<Event>,
    after: Seq<Event>,
    r: Result<Seq<char>, Error>,
)
    requires
        git::default_asked(configured, dir, before, after, r),
    ensures
        all_settling(before, after, dir),
        r matches Err(e) ==> after.len() > before.len() && failed_with(after.last(), Err::<(), Error>(e)),
{
    let n = before.len() as int;
    if configured is None {
        assert forall|j: int| n <= j < after.len() implies settling(#[trigger] after[j], dir) by {
            if j == n {
                assert(after.take(n + 1)[n] == after[n]);
            } else {
                assert(after.last() == after[j]);
            }
        }
        assert(after.take(n) =~= before) by {
            assert(after.take(n + 1).take(n) =~= after.take(n));
        }
    } else {
        lemma_settling_same(before, dir);
    }
}

proof fn lemma_asked_name_settling(
    username: Seq<char>,
    dir: Seq<char>,
    before: Seq<Event>,
    after: Seq<Event>,
    r: Result<Seq<char>, Error>,
)
    requires
        asked_name(username, before, after, r),
    ensures
        all_settling(before, after, dir),
        r matches Err(e) ==> failed_with(after.last(), Err::<(), Error>(e)),
{
    let n = before.len() as int;
    assert forall|j: int| n <= j < after.len() implies settling(#[trigger] after[j], dir) by {
        if j == n {
            assert(after[n] is Typed);
        } else {
            assert(after[n + 1] is Typed);
        }
    }
}

/// The session is made, counted and joined, as far as each step went.
proof fn lemma_made<H: Host>(
    h0: H,
    name: Seq<char>,
    target: Seq<char>,
    project: Seq<char>,
    e5: Seq<Event>,
    e6: Seq<Event>,
    m: Result<(), Error>,
    h: H,
    e7: Seq<Event>,
    w: Result<(), Error>,
    t: bool,
    after: Seq<Event>,
    r: Result<(), Error>,
)
    requires
        tmux::created(name, target, e5, e6, m),
        extends(e5, e6),
        m is Err ==> after == e6 && r == m,
        m is Ok ==> state::recorded(h, project, e6, e7, w) && extends(e6, e7) && crate::host::kept(h0, h),
        m is Ok && w is Err ==> after == e7 && r == w,
        m is Ok && w is Ok ==> after == e7.push(Event::Handed(tmux::attach_command(t, name), None, r))
            && t == h0.tmux_client(),
    ensures
        made::<H>(h0, name, target, project, e5, after, r),
{
    let c = e6.len() as int;
    if m is Err {
        assert(after.take(c) =~= e6);
    } else {
        let d = e7.len() as int;
        assert(after.take(c) =~= e6) by {
            if w is Ok {
                assert(after.take(d) =~= e7);
                assert(e7.take(c) == e6);
            }
        }
        assert(after.take(d) =~= e7);
        assert(state::recorded(h, project, after.take(c), after.take(d), w));
        if w is Ok {
            assert(after[d] == Event::Handed(tmux::attach_command(t, name), None, r));
        }
    }
    assert(tmux::created(name, target, e5, after.take(c), m));
}

proof fn lemma_quietly_ends_calmly_trans(a: Seq<Event>, b: Seq<Event>, c: Seq<Event>)
    requires
        quietly(a, b),
        ends_calmly(b, c),
    ensures
        ends_calmly(a, c),
{
    lemma_extends_trans(a, b, c);
    assert forall|j: int| a.len() <= j < c.len() - 1 implies quiet(#[trigger] c[j]) by {
        if j < b.len() {
            lemma_extends_index(b, c, j);
        }
    }
    if c.len() > a.len() && c.len() == b.len() {
        assert(c =~= b);
        assert(quiet(b[b.len() - 1]));
    }
}

/// An open that settled on a name and went on from it.
#[verifier::spinoff_prover]
#[verifier::rlimit(40)]
proof fn lemma_opened<H: Host>(
    h0: H,
    username: Seq<char>,
    configured: Option<Seq<char>>,
    fetch: bool,
    sessions: Seq<Session>,
    project: Seq<char>,
    dir: Seq<char>,
    in_worktree: bool,
    before: Seq<Event>,
    after: Seq<Event>,
    r: Result<(), Error>,
    b: Seq<char>,
    q: int,
    name: Seq<char>,
    typed: bool,
)
    requires
        extends(before, after),
        after.len() > before.len(),
        after[before.len() as int] == Event::Ran(git::head_command(), Some(dir), outcome(after[before.len() as int])),
        git::branch_result(outcome(after[before.len() as int])) == Ok::<Seq<char>, Error>(b),
        r is Ok ==> after.last() is Handed,
        ({
            let n = before.len() as int;
            let running = exists|k: int| 0 <= k < sessions.len() && #[trigger] sessions[k].path@ == dir;
            let started = on_own_branch(b, default_read(configured, after, n + 1));
            let named = naming::named_from_branch(username, b);
            &&& (started && !running && !in_worktree) ==> asks_nothing(before, after) && (r is Ok ==> joins(
                after.last(),
                named,
            ))
            &&& (started && !running && in_worktree && r is Ok) ==> exists|j: int|
                n < j < after.len() && confirms(#[trigger] after[j], "Open "@ + named + seq!['?'])
            &&& (!(started && !running) && r is Ok) ==> exists|j: int|
                n < j < after.len() && types(#[trigger] after[j], "What are you working on?"@)
            &&& before.len() < q <= after.len()
            &&& settled(username, b, typed, name, q, after)
            &&& from_name::<H>(
                h0,
                username,
                dir,
                b,
                default_read(configured, after, n + 1)->Ok_0,
                fetch,
                typed,
                name,
                project,
                q,
                after,
                r,
            )
        }),
    ensures
        opened::<H>(h0, username, configured, fetch, sessions, project, dir, in_worktree, before, after, r),
{
    let n = before.len() as int;
    let d = default_read(configured, after, n + 1)->Ok_0;
    assert(settled(username, b, typed, name, q, after));
    assert(from_name::<H>(h0, username, dir, b, d, fetch, typed, name, project, q, after, r));
    assert(exists|q2: int, nm: Seq<char>, ty: bool|
        n < q2 <= after.len() && #[trigger] settled(username, b, ty, nm, q2, after)
            && from_name::<H>(h0, username, dir, b, d, fetch, ty, nm, project, q2, after, r));
    assert({
        ||| (r is Err && after.len() > n + 1 && failed_with(after.last(), r) && forall|j: int|
            n <= j < after.len() ==> settling(#[trigger] after[j], dir))
        ||| exists|q2: int, nm: Seq<char>, ty: bool|
            n < q2 <= after.len() && #[trigger] settled(username, b, ty, nm, q2, after) && from_name::<H>(
                h0,
                username,
                dir,
                b,
                default_read(configured, after, n + 1)->Ok_0,
                fetch,
                ty,
                nm,
                project,
                q2,
                after,
                r,
            )
    });
}

/// The name settled at `e4` stays settled whatever follows.
proof fn lemma_settled(
    username: Seq<char>,
    b: Seq<char>,
    typed: bool,
    name: Seq<char>,
    e3: Seq<Event>,
    e4: Seq<Event>,
    after: Seq<Event>,
)
    requires
        typed ==> asked_name(username, e3, e4, Ok::<Seq<char>, Error>(name)),
        !typed ==> name == naming::named_from_branch(username, b),
        extends(e4, after),
    ensures
        settled(username, b, typed, name, e4.len() as int, after),
{
    let q = e4.len() as int;
    assert(after.take(q) =~= e4);
    if typed {
        let s = e3.len() as int;
        assert(e4.take(s) == e3);
        assert(after.take(s) =~= e3);
        assert(asked_name(username, after.take(s), after.take(q), Ok::<Seq<char>, Error>(name)));
    }
}

proof fn lemma_made_kept<H: Host>(
    a: H,
    b: H,
    name: Seq<char>,
    target: Seq<char>,
    project: Seq<char>,
    before: Seq<Event>,
    after: Seq<Event>,
    r: Result<(), Error>,
)
    requires
        made::<H>(b, name, target, project, before, after, r),
        crate::host::kept(a, b),
    ensures
        made::<H>(a, name, target, project, before, after, r),
{
    let (c, m) = choose|c: int, m: Result<(), Error>|
        before.len() < c <= after.len() && #[trigger] tmux::created(name, target, before, after.take(c), m) && match m {
            Err(e) => c == after.len() && r == Err::<(), Error>(e),
            Ok(_) => exists|d: int, h: H, w: Result<(), Error>|
                c <= d <= after.len() && crate::host::kept(b, h) && #[trigger] state::recorded(
                    h,
                    project,
                    after.take(c),
                    after.take(d),
                    w,
                ) && match w {
                    Err(e) => d == after.len() && r == Err::<(), Error>(e),
                    Ok(_) => d + 1 == after.len() && after[d] == Event::Handed(
                        tmux::attach_command(b.tmux_client(), name),
                        None,
                        r,
                    ),
                },
        };
    if m is Ok {
        let (d, h, w) = choose|d: int, h: H, w: Result<(), Error>|
            c <= d <= after.len() && crate::host::kept(b, h) && #[trigger] state::recorded(
                h,
                project,
                after.take(c),
                after.take(d),
                w,
            ) && match w {
                Err(e) => d == after.len() && r == Err::<(), Error>(e),
                Ok(_) => d + 1 == after.len() && after[d] == Event::Handed(
                    tmux::attach_command(b.tmux_client(), name),
                    None,
                    r,
                ),
            };
        assert(crate::host::kept(a, h));
        assert(state::recorded(h, project, after.take(c), after.take(d), w));
    }
    assert(tmux::created(name, target, before, after.take(c), m));
}

/// Where the session went, once the name is settled at `e4`: to what the
/// offer gave, or to `dir` when nothing was offered.
proof fn lemma_from_name<H: Host>(
    h0: H,
    h: H,
    username: Seq<char>,
    dir: Seq<char>,
    b: Seq<char>,
    default: Seq<char>,
    fetch: bool,
    typed: bool,
    name: Seq<char>,
    project: Seq<char>,
    e4: Seq<Event>,
    e5: Seq<Event>,
    t: Result<Seq<char>, Error>,
    after: Seq<Event>,
    r: Result<(), Error>,
)
    requires
        typed && b.len() > 0 && name != b ==> branch_offered(
            h,
            dir,
            name,
            b,
            naming::worktree_path(dir, username, name),
            default,
            fetch,
            e4,
            e5,
            t,
        ) && crate::host::kept(h0, h),
        !(typed && b.len() > 0 && name != b) ==> e5 == e4 && t == Ok::<Seq<char>, Error>(dir),
        extends(e5, after),
        t matches Err(e) ==> after == e5 && r == Err::<(), Error>(e),
        t matches Ok(target) ==> made::<H>(h0, name, target, project, e5, after, r),
    ensures
        from_name::<H>(h0, username, dir, b, default, fetch, typed, name, project, e4.len() as int, after, r),
{
    let q = e4.len() as int;
    let p = e5.len() as int;
    assert(after.take(p) =~= e5);
    if typed && b.len() > 0 && name != b {
        assert(e5.take(q) == e4);
        assert(after.take(q) =~= e4);
        assert(branch_offered(
            h,
            dir,
            name,
            b,
            naming::worktree_path(dir, username, name),
            default,
            fetch,
            after.take(q),
            after.take(p),
            t,
        ));
    }
}

/// What [`open`] does, as far as its requests show it: git is asked which
/// branch the directory is on before anything else; a checkout on a branch
/// of its own, with no session in it, and not a worktree, is resumed under
/// its branch's name with nothing asked; a worktree on such a branch is asked
/// about; anything else is named at the prompt; and a run that goes through
/// ends by joining the session. A run either fails while it settles on the
/// name, with the error of the request that failed and nothing made, or
/// settles on it and goes on as [`from_name`] says.
pub open spec fn opened<H: Host>(
    h0: H,
    username: Seq<char>,
    configured: Option<Seq<char>>,
    fetch: bool,
    sessions: Seq<Session>,
    project: Seq<char>,
    dir: Seq<char>,
    in_worktree: bool,
    before: Seq<Event>,
    after: Seq<Event>,
    r: Result<(), Error>,
) -> bool {
    let n = before.len() as int;
    &&& extends(before, after)
    &&& after.len() > n
    &&& after[n] == Event::Ran(git::head_command(), Some(dir), outcome(after[n]))
    &&& (r is Ok ==> after.last() is Handed)
    &&& match git::branch_result(outcome(after[n])) {
        Err(e) => after.len() == n + 1 && r == Err::<(), Error>(e),
        Ok(b) => {
            let running = exists|k: int| 0 <= k < sessions.len() && #[trigger] sessions[k].path@ == dir;
            let started = on_own_branch(b, default_read(configured, after, n + 1));
            let named = naming::named_from_branch(username, b);
            &&& (started && !running && !in_worktree) ==> asks_nothing(before, after) && (r is Ok ==> joins(
                after.last(),
                named,
            ))
            &&& (started && !running && in_worktree && r is Ok) ==> exists|j: int|
                n < j < after.len() && confirms(#[trigger] after[j], "Open "@ + named + seq!['?'])
            &&& (!(started && !running) && r is Ok) ==> exists|j: int|
                n < j < after.len() && types(#[trigger] after[j], "What are you working on?"@)
            &&& {
                ||| (r is Err && after.len() > n + 1 && failed_with(after.last(), r) && forall|j: int|
                    n <= j < after.len() ==> settling(#[trigger] after[j], dir))
                ||| exists|q: int, name: Seq<char>, typed: bool|
                n < q <= after.len() && #[trigger] settled(username, b, typed, name, q, after) && from_name::<H>(
                    h0,
                    username,
                    dir,
                    b,
                    default_read(configured, after, n + 1)->Ok_0,
                    fetch,
                    typed,
                    name,
                    project,
                    q,
                    after,
                    r,
                )
            }
        },
    }
}

proof fn lemma_open_settled(
    configured: Option<Seq<char>>,
    dir: Seq<char>,
    before: Seq<Event>,
    e1: Seq<Event>,
    e2: Seq<Event>,
    dv: Result<Seq<char>, Error>,
    b: Seq<char>,
    later: Seq<Event>,
)
    requires
        crate::host::one_run(before, e1, git::head_command(), Some(dir)),
        b.len() > 0 ==> git::default_asked(configured, dir, e1, e2, dv),
        b.len() == 0 ==> e2 == e1,
        extends(e2, later),
    ensures
        extends(before, later),
        later.len() > before.len(),
        later[before.len() as int] == e1[before.len() as int],
        e1[before.len() as int] == Event::Ran(git::head_command(), Some(dir), outcome(e1[before.len() as int])),
        b.len() > 0 ==> dv == default_read(configured, later, before.len() as int + 1),
        asks_nothing(before, e2),
{
    let n = before.len() as int;
    assert(e1.take(n) =~= before);
    lemma_asks_nothing_push(before, e1[n]);
    assert(e1 == before.push(e1[n]));
    if b.len() > 0 {
        lemma_default_read(configured, dir, e1, e2, dv, later);
        lemma_asks_nothing_trans(before, e1, e2);
    } else {
        lemma_asks_nothing_same(e1);
    }
    lemma_extends_trans(e1, e2, later);
    lemma_extends_trans(before, e1, later);
    assert(later.take(e1.len() as int)[n] == later[n]);
}

/// Make the session `name` in `dir`, count the open against `project`, and
/// join the session: each step only once the one before it went through.
fn make<H: Host>(host: &mut H, name: &str, dir: &str, project: &str) -> (r: Result<(), Error>)
    ensures
        H::obeys_model() ==> made::<H>(*old(host), name@, dir@, project@, old(host).events(), final(host).events(), r),
        H::obeys_model() ==> asks_nothing(old(host).events(), final(host).events()),
        H::obeys_model() ==> ends_calmly(old(host).events(), final(host).events()),
        H::obeys_model() ==> (r is Ok ==> joins(final(host).events().last(), name@)),
{
    let ghost e5 = host.events();
    let made = tmux::create(host, name, dir);
    let ghost e6 = host.events();
    let ghost h6 = *host;
    proof {
        if H::obeys_model() {
            lemma_created_quiet(name@, dir@, e5, e6, made);
            lemma_created_quietly(name@, dir@, e5, e6, made);
            lemma_quietly_ends_calmly(e5, e6);
        }
    }
    if let Err(e) = made {
        proof {
            if H::obeys_model() {
                lemma_made::<H>(*old(host), name@, dir@, project@, e5, e6, made, h6, e6, made, h6.tmux_client(), e6, Err(e));
            }
        }
        return Err(e);
    }
    let counted = state::record(host, project);
    let ghost e7 = host.events();
    proof {
        if H::obeys_model() {
            lemma_recorded_quiet(h6, project@, e6, e7, counted);
            lemma_recorded_quietly(h6, project@, e6, e7, counted);
            lemma_quietly_trans(e5, e6, e7);
            lemma_quietly_ends_calmly(e5, e7);
            lemma_asks_nothing_trans(e5, e6, e7);
        }
    }
    if let Err(e) = counted {
        proof {
            if H::obeys_model() {
                lemma_made::<H>(*old(host), name@, dir@, project@, e5, e6, made, h6, e7, counted, h6.tmux_client(), e7, Err(e));
            }
        }
        return Err(e);
    }
    let ghost h7 = *host;
    let joined = tmux::attach(host, name);
    proof {
        if H::obeys_model() {
            let later = host.events();
            lemma_asks_nothing_push(e7, later.last());
            lemma_asks_nothing_trans(e5, e7, later);
            lemma_handed_ends_calmly(e5, e7, later.last());
            lemma_made::<H>(*old(host), name@, dir@, project@, e5, e6, made, h6, e7, counted, h7.tmux_client(), later, joined);
        }
    }
    joined
}

/// Start work: settle on a session name, offer to cut the branch it names —
/// in a new worktree or in place — create the session in the directory the
/// work now lives in, count the open against the project, and join it.
#[verifier::rlimit(50)]
fn open<H: Host>(host: &mut H, config: &Config, sessions: &[Session], project: &Project, worktree: Option<usize>) -> (r: Result<(), Error>)
    requires
        worktree matches Some(c) ==> c < project.worktrees.len(),
    ensures
        H::obeys_model() ==> opened::<H>(
            *old(host),
            config.username@,
            match config.default_branch {
                Some(b) => Some(b@),
                None => None,
            },
            config.fetch_before_branch,
            sessions@,
            project.path@,
            match worktree {
                Some(c) => project.worktrees@[c as int].path@,
                None => project.path@,
            },
            worktree is Some,
            old(host).events(),
            final(host).events(),
            r,
        ),
        H::obeys_model() ==> ends_calmly(old(host).events(), final(host).events()),
{
    let ghost configured = match &config.default_branch {
        Some(b) => Some(b@),
        None => None,
    };
    let ghost before = host.events();
    let ghost n = before.len() as int;
    let dir = project.dir(worktree);
    // Asked of git, never of the cache: a worktree moves between branches
    // without the picker being told.
    let asked_branch = git::branch(host, dir);
    let ghost e1 = host.events();
    let branch = match asked_branch {
        Ok(b) => b,
        Err(e) => {
            proof {
                if H::obeys_model() {
                    assert(e1.take(n) =~= before);
                    lemma_one_run_quietly(before, e1, git::head_command(), Some(dir@));
                    lemma_quietly_ends_calmly(before, e1);
                }
            }
            return Err(e);
        },
    };
    proof {
        if H::obeys_model() {
            lemma_one_run_quietly(before, e1, git::head_command(), Some(dir@));
            lemma_settling_push(before, e1.last(), dir@);
        }
    }
    let ghost b = branch@;
    let ghost mut dv: Result<Seq<char>, Error> = Ok(Seq::empty());
    let default = if text::chars(branch.as_str()).len() == 0 {
        String::new()
    } else {
        let d = git::default_branch(host, config, dir);
        proof {
            dv = host::text_view(d);
        }
        match d {
            Ok(x) => x,
            Err(e) => {
                proof {
                    if H::obeys_model() {
                        lemma_asks_nothing_same(host.events());
                        lemma_open_settled(configured, dir@, before, e1, host.events(), dv, b, host.events());
                        lemma_default_quietly(configured, dir@, e1, host.events(), dv);
                        lemma_quietly_trans(before, e1, host.events());
                        lemma_quietly_ends_calmly(before, host.events());
                        lemma_default_settling(configured, dir@, e1, host.events(), dv);
                        lemma_settling_trans(before, e1, host.events(), dir@);
                    }
                }
                return Err(e);
            },
        }
    };
    let ghost e2 = host.events();
    proof {
        if H::obeys_model() {
            lemma_asks_nothing_same(e2);
            lemma_open_settled(configured, dir@, before, e1, e2, dv, b, e2);
            if b.len() > 0 {
                lemma_default_quietly(configured, dir@, e1, e2, dv);
                lemma_quietly_trans(before, e1, e2);
                lemma_default_settling(configured, dir@, e1, e2, dv);
                lemma_settling_trans(before, e1, e2, dir@);
            } else {
                assert(e2 == e1);
            }
        }
    }
    // A checkout already on a feature branch is work in progress and its
    // branch names it, unless its directory already has a session (choosing
    // this row over that session's own asks for something new) or it is a
    // worktree, where the branch is offered rather than taken.
    let started = text::chars(branch.as_str()).len() > 0 && !text::same(branch.as_str(), default.as_str());
    let running = running_in(sessions, dir);
    let named = naming::from_branch(config.username.as_str(), branch.as_str());
    let ghost own = on_own_branch(b, dv);
    assert(H::obeys_model() ==> started == own);
    let mut keep = started && !running;
    let ghost resumed = keep && worktree.is_none();
    if keep && worktree.is_some() {
        let mut question = text::concat("Open ", named.as_str());
        text::push_char(&mut question, '?');
        assert(question@ =~= "Open "@ + named@ + seq!['?']);
        let answer = host.confirm(question.as_str(), true);
        proof {
            if H::obeys_model() {
                assert(host.events().take(e2.len() as int) =~= e2);
                assert(confirms(host.events()[e2.len() as int], "Open "@ + named@ + seq!['?']));
                lemma_open_settled(configured, dir@, before, e1, e2, dv, b, host.events());
                lemma_quietly_push(e2, host.events().last());
                lemma_quietly_trans(before, e2, host.events());
                lemma_quietly_ends_calmly(before, host.events());
                lemma_settling_push(e2, host.events().last(), dir@);
                assert(host.events() == e2.push(host.events().last()));
                lemma_settling_trans(before, e2, host.events(), dir@);
            }
        }
        keep = match answer {
            Ok(k) => k,
            Err(e) => {
                return Err(e);
            },
        };
    }
    let ghost e3 = host.events();
    proof {
        if H::obeys_model() {
            if resumed {
                assert(e3 == e2);
            }
            if e3 == e2 {
                lemma_quietly_same(e2);
                lemma_settling_same(e2, dir@);
            }
            assert(quietly(before, e3));
            lemma_settling_trans(before, e2, e3, dir@);
            assert(extends(e2, e3)) by {
                assert(e3.take(e2.len() as int) =~= e2);
            }
        }
    }
    let name = if keep {
        named
    } else {
        let asked = ask(host, config);
        proof {
            if H::obeys_model() {
                assert(host.events().take(e3.len() as int) == e3);
                lemma_extends_trans(e2, e3, host.events());
                lemma_open_settled(configured, dir@, before, e1, e2, dv, b, host.events());
                lemma_asked_name_quietly(config.username@, e3, host.events(), host::text_view(asked));
                lemma_quietly_trans(before, e3, host.events());
                lemma_quietly_ends_calmly(before, host.events());
                lemma_asked_name_settling(config.username@, dir@, e3, host.events(), host::text_view(asked));
                lemma_settling_trans(before, e3, host.events(), dir@);
            }
        }
        match asked {
            Ok(t) => t,
            Err(e) => {
                return Err(e);
            },
        }
    };
    let ghost e4 = host.events();
    let ghost h4 = *host;
    let ghost typed = !keep;
    proof {
        if H::obeys_model() {
            if keep {
                assert(e4 == e3);
                lemma_quietly_same(e3);
                lemma_quietly_trans(before, e3, e4);
            }
            assert(quietly(before, e4));
            assert(extends(e3, e4)) by {
                assert(e4.take(e3.len() as int) =~= e3);
            }
            lemma_extends_trans(e2, e3, e4);
            lemma_open_settled(configured, dir@, before, e1, e2, dv, b, e4);
            if !typed {
                assert(name@ == naming::named_from_branch(config.username@, b));
            }
        }
    }
    // Whenever the settled name is not the branch checked out here, the
    // branch it names is offered.
    let target = if !keep && text::chars(branch.as_str()).len() > 0 && !text::same(name.as_str(), branch.as_str()) {
        let offered = branch_for(host, config, dir, name.as_str(), branch.as_str(), default.as_str());
        proof {
            if H::obeys_model() {
                let after = host.events();
                assert(after.take(e4.len() as int) == e4);

                assert(host.events().take(e4.len() as int) == e4);
                lemma_extends_trans(e2, e4, host.events());
                lemma_open_settled(configured, dir@, before, e1, e2, dv, b, host.events());
                lemma_quietly_trans(before, e4, host.events());
                lemma_quietly_ends_calmly(before, host.events());
            }
        }
        match offered {
            Ok(t) => {
                proof {
                    if H::obeys_model() {
                        assert(branch_offered(
                            h4,
                            dir@,
                            name@,
                            b,
                            naming::worktree_path(dir@, config.username@, name@),
                            default@,
                            config.fetch_before_branch,
                            e4,
                            host.events(),
                            Ok::<Seq<char>, Error>(t@),
                        ));
                    }
                }
                t
            },
            Err(e) => {
                proof {
                    if H::obeys_model() {
                        let after = host.events();
                        assert(after.take(after.len() as int) =~= after);
                        lemma_settled(config.username@, b, typed, name@, e3, e4, after);
                        lemma_from_name::<H>(
                            *old(host),
                            h4,
                            config.username@,
                            dir@,
                            b,
                            default_read(configured, after, n + 1)->Ok_0,
                            config.fetch_before_branch,
                            typed,
                            name@,
                            project.path@,
                            e4,
                            after,
                            Err(e),
                            after,
                            Err(e),
                        );
                        assert(git::branch_result(outcome(after[n])) == Ok::<Seq<char>, Error>(b));
                        lemma_extends_trans(before, e4, after);
                        lemma_opened::<H>(*old(host), config.username@, configured, config.fetch_before_branch, sessions@,
                            project.path@, dir@, worktree is Some, before, after, Err(e), b, e4.len() as int, name@, typed);
                    }
                }
                return Err(e);
            },
        }
    } else {
        dir.to_owned()
    };
    let ghost e5 = host.events();
    let ghost offer = typed && b.len() > 0 && name@ != b;
    proof {
        if H::obeys_model() {
            assert(offer ==> branch_offered(
                h4,
                dir@,
                name@,
                b,
                naming::worktree_path(dir@, config.username@, name@),
                default@,
                config.fetch_before_branch,
                e4,
                e5,
                Ok::<Seq<char>, Error>(target@),
            ));
            assert(!offer ==> e5 == e4 && target@ == dir@);
            assert(extends(e4, e5)) by {
                assert(e5.take(e4.len() as int) =~= e4);
            }
            if e5 == e4 {
                lemma_quietly_same(e4);
                lemma_quietly_trans(before, e4, e5);
            }
            assert(quietly(before, e5));
            lemma_extends_trans(e2, e4, e5);
            if resumed {
                assert(e5 == e2);
            }
        }
    }
    let ghost h5 = *host;
    let joined = make(host, name.as_str(), target.as_str(), project.path.as_str());
    proof {
        if H::obeys_model() {
            let after = host.events();
            lemma_made_kept::<H>(*old(host), h5, name@, target@, project.path@, e5, after, joined);
            lemma_quietly_ends_calmly_trans(before, e5, after);
            lemma_extends_trans(e2, e5, after);
            lemma_open_settled(configured, dir@, before, e1, e2, dv, b, after);
            if resumed {
                lemma_asks_nothing_trans(before, e2, after);
                assert(name@ == naming::named_from_branch(config.username@, b));
            }
            if own && !running && worktree.is_some() {
                assert(after.take(e3.len() as int) == e3) by {
                    lemma_extends_trans(e3, e4, e5);
                    lemma_extends_trans(e3, e5, after);
                }
                assert(after[e2.len() as int] == e3[e2.len() as int]);
            }
            lemma_extends_trans(e4, e5, after);
            lemma_settled(config.username@, b, typed, name@, e3, e4, after);
            lemma_from_name::<H>(
                *old(host),
                h4,
                config.username@,
                dir@,
                b,
                default_read(configured, after, n + 1)->Ok_0,
                config.fetch_before_branch,
                typed,
                name@,
                project.path@,
                e4,
                e5,
                Ok::<Seq<char>, Error>(target@),
                after,
                joined,
            );
            lemma_extends_trans(before, e5, after);
            assert(git::branch_result(outcome(after[n])) == Ok::<Seq<char>, Error>(b));
            lemma_opened::<H>(*old(host), config.username@, configured, config.fetch_before_branch, sessions@, project.path@, dir@,
                worktree is Some, before, after, joined, b, e4.len() as int, name@, typed);
        }
    }
    joined
}

/// The previews beside the picker, one per row.
fn previews_of(rows: &Vec<(Row, String)>, sessions: &[Session], projects: &[Project], config: &Config, home: &str, editor: &str) -> (r: Vec<Vec<String>>)
    requires
        forall|k: int| 0 <= k < rows.len() ==> row_fits(#[trigger] rows@[k].0, sessions@, projects@),
    ensures
        r.len() == rows.len(),
        forall|k: int|
            0 <= k < rows.len() ==> path::texts(#[trigger] r@[k]@) == picker::previewed(
                rows@[k].0,
                sessions@,
                projects@,
                home@,
                offered(rows@[k].0, sessions@, projects@, *config, editor@).map_values(|p: (Action, Seq<char>)| p.1),
            ),
{
    let mut r: Vec<Vec<String>> = Vec::new();
    let mut k: usize = 0;
    while k < rows.len()
        invariant
            k <= rows.len(),
            r.len() == k,
            forall|j: int| 0 <= j < rows.len() ==> row_fits(#[trigger] rows@[j].0, sessions@, projects@),
            forall|j: int|
                0 <= j < k ==> path::texts(#[trigger] r@[j]@) == picker::previewed(
                    rows@[j].0,
                    sessions@,
                    projects@,
                    home@,
                    offered(rows@[j].0, sessions@, projects@, *config, editor@).map_values(|p: (Action, Seq<char>)| p.1),
                ),
        decreases rows.len() - k,
    {
        let row = rows[k].0;
        let (_, offered) = actions(row, sessions, projects, config, editor);
        let labels = labels_of(&offered);
        let panel = picker::preview(row, sessions, projects, home, &labels);
        r.push(panel);
        k += 1;
    }
    r
}

/// What an answer from the list leads to, for an answer other than →: ←
/// rescans, Enter takes the first thing the row offers (the separator offers
/// nothing), and Tab notes a session and does nothing on any other row.
pub open spec fn choice(pick: Pick, rows: Seq<(Row, String)>, sessions: Seq<Session>, projects: Seq<Project>, config: Config, editor: Seq<char>) -> Option<Action> {
    match pick {
        Pick::Left => Some(Action::Rescan),
        Pick::Enter(i) => {
            let o = offered(rows[i as int].0, sessions, projects, config, editor);
            if o.len() > 0 {
                Some(o[0].0)
            } else {
                None
            }
        },
        Pick::Tab(i) => match rows[i as int].0 {
            Row::Session(s) => Some(Action::Note(s)),
            _ => None,
        },
        Pick::Right(_) => None,
    }
}

/// The action an answer from the list asks for, when it is not →, which
/// opens the row's menu instead.
pub fn decide(pick: Pick, rows: &Vec<(Row, String)>, sessions: &[Session], projects: &[Project], config: &Config, editor: &str) -> (r: Option<Action>)
    requires
        !(pick is Right),
        pick matches Pick::Enter(i) ==> i < rows.len(),
        pick matches Pick::Tab(i) ==> i < rows.len(),
        forall|k: int| 0 <= k < rows.len() ==> row_fits(#[trigger] rows@[k].0, sessions@, projects@),
    ensures
        r == choice(pick, rows@, sessions@, projects@, *config, editor@),
        r matches Some(a) ==> action_fits(a, sessions@, projects@),
{
    match pick {
        Pick::Enter(i) => {
            let (_, offered) = actions(rows[i].0, sessions, projects, config, editor);
            if offered.len() > 0 {
                assert(labelled(offered@)[0] == (offered@[0].0, offered@[0].1@));
                Some(offered[0].0)
            } else {
                None
            }
        },
        Pick::Tab(i) => match rows[i].0 {
            Row::Session(s) => Some(Action::Note(s)),
            _ => None,
        },
        _ => Some(Action::Rescan),
    }
}

/// The rows [`picker::rows`] lists for these sessions and projects, at
/// this width.
pub open spec fn rows_for(
    rows: Seq<(Row, String)>,
    sessions: Seq<Session>,
    projects: Seq<Project>,
    home: Seq<char>,
    username: Seq<char>,
    width: usize,
) -> bool {
    &&& rows.len() == picker::kinds(sessions, projects).len()
    &&& forall|i: int|
        0 <= i < rows.len() ==> (#[trigger] rows[i]).0 == picker::kinds(sessions, projects)[i] && rows[i].1@
            == picker::label(picker::kinds(sessions, projects)[i], sessions, projects, home, username, picker::budget_of(width))
}

/// `e` opens the list's picker, with the list's keys under it.
pub open spec fn on_list(e: Event) -> bool {
    e matches Event::Picked(_, _, _, keys, _) && keys == KEYS@
}

/// The picker `e` shows `rows`: titled with how many sessions run and how
/// many projects are listed, one option per row, its label.
pub open spec fn shows(e: Event, rows: Seq<(Row, String)>) -> bool {
    match e {
        Event::Picked(t, opts, _, _, _) => {
            &&& t == picker::title_text(picker::counted(rows, true), picker::counted(rows, false))
            &&& opts.len() == rows.len()
            &&& forall|i: int| 0 <= i < rows.len() ==> opts[i] == (#[trigger] rows[i]).1@
        },
        _ => false,
    }
}

/// The session whose row Enter was pressed on, when it was.
pub open spec fn entered_session(e: Event, rows: Seq<(Row, String)>) -> Option<usize> {
    match e {
        Event::Picked(_, _, _, _, Ok(Pick::Enter(i))) => if i < rows.len() {
            match rows[i as int].0 {
                Row::Session(s) => Some(s),
                _ => None,
            }
        } else {
            None
        },
        _ => None,
    }
}

/// A request that, if it opens the list, shows the rows listed for some
/// sessions and projects, and was not answered with Enter on a session.
pub open spec fn list_kept(e: Event) -> bool {
    on_list(e) ==> exists|rows: Seq<(Row, String)>, ss: Seq<Session>, ps: Seq<Project>, home: Seq<char>, un: Seq<char>, w: usize|
        #[trigger] rows_for(rows, ss, ps, home, un, w) && shows(e, rows) && entered_session(e, rows) is None
}

/// What became of the list opened at `after[j]` over `rows`, listed for
/// the sessions `ss`: Enter on a session's row is followed by joining that
/// session, the very last request, whose result is the run's.
pub open spec fn list_answered(
    after: Seq<Event>,
    j: int,
    rows: Seq<(Row, String)>,
    ss: Seq<Session>,
    r: Result<(), Error>,
    inside: bool,
) -> bool {
    match entered_session(after[j], rows) {
        None => true,
        Some(s) => {
            &&& j + 2 == after.len()
            &&& s < ss.len()
            &&& after[j + 1] == Event::Handed(tmux::attach_command(inside, ss[s as int].name@), None, r)
        },
    }
}

/// `after` is `before` with more requests after it, none handing the
/// terminal over, none a picker left without an answer, and every list it
/// opened showing the rows listed for the sessions and projects of its time,
/// none of them left by Enter on a session.
pub open spec fn calm(before: Seq<Event>, after: Seq<Event>) -> bool {
    &&& extends(before, after)
    &&& forall|j: int|
        before.len() <= j < after.len() ==> !(#[trigger] after[j] is Handed) && !pick_failed(after[j]) && list_kept(
            after[j],
        )
}

/// `r` is the error a picker left without an answer gave.
pub open spec fn failed_by(r: Result<(), Error>, e: Event) -> bool {
    match r {
        Err(err) => cancelled(e, err),
        Ok(_) => false,
    }
}

/// What every run keeps to: the terminal is handed over at most once, as the
/// very last request; a picker left without an answer — Esc, or a failure —
/// is the very last request too, so that nothing is run, written or handed
/// over after it, and its error is the run's; and every time the list is
/// opened it shows the rows listed for the sessions and projects of its
/// time, and Enter on a session's row is followed by joining that session
/// and nothing else.
pub open spec fn ran(before: Seq<Event>, after: Seq<Event>, r: Result<(), Error>, inside: bool) -> bool {
    &&& extends(before, after)
    &&& forall|j: int| before.len() <= j < after.len() - 1 ==> !(#[trigger] after[j] is Handed)
    &&& forall|j: int|
        before.len() <= j < after.len() && pick_failed(#[trigger] after[j]) ==> j == after.len() - 1 && failed_by(
            r,
            after[j],
        )
    &&& forall|j: int|
        before.len() <= j < after.len() && on_list(#[trigger] after[j]) ==> exists|
            rows: Seq<(Row, String)>,
            ss: Seq<Session>,
            ps: Seq<Project>,
            home: Seq<char>,
            un: Seq<char>,
            w: usize,
        | #[trigger] rows_for(rows, ss, ps, home, un, w) && shows(after[j], rows) && list_answered(after, j, rows, ss, r, inside)
}

proof fn lemma_quietly_calm(before: Seq<Event>, after: Seq<Event>)
    requires
        quietly(before, after),
    ensures
        calm(before, after),
{
    assert forall|j: int| before.len() <= j < after.len() implies !(#[trigger] after[j] is Handed) && !pick_failed(
        after[j],
    ) && list_kept(after[j]) by {
        assert(quiet(after[j]));
    }
}

proof fn lemma_calm_trans(a: Seq<Event>, b: Seq<Event>, c: Seq<Event>)
    requires
        calm(a, b),
        calm(b, c),
    ensures
        forall|j: int| 0 <= j < b.len() ==> #[trigger] c[j] == b[j],
        calm(a, c),
{
    assert forall|j: int| 0 <= j < b.len() implies #[trigger] c[j] == b[j] by {
        assert(c.take(b.len() as int)[j] == c[j]);
    }
    lemma_extends_trans(a, b, c);
    assert forall|j: int| a.len() <= j < c.len() implies !(#[trigger] c[j] is Handed) && !pick_failed(c[j])
        && list_kept(c[j]) by {
        if j < b.len() {
            host::lemma_extends_index(b, c, j);
        }
    }
}

proof fn lemma_calm_step(a: Seq<Event>, b: Seq<Event>, c: Seq<Event>)
    requires
        calm(a, b),
        quietly(b, c),
    ensures
        forall|j: int| 0 <= j < b.len() ==> #[trigger] c[j] == b[j],
        calm(a, c),
{
    assert forall|j: int| 0 <= j < b.len() implies #[trigger] c[j] == b[j] by {
        assert(c.take(b.len() as int)[j] == c[j]);
    }
    lemma_quietly_calm(b, c);
    lemma_calm_trans(a, b, c);
}

/// A list kept calmly stays answered whatever the run's result.
proof fn lemma_kept_answered(after: Seq<Event>, j: int, r: Result<(), Error>, inside: bool)
    requires
        0 <= j < after.len(),
        list_kept(after[j]),
        on_list(after[j]),
    ensures
        exists|rows: Seq<(Row, String)>, ss: Seq<Session>, ps: Seq<Project>, home: Seq<char>, un: Seq<char>, w: usize|
            #[trigger] rows_for(rows, ss, ps, home, un, w) && shows(after[j], rows) && list_answered(after, j, rows, ss, r, inside),
{
    let (rows, ss, ps, home, un, w) = choose|
        rows: Seq<(Row, String)>,
        ss: Seq<Session>,
        ps: Seq<Project>,
        home: Seq<char>,
        un: Seq<char>,
        w: usize,
    | #[trigger] rows_for(rows, ss, ps, home, un, w) && shows(after[j], rows) && entered_session(after[j], rows) is None;
    assert(rows_for(rows, ss, ps, home, un, w) && shows(after[j], rows) && list_answered(after, j, rows, ss, r, inside));
}

proof fn lemma_calm_then_ends(before: Seq<Event>, mid: Seq<Event>, after: Seq<Event>, r: Result<(), Error>, inside: bool)
    requires
        calm(before, mid),
        ends_calmly(mid, after),
    ensures
        forall|j: int| 0 <= j < mid.len() ==> #[trigger] after[j] == mid[j],
        ran(before, after, r, inside),
{
    assert forall|j: int| 0 <= j < mid.len() implies #[trigger] after[j] == mid[j] by {
        assert(after.take(mid.len() as int)[j] == after[j]);
    }
    lemma_extends_trans(before, mid, after);
    assert forall|j: int| before.len() <= j < after.len() - 1 implies !(#[trigger] after[j] is Handed) by {
        if j < mid.len() {
            host::lemma_extends_index(mid, after, j);
        } else {
            assert(quiet(after[j]));
        }
    }
    assert forall|j: int| before.len() <= j < after.len() && pick_failed(#[trigger] after[j]) implies j == after.len()
        - 1 && failed_by(r, after[j]) by {
        if j < mid.len() {
            host::lemma_extends_index(mid, after, j);
        } else if j < after.len() - 1 {
            assert(quiet(after[j]));
        } else {
            assert(!(after.last() is Picked));
        }
    }
    assert forall|j: int| before.len() <= j < after.len() && on_list(#[trigger] after[j]) implies exists|
        rows: Seq<(Row, String)>,
        ss: Seq<Session>,
        ps: Seq<Project>,
        home: Seq<char>,
        un: Seq<char>,
        w: usize,
    | #[trigger] rows_for(rows, ss, ps, home, un, w) && shows(after[j], rows) && list_answered(after, j, rows, ss, r, inside) by {
        if j < mid.len() {
            host::lemma_extends_index(mid, after, j);
            assert(list_kept(mid[j]));
            lemma_kept_answered(after, j, r, inside);
        } else if j < after.len() - 1 {
            assert(quiet(after[j]));
        } else {
            assert(!(after.last() is Picked));
        }
    }
}

proof fn lemma_calm_then_cancel(before: Seq<Event>, mid: Seq<Event>, e: Event, err: Error, inside: bool)
    requires
        calm(before, mid),
        cancelled(e, err),
        list_kept(e),
    ensures
        ran(before, mid.push(e), Err(err), inside),
{
    let after = mid.push(e);
    assert(after.take(mid.len() as int) =~= mid);
    lemma_extends_trans(before, mid, after);
    assert forall|j: int| before.len() <= j < after.len() - 1 implies !(#[trigger] after[j] is Handed) by {
        assert(after[j] == mid[j]);
    }
    assert forall|j: int| before.len() <= j < after.len() && pick_failed(#[trigger] after[j]) implies j == after.len()
        - 1 && failed_by(Err(err), after[j]) by {
        if j < mid.len() {
            assert(after[j] == mid[j]);
        }
    }
    assert forall|j: int| before.len() <= j < after.len() && on_list(#[trigger] after[j]) implies exists|
        rows: Seq<(Row, String)>,
        ss: Seq<Session>,
        ps: Seq<Project>,
        home: Seq<char>,
        un: Seq<char>,
        w: usize,
    | #[trigger] rows_for(rows, ss, ps, home, un, w) && shows(after[j], rows) && list_answered(after, j, rows, ss, Err(err), inside) by {
        if j < mid.len() {
            assert(after[j] == mid[j]);
        }
        lemma_kept_answered(after, j, Err(err), inside);
    }
}

/// Enter on a session's row of the list, and that session joined.
proof fn lemma_calm_then_join(
    before: Seq<Event>,
    mid: Seq<Event>,
    e: Event,
    rows: Seq<(Row, String)>,
    ss: Seq<Session>,
    ps: Seq<Project>,
    home: Seq<char>,
    un: Seq<char>,
    w: usize,
    s: usize,
    t: bool,
    r: Result<(), Error>,
)
    requires
        calm(before, mid),
        on_list(e),
        rows_for(rows, ss, ps, home, un, w),
        shows(e, rows),
        entered_session(e, rows) == Some(s),
        s < ss.len(),
    ensures
        ran(before, mid.push(e).push(Event::Handed(tmux::attach_command(t, ss[s as int].name@), None, r)), r, t),
{
    let h = Event::Handed(tmux::attach_command(t, ss[s as int].name@), None, r);
    let after = mid.push(e).push(h);
    let m = mid.len() as int;
    assert(after.take(m) =~= mid);
    lemma_extends_trans(before, mid, after);
    assert forall|j: int| before.len() <= j < after.len() - 1 implies !(#[trigger] after[j] is Handed) by {
        if j < m {
            assert(after[j] == mid[j]);
        }
    }
    assert forall|j: int| before.len() <= j < after.len() && pick_failed(#[trigger] after[j]) implies j == after.len()
        - 1 && failed_by(r, after[j]) by {
        if j < m {
            assert(after[j] == mid[j]);
        }
    }
    assert forall|j: int| before.len() <= j < after.len() && on_list(#[trigger] after[j]) implies exists|
        rows2: Seq<(Row, String)>,
        ss2: Seq<Session>,
        ps2: Seq<Project>,
        home2: Seq<char>,
        un2: Seq<char>,
        w2: usize,
    | #[trigger] rows_for(rows2, ss2, ps2, home2, un2, w2) && shows(after[j], rows2) && list_answered(after, j, rows2, ss2, r, t) by {
        if j < m {
            assert(after[j] == mid[j]);
            lemma_kept_answered(after, j, r, t);
        } else {
            assert(j == m);
            assert(after[j + 1] == h);
            assert(list_answered(after, j, rows, ss, r, t));
            assert(rows_for(rows, ss, ps, home, un, w));
        }
    }
}

proof fn lemma_calm_push(before: Seq<Event>, e: Event)
    requires
        !(e is Handed),
        !pick_failed(e),
        list_kept(e),
    ensures
        calm(before, before.push(e)),
{
    assert(before.push(e).take(before.len() as int) =~= before);
}

/// The menu's keys are not the list's.
proof fn lemma_menu_off_list(e: Event)
    requires
        e matches Event::Picked(_, _, _, keys, _) && keys == MENU_KEYS@,
    ensures
        !on_list(e),
{
    reveal_strlit("↑↓ move · type to filter · enter select · ← refresh · → more · esc cancel");
    reveal_strlit("↑↓ move · enter select · ← back · esc cancel");
    assert(KEYS@.len() != MENU_KEYS@.len());
}

/// How [`run`] gets to its list, with the world as `h0` has it: the config
/// loaded, or asked for and written on a first run; the projects read from
/// the cache, or scanned and written there; tmux asked for its sessions;
/// the history and the home directory read. Whichever of these fails first
/// ends the run with its error and nothing after it; when none fails, the
/// run goes on to the list.
pub open spec fn started<H: Host>(h0: H, before: Seq<Event>, after: Seq<Event>, r: Result<(), Error>) -> bool {
    exists|e1: Seq<Event>, rc: Result<Config, Error>|
        #[trigger] config::loaded(h0, before, e1, rc) && extends(e1, after) && match rc {
            Err(e) => after == e1 && r == Err::<(), Error>(e),
            Ok(c) => exists|h1: H, e2: Seq<Event>, rf: Result<Vec<Project>, Error>|
                #[trigger] scan::cache_loaded(h1, c, e1, e2, rf) && extends(e2, after) && crate::host::same_place(h0, h1)
                    && (forall|p: Seq<char>|
                    config::config_file(h0.home_dir_of()) != Ok::<Seq<char>, Error>(p) ==> #[trigger] h1.stored(p)
                        == h0.stored(p)) && match rf {
                    Err(e) => after == e2 && r == Err::<(), Error>(e),
                    Ok(_) => exists|h2: H, e3: Seq<Event>, rl: Result<Seq<tmux::Shown>, Error>, now: u64|
                        #![trigger tmux::listed(e2, e3, h0.tmux_client(), now, rl), crate::host::same_place(h1, h2)]
                        tmux::listed(e2, e3, h0.tmux_client(), now, rl) && extends(e3, after)
                            && crate::host::same_place(h1, h2) && (forall|p: Seq<char>|
                            scan::cache_file(h1.home_dir_of()) != Ok::<Seq<char>, Error>(p) ==> #[trigger] h2.stored(p)
                                == h1.stored(p)) && match rl {
                            Err(e) => after == e3 && r == Err::<(), Error>(e),
                            Ok(_) => match state::stored_history(h2) {
                                Err(e) => after == e3 && r == Err::<(), Error>(e),
                                Ok(_) => match h0.home_dir_of() {
                                    Err(e) => after == e3 && r == Err::<(), Error>(e),
                                    Ok(_) => after.len() > e3.len(),
                                },
                            },
                        },
                },
        }
}

/// A quiet start and then a run: one run.
proof fn lemma_calm_then_ran(before: Seq<Event>, mid: Seq<Event>, after: Seq<Event>, r: Result<(), Error>, inside: bool)
    requires
        calm(before, mid),
        ran(mid, after, r, inside),
    ensures
        ran(before, after, r, inside),
{
    lemma_extends_trans(before, mid, after);
    assert forall|j: int| 0 <= j < mid.len() implies #[trigger] after[j] == mid[j] by {
        assert(after.take(mid.len() as int)[j] == after[j]);
    }
    assert forall|j: int| before.len() <= j < after.len() - 1 implies !(#[trigger] after[j] is Handed) by {
        if j < mid.len() {
            assert(after[j] == mid[j]);
        }
    }
    assert forall|j: int| before.len() <= j < after.len() && pick_failed(#[trigger] after[j]) implies j == after.len()
        - 1 && failed_by(r, after[j]) by {
        if j < mid.len() {
            assert(after[j] == mid[j]);
        }
    }
    assert forall|j: int| before.len() <= j < after.len() && on_list(#[trigger] after[j]) implies exists|
        rows: Seq<(Row, String)>,
        ss: Seq<Session>,
        ps: Seq<Project>,
        home: Seq<char>,
        un: Seq<char>,
        w: usize,
    | #[trigger] rows_for(rows, ss, ps, home, un, w) && shows(after[j], rows) && list_answered(after, j, rows, ss, r, inside) by {
        if j < mid.len() {
            assert(after[j] == mid[j]);
            assert(list_kept(mid[j]));
            lemma_kept_answered(after, j, r, inside);
        }
    }
}

/// The picker loop, over the config, the projects found, the sessions tmux
/// listed, the history and the home directory: open the list and act on the
/// answer until something leaves it. It always opens the list at least once.
#[verifier::rlimit(100)]
fn serve<H: Host>(
    host: &mut H,
    config: Config,
    found: Vec<Project>,
    sessions: Vec<Session>,
    opens: Vec<state::Open>,
    home: String,
) -> (r: Result<(), Error>)
    ensures
        H::obeys_model() ==> (r is Ok ==> final(host).events().len() > 0 && final(host).events().last() is Handed),
        H::obeys_model() ==> ran(old(host).events(), final(host).events(), r, old(host).tmux_client()),
        H::obeys_model() ==> final(host).events().len() > old(host).events().len(),
{
    let ghost before = host.events();
    let ghost n = before.len() as int;
    let ghost inside = host.tmux_client();
    proof {
        lemma_quietly_same(before);
        lemma_quietly_calm(before, before);
    }
    let mut config = config;
    let mut found = found;
    let mut sessions = sessions;
    let mut rounds: u64 = ROUNDS;
    while rounds > 0
        invariant
            before == old(host).events(),
            n == before.len(),
            inside == old(host).tmux_client(),
            H::obeys_model() ==> host.tmux_client() == inside,
            H::obeys_model() ==> calm(before, host.events()),
            rounds == ROUNDS ==> host.events() == before,
            H::obeys_model() ==> (rounds < ROUNDS ==> host.events().len() > n),
        decreases rounds,
    {
        rounds -= 1;
        let now = host.now();
        let projects = state::rank(found.clone(), &opens, now);
        let (width, _) = host.terminal();
        let (left, _) = select::split(width);
        let editor = host.editor();
        let rows = picker::rows(&sessions, &projects, home.as_str(), config.username.as_str(), left);
        proof {
            assert(projects@.len() == projects.len());
            assert(sessions@.len() == sessions.len());
            assert forall|k: int| 0 <= k < rows.len() implies row_fits(#[trigger] rows@[k].0, sessions@, projects@) by {
                lemma_kinds_fit(sessions@, projects@, k);
            }
        }
        let mut labels: Vec<String> = Vec::new();
        let mut k: usize = 0;
        while k < rows.len()
            invariant
                k <= rows.len(),
                labels.len() == k,
                forall|j: int| 0 <= j < k ==> (#[trigger] labels@[j])@ == rows@[j].1@,
            decreases rows.len() - k,
        {
            labels.push(rows[k].1.clone());
            k += 1;
        }
        let previews = previews_of(&rows, &sessions, &projects, &config, home.as_str(), editor.as_str());
        let title = picker::title(&rows);
        let ghost p0 = host.events();
        let picked = host.pick(title.as_str(), &labels, &previews, KEYS);
        let ghost p1 = host.events();
        let pick = match picked {
            Ok(p) => {
                proof {
                    if H::obeys_model() {
                        assert(p1 == p0.push(p1.last()));
                        assert(rows_for(rows@, sessions@, projects@, home@, config.username@, left));
                        assert(shows(p1.last(), rows@));
                        if entered_session(p1.last(), rows@) is None {
                            lemma_calm_push(p0, p1.last());
                            lemma_calm_trans(before, p0, p1);
                        }
                    }
                }
                p
            },
            Err(e) => {
                proof {
                    if H::obeys_model() {
                        assert(p1 == p0.push(p1.last()));
                        assert(rows_for(rows@, sessions@, projects@, home@, config.username@, left));
                        assert(shows(p1.last(), rows@));
                        lemma_calm_then_cancel(before, p0, p1.last(), e, inside);
                        assert(p1.len() > n);
                    }
                }
                return Err(e);
            },
        };
        let chosen = match pick {
            Pick::Right(i) => {
                let (menu, offered) = actions(rows[i].0, &sessions, &projects, &config, editor.as_str());
                let went = more(host, menu.as_str(), &offered);
                proof {
                    if H::obeys_model() {
                        if offered.len() >= 2 {
                            assert(host.events() == p1.push(host.events().last()));
                            lemma_menu_off_list(host.events().last());
                            if went is Err {
                                lemma_calm_then_cancel(before, p1, host.events().last(), went->Err_0, inside);
                            } else {
                                lemma_calm_push(p1, host.events().last());
                                lemma_calm_trans(before, p1, host.events());
                            }
                        }
                    }
                }
                went?
            },
            _ => decide(pick, &rows, &sessions, &projects, &config, editor.as_str()),
        };
        // The separator, ← out of a menu, or Tab off a session: the list
        // comes back as it was.
        let action = match chosen {
            Some(a) => a,
            None => continue,
        };
        let ghost a0 = host.events();
        let ghost ha = *host;
        match action {
            Action::Join(i) => {
                let joined = tmux::attach(host, sessions[i].name.as_str());
                proof {
                    if H::obeys_model() {
                        if entered_session(p1.last(), rows@) is Some {
                            assert(a0 == p1);
                            lemma_calm_then_join(
                                before,
                                p0,
                                p1.last(),
                                rows@,
                                sessions@,
                                projects@,
                                home@,
                                config.username@,
                                left,
                                i,
                                ha.tmux_client(),
                                joined,
                            );
                            assert(host.events() == p0.push(p1.last()).push(
                                Event::Handed(tmux::attach_command(ha.tmux_client(), sessions@[i as int].name@), None, joined),
                            ));
                        } else {
                            lemma_quietly_same(a0);
                            lemma_handed_ends_calmly(a0, a0, host.events().last());
                            lemma_calm_then_ends(before, a0, host.events(), joined, inside);
                        }
                    }
                }
                return joined;
            },
            Action::Kill(i) => {
                let name = sessions[i].name.clone();
                let mut question = text::concat("Kill ", name.as_str());
                text::push_char(&mut question, '?');
                let answer = host.confirm(question.as_str(), false);
                let ghost k1 = host.events();
                proof {
                    if H::obeys_model() {
                        lemma_quietly_push(a0, k1.last());
                        lemma_calm_step(before, a0, k1);
                    }
                }
                if answer? {
                    let killed = tmux::kill(host, name.as_str());
                    let ghost k2 = host.events();
                    proof {
                        if H::obeys_model() {
                            lemma_one_run_quietly(k1, k2, tmux::kill_command(name@), None);
                            lemma_calm_step(before, k1, k2);
                        }
                    }
                    killed?;
                    let listed = tmux::list(host);
                    proof {
                        if H::obeys_model() {
                            lemma_calm_step(before, k2, host.events());
                        }
                    }
                    sessions = listed?;
                }
            },
            Action::Rename(i) => {
                let name = sessions[i].name.clone();
                let typed = host.input("Session name", name.as_str());
                let ghost k1 = host.events();
                proof {
                    if H::obeys_model() {
                        lemma_quietly_push(a0, k1.last());
                        lemma_calm_step(before, a0, k1);
                    }
                }
                let typed = typed?;
                let trimmed = text::string(&text::trimmed(&text::chars(typed.as_str())));
                let to = naming::sanitize(trimmed.as_str());
                if text::chars(to.as_str()).len() > 0 && !text::same(to.as_str(), name.as_str()) {
                    // A taken name is a slip, not a fault: the picker is
                    // still there to try again from.
                    let renamed = tmux::rename(host, name.as_str(), to.as_str());
                    let ghost k2 = host.events();
                    proof {
                        if H::obeys_model() {
                            lemma_one_run_quietly(k1, k2, tmux::rename_command(name@, to@), None);
                            lemma_calm_step(before, k1, k2);
                        }
                    }
                    if let Err(refused) = renamed {
                        host.say(refused.message().as_str());
                        proof {
                            if H::obeys_model() {
                                lemma_quietly_push(k2, host.events().last());
                                lemma_calm_step(before, k2, host.events());
                            }
                        }
                    }
                    let ghost k3 = host.events();
                    let listed = tmux::list(host);
                    proof {
                        if H::obeys_model() {
                            lemma_calm_step(before, k3, host.events());
                        }
                    }
                    sessions = listed?;
                }
            },
            Action::Note(i) => {
                let name = sessions[i].name.clone();
                let question = text::concat("Note for ", name.as_str());
                let typed = host.input(question.as_str(), sessions[i].note.as_str());
                let ghost k1 = host.events();
                proof {
                    if H::obeys_model() {
                        lemma_quietly_push(a0, k1.last());
                        lemma_calm_step(before, a0, k1);
                    }
                }
                let typed = typed?;
                // One line, since it comes back as one field of one line.
                let note = text::squeezed(typed.as_str());
                let noted = tmux::set_note(host, name.as_str(), note.as_str());
                let ghost k2 = host.events();
                proof {
                    if H::obeys_model() {
                        lemma_one_run_quietly(k1, k2, tmux::note_command(name@, note@), None);
                        lemma_calm_step(before, k1, k2);
                    }
                }
                noted?;
                let listed = tmux::list(host);
                proof {
                    if H::obeys_model() {
                        lemma_calm_step(before, k2, host.events());
                    }
                }
                sessions = listed?;
            },
            Action::Start(i, child) => {
                let started = open(host, &config, &sessions, &projects[i], child);
                proof {
                    if H::obeys_model() {
                        lemma_calm_then_ends(before, a0, host.events(), started, inside);
                    }
                }
                return started;
            },
            Action::Edit(i, child) => {
                let edited = edit(host, &projects[i], child);
                proof {
                    if H::obeys_model() {
                        lemma_calm_then_ends(before, a0, host.events(), edited, inside);
                    }
                }
                return edited;
            },
            Action::CleanUp(i) => {
                let cleaned = clean_up(host, &config, &sessions, projects[i].path.as_str());
                let ghost k1 = host.events();
                proof {
                    if H::obeys_model() {
                        lemma_calm_step(before, a0, k1);
                    }
                }
                if cleaned? {
                    let again = scan::rescan(host, &config);
                    proof {
                        if H::obeys_model() {
                            lemma_calm_step(before, k1, host.events());
                        }
                    }
                    found = again?;
                }
            },
            Action::Forget(i) => {
                let ghost c0 = config;
                let forgot = config::remove_extra(host, &mut config, projects[i].path.as_str());
                let ghost k1 = host.events();
                proof {
                    if H::obeys_model() {
                        config::lemma_written_back_quietly(ha, a0, k1, config, forgot);
                        lemma_calm_step(before, a0, k1);
                    }
                }
                forgot?;
                let again = scan::rescan(host, &config);
                proof {
                    if H::obeys_model() {
                        lemma_calm_step(before, k1, host.events());
                    }
                }
                found = again?;
            },
            Action::Remove(i, child) => {
                let went = remove(host, &sessions, projects[i].path.as_str(), projects[i].worktrees[child].path.as_str());
                let ghost k1 = host.events();
                proof {
                    if H::obeys_model() {
                        lemma_calm_step(before, a0, k1);
                    }
                }
                if went? {
                    let again = scan::rescan(host, &config);
                    proof {
                        if H::obeys_model() {
                            lemma_calm_step(before, k1, host.events());
                        }
                    }
                    found = again?;
                }
            },
            Action::Rescan => {
                let again = scan::rescan(host, &config);
                proof {
                    if H::obeys_model() {
                        lemma_calm_step(before, a0, host.events());
                    }
                }
                found = again?;
            },
            Action::Add => {
                let added = add_project(host, &mut config);
                let ghost k1 = host.events();
                proof {
                    if H::obeys_model() {
                        lemma_calm_step(before, a0, k1);
                    }
                }
                added?;
                let again = scan::rescan(host, &config);
                proof {
                    if H::obeys_model() {
                        lemma_calm_step(before, k1, host.events());
                    }
                }
                found = again?;
            },
        }
    }
    Err(Error::Failed(String::from_str("the picker was reopened too many times")))
}

/// The single entry point: settle the config, open one picker over the live
/// sessions and the ranked projects, and act on the choice. Joining a
/// session and starting or editing work leave the picker; every other action
/// changes the list and reopens the picker over what it changed. A run that
/// ends well ends by handing the terminal over.
pub fn run<H: Host>(host: &mut H) -> (r: Result<(), Error>)
    ensures
        H::obeys_model() ==> (r is Ok ==> final(host).events().len() > 0 && final(host).events().last() is Handed),
        H::obeys_model() ==> ran(old(host).events(), final(host).events(), r, old(host).tmux_client()),
        H::obeys_model() ==> started(*old(host), old(host).events(), final(host).events(), r),
{
    let ghost before = host.events();
    proof {
        lemma_quietly_same(before);
        lemma_quietly_calm(before, before);
    }
    let ghost h0 = *host;
    let loaded = config::load_or_init(host);
    let ghost e1 = host.events();
    let ghost h1 = *host;
    proof {
        if H::obeys_model() {
            config::lemma_loaded_quietly(h0, before, e1, loaded);
            lemma_quietly_calm(before, e1);
            assert(e1.take(e1.len() as int) =~= e1);
        }
    }
    let mut config = match loaded {
        Ok(c) => c,
        Err(e) => {
            proof {
                if H::obeys_model() {
                    assert(config::loaded(h0, before, e1, Err::<Config, Error>(e)));
                    assert(started(h0, before, e1, Err::<(), Error>(e)));
                }
            }
            return Err(e);
        },
    };
    let scanned = scan::load_or_scan(host, &config);
    let ghost e2 = host.events();
    let ghost h2 = *host;
    proof {
        if H::obeys_model() {
            lemma_calm_step(before, e1, e2);
            assert(e2.take(e2.len() as int) =~= e2);
        }
    }
    let mut found = match scanned {
        Ok(f) => f,
        Err(e) => {
            proof {
                if H::obeys_model() {
                    lemma_extends_trans(e1, e2, e2);
                    assert(scan::cache_loaded(h1, config, e1, e2, Err::<Vec<Project>, Error>(e)));
                    assert(config::loaded(h0, before, e1, Ok::<Config, Error>(config)));
                    assert(started(h0, before, e2, Err::<(), Error>(e)));
                }
            }
            return Err(e);
        },
    };
    // Read again only after a session is killed, renamed or noted.
    let listed = tmux::list(host);
    let ghost e3 = host.events();
    let ghost rl = tmux::sessions_view(listed);
    let ghost now = choose|now: u64| tmux::listed(e2, e3, h2.tmux_client(), now, rl);
    proof {
        if H::obeys_model() {
            lemma_calm_step(before, e2, e3);
            assert(e3.take(e3.len() as int) =~= e3);
            assert(tmux::listed(e2, e3, h0.tmux_client(), now, rl));
        }
    }
    let ghost h3 = *host;
    let mut sessions = match listed {
        Ok(v) => v,
        Err(e) => {
            proof {
                if H::obeys_model() {
                    lemma_extends_trans(e1, e2, e3);
                    assert(scan::cache_loaded(h1, config, e1, e2, Ok::<Vec<Project>, Error>(found)));
                    assert(config::loaded(h0, before, e1, Ok::<Config, Error>(config)));
                    assert(started(h0, before, e3, Err::<(), Error>(e)));
                }
            }
            return Err(e);
        },
    };
    // Read once: nothing the picker does touches the frecency records.
    let read = state::load(host);
    proof {
        if H::obeys_model() {
            assert(state::stored_history(h3) == state::stored_history(h2));
        }
    }
    let opens = match read {
        Ok(o) => o,
        Err(e) => {
            proof {
                if H::obeys_model() {
                    lemma_extends_trans(e1, e2, e3);
                    assert(scan::cache_loaded(h1, config, e1, e2, Ok::<Vec<Project>, Error>(found)));
                    assert(config::loaded(h0, before, e1, Ok::<Config, Error>(config)));
                    assert(started(h0, before, e3, Err::<(), Error>(e)));
                }
            }
            return Err(e);
        },
    };
    let home = match host.home() {
        Ok(h) => h,
        Err(e) => {
            proof {
                if H::obeys_model() {
                    lemma_extends_trans(e1, e2, e3);
                    assert(scan::cache_loaded(h1, config, e1, e2, Ok::<Vec<Project>, Error>(found)));
                    assert(config::loaded(h0, before, e1, Ok::<Config, Error>(config)));
                    assert(started(h0, before, e3, Err::<(), Error>(e)));
                }
            }
            return Err(e);
        },
    };
    let ghost c = config;
    let ghost fd = found;
    let served = serve(host, config, found, sessions, opens, home);
    proof {
        if H::obeys_model() {
            let after = host.events();
            lemma_calm_then_ran(before, e3, after, served, h0.tmux_client());
            lemma_extends_trans(e1, e2, e3);
            assert(after.take(after.len() as int) =~= after);
            lemma_extends_trans(e2, e3, after);
            lemma_extends_trans(e1, e2, after);
            assert(scan::cache_loaded(h1, c, e1, e2, Ok::<Vec<Project>, Error>(fd)));
            assert(config::loaded(h0, before, e1, Ok::<Config, Error>(c)));
            assert(started(h0, before, after, served));
        }
    }
    served
}

proof fn lemma_project_kinds_fit(ss: Seq<Session>, ps: Seq<Project>, n: int, k: int)
    requires
        0 <= n <= ps.len(),
        ps.len() <= usize::MAX,
        0 <= k < picker::project_kinds(ss, ps, n).len(),
    ensures
        row_fits(picker::project_kinds(ss, ps, n)[k], ss, ps),
    decreases n,
{
    if n > 0 {
        let p = picker::project_kinds(ss, ps, n - 1).push(Row::Project((n - 1) as usize));
        let q = picker::worktree_kinds(ss, ps, n - 1, ps[n - 1].worktrees.len() as int);
        if k < p.len() - 1 {
            lemma_project_kinds_fit(ss, ps, n - 1, k);
            assert(picker::project_kinds(ss, ps, n)[k] == picker::project_kinds(ss, ps, n - 1)[k]);
        } else if k == p.len() - 1 {
            assert(picker::project_kinds(ss, ps, n)[k] == Row::Project((n - 1) as usize));
        } else {
            picker::lemma_worktree_kinds(ss, ps, n - 1, ps[n - 1].worktrees.len() as int);
            assert(picker::project_kinds(ss, ps, n)[k] == q[k - p.len()]);
        }
    }
}

proof fn lemma_kinds_fit(ss: Seq<Session>, ps: Seq<Project>, k: int)
    requires
        0 <= k < picker::kinds(ss, ps).len(),
        ps.len() <= usize::MAX,
        ss.len() <= usize::MAX,
    ensures
        row_fits(picker::kinds(ss, ps)[k], ss, ps),
{
    let below = picker::project_kinds(ss, ps, ps.len() as int);
    let n = ss.len() as int;
    let ks = picker::kinds(ss, ps);
    if n > 0 {
        if n < k && k < ks.len() - 1 {
            lemma_project_kinds_fit(ss, ps, ps.len() as int, k - n - 1);
            assert(ks[k] == below[k - n - 1]);
        }
    } else if k < ks.len() - 1 {
        lemma_project_kinds_fit(ss, ps, ps.len() as int, k);
        assert(ks[k] == below[k]);
    }
}

} // verus!
