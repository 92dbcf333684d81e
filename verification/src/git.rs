//! Reading and changing git state. Everything here is local except [`fetch`],
//! the one network call allowed before a branch is cut, and the submodule
//! and LFS updates after it; none of them is ever fatal.

use vstd::prelude::*;
use crate::config::Config;
use crate::host::{one_run, outcome, text_view, Error, Event, Host, Output};
use crate::path::{self, last_slash};
use crate::text::{self, lines, split, strs, trim};

verus! {

/// The branch `git rev-parse --abbrev-ref HEAD` reported: empty when it
/// failed or answered `HEAD`, which is how git says the HEAD is detached.
pub open spec fn reported_branch(out: Output) -> Seq<char> {
    if out.success() && out.trimmed_out() != "HEAD"@ {
        out.trimmed_out()
    } else {
        Seq::empty()
    }
}

pub fn branch_from(out: &Output) -> (r: String)
    ensures
        r@ == reported_branch(*out),
{
    let t = out.trimmed();
    if out.succeeded() && !text::same(t.as_str(), "HEAD") {
        t
    } else {
        String::new()
    }
}

pub open spec fn head_command() -> Seq<Seq<char>> {
    seq!["git"@, "rev-parse"@, "--abbrev-ref"@, "HEAD"@]
}

/// What a run of [`head_command`] gave, read as a branch.
pub open spec fn branch_result(res: Result<Output, Error>) -> Result<Seq<char>, Error> {
    match res {
        Ok(o) => Ok(reported_branch(o)),
        Err(e) => Err(e),
    }
}

/// The branch checked out in `path`, empty when it is not a repository or its
/// HEAD is detached.
pub fn branch<H: Host>(host: &mut H, path: &str) -> (r: Result<String, Error>)
    ensures
        H::obeys_model() ==> crate::host::kept(*old(host), *final(host)),
        H::obeys_model() ==> (one_run(old(host).events(), final(host).events(), head_command(), Some(path@))),
        H::obeys_model() ==> (text_view(r) == branch_result(outcome(final(host).events().last()))),
{
    let argv = ["git", "rev-parse", "--abbrev-ref", "HEAD"];
    assert(strs(argv@) =~= head_command());
    let out = host.run(&argv, Some(path))?;
    Ok(branch_from(&out))
}

/// What `origin/HEAD` points at, without the remote's name: `origin/main` is
/// `main`.
pub open spec fn remote_head(out: Output) -> Option<Seq<char>> {
    if out.success() {
        match last_slash(out.trimmed_out()) {
            Some(i) => Some(out.trimmed_out().skip(i + 1)),
            None => None,
        }
    } else {
        None
    }
}

pub fn remote_head_from(out: &Output) -> (r: Option<String>)
    ensures
        match r {
            Some(b) => remote_head(*out) == Some(b@),
            None => remote_head(*out) is None,
        },
{
    if !out.succeeded() {
        return None;
    }
    let trimmed = out.trimmed();
    let t = text::chars(trimmed.as_str());
    assert(t@ == out.trimmed_out());
    let mut i = t.len();
    assert(t@.take(i as int) == t@);
    while i > 0
        invariant
            i <= t.len(),
            t@ == out.trimmed_out(),
            out.success(),
            last_slash(t@) == last_slash(t@.take(i as int)),
        decreases i,
    {
        assert(t@.take(i as int).drop_last() == t@.take(i - 1));
        if t[i - 1] == '/' {
            assert(t@.take(i as int).last() == '/');
            assert(last_slash(t@) == Some(i - 1));
            let b = text::slice(&t, i, t.len());
            assert(b@ == t@.skip(i as int));
            let r = text::string(&b);
            assert(remote_head(*out) == Some(t@.skip(i as int)));
            return Some(r);
        }
        i -= 1;
    }
    None
}

/// The branch new work is cut from: the configured override, else what
/// `origin/HEAD` points at, else `main` when it exists, else `master`.
pub open spec fn default_from(configured: Option<Seq<char>>, head: Option<Output>, main: Option<Output>) -> Seq<char> {
    match configured {
        Some(b) => b,
        None => match head {
            Some(h) if remote_head(h) is Some => remote_head(h)->Some_0,
            _ => match main {
                Some(m) if m.success() => "main"@,
                _ => "master"@,
            },
        },
    }
}

pub open spec fn origin_head_command() -> Seq<Seq<char>> {
    seq!["git"@, "symbolic-ref"@, "--short"@, "refs/remotes/origin/HEAD"@]
}

pub open spec fn main_command() -> Seq<Seq<char>> {
    seq!["git"@, "rev-parse"@, "--verify"@, "--quiet"@, "refs/heads/main"@]
}

/// What [`default_branch`] asks and answers: the configured override asks
/// nothing; otherwise `origin/HEAD` is asked, and only when it names no
/// branch, whether `main` exists.
pub open spec fn default_asked(configured: Option<Seq<char>>, path: Seq<char>, before: Seq<Event>, after: Seq<Event>, r: Result<Seq<char>, Error>) -> bool {
    let n = before.len() as int;
    match configured {
        Some(b) => after == before && r == Ok::<Seq<char>, Error>(b),
        None => {
            &&& after.len() > n
            &&& one_run(before, after.take(n + 1), origin_head_command(), Some(path))
            &&& match outcome(after[n]) {
                Err(e) => after.len() == n + 1 && r == Err::<Seq<char>, Error>(e),
                Ok(h) => match remote_head(h) {
                    Some(b) => after.len() == n + 1 && r == Ok::<Seq<char>, Error>(b),
                    None => {
                        &&& one_run(after.take(n + 1), after, main_command(), Some(path))
                        &&& match outcome(after.last()) {
                            Err(e) => r == Err::<Seq<char>, Error>(e),
                            Ok(m) => r == Ok::<Seq<char>, Error>(default_from(None, Some(h), Some(m))),
                        }
                    },
                },
            }
        },
    }
}

/// The branch new work is cut from: the configured override, else what
/// `origin/HEAD` points at, else whichever of `main` and `master` exists.
pub fn default_branch<H: Host>(host: &mut H, config: &Config, path: &str) -> (r: Result<String, Error>)
    ensures
        H::obeys_model() ==> crate::host::kept(*old(host), *final(host)),
        H::obeys_model() ==> (default_asked(
            match config.default_branch {
                Some(b) => Some(b@),
                None => None,
            },
            path@,
            old(host).events(),
            final(host).events(),
            text_view(r),
        )),
{
    proof {
        reveal_strlit("main");
        reveal_strlit("master");
    }
    let ghost before = host.events();
    if let Some(configured) = &config.default_branch {
        return Ok(configured.clone());
    }
    let ask_head = ["git", "symbolic-ref", "--short", "refs/remotes/origin/HEAD"];
    assert(strs(ask_head@) =~= origin_head_command());
    let head = match host.run(&ask_head, Some(path)) {
        Ok(o) => o,
        Err(e) => {
            assert(H::obeys_model() ==> (host.events().take(before.len() + 1 as int) == host.events()));
            return Err(e);
        },
    };
    let ghost middle = host.events();
    assert(H::obeys_model() ==> (middle.take(before.len() + 1 as int) == middle));
    if let Some(branch) = remote_head_from(&head) {
        return Ok(branch);
    }
    let ask_main = ["git", "rev-parse", "--verify", "--quiet", "refs/heads/main"];
    assert(strs(ask_main@) =~= main_command());
    let main = match host.run(&ask_main, Some(path)) {
        Ok(o) => o,
        Err(e) => {
            assert(H::obeys_model() ==> (host.events().take(before.len() + 1 as int) == middle));
            return Err(e);
        },
    };
    assert(H::obeys_model() ==> (host.events().take(before.len() + 1 as int) == middle));
    Ok(String::from_str(if main.succeeded() { "main" } else { "master" }))
}

/// `git status --porcelain` listed something. A path git cannot report on
/// counts as clean: there is nothing to lose there.
pub open spec fn listed_changes(out: Output) -> bool {
    out.success() && out.trimmed_out().len() > 0
}

pub fn changes_from(out: &Output) -> (r: bool)
    ensures
        r == listed_changes(*out),
{
    out.succeeded() && !out.trimmed().as_str().is_empty()
}

/// What a run of `git status` gave, read as whether anything changed.
pub open spec fn changes_result(res: Result<Output, Error>) -> Result<bool, Error> {
    match res {
        Ok(o) => Ok(listed_changes(o)),
        Err(e) => Err(e),
    }
}

pub open spec fn dirty_command() -> Seq<Seq<char>> {
    seq!["git"@, "status"@, "--porcelain"@, "--ignore-submodules=none"@]
}

pub open spec fn status_command() -> Seq<Seq<char>> {
    seq!["git"@, "status"@, "--porcelain"@]
}

/// Whether the checkout has uncommitted changes, submodules included, and so
/// must not be branched in place.
pub fn is_dirty<H: Host>(host: &mut H, path: &str) -> (r: Result<bool, Error>)
    ensures
        H::obeys_model() ==> crate::host::kept(*old(host), *final(host)),
        H::obeys_model() ==> (one_run(old(host).events(), final(host).events(), dirty_command(), Some(path@))),
        H::obeys_model() ==> (r == changes_result(outcome(final(host).events().last()))),
{
    let argv = ["git", "status", "--porcelain", "--ignore-submodules=none"];
    assert(strs(argv@) =~= dirty_command());
    let out = host.run(&argv, Some(path))?;
    Ok(changes_from(&out))
}

/// Whether a worktree has changes — untracked files included — and so must
/// not be removed.
pub fn has_changes<H: Host>(host: &mut H, path: &str) -> (r: Result<bool, Error>)
    ensures
        H::obeys_model() ==> crate::host::kept(*old(host), *final(host)),
        H::obeys_model() ==> (one_run(old(host).events(), final(host).events(), status_command(), Some(path@))),
        H::obeys_model() ==> (r == changes_result(outcome(final(host).events().last()))),
{
    let argv = ["git", "status", "--porcelain"];
    assert(strs(argv@) =~= status_command());
    let out = host.run(&argv, Some(path))?;
    Ok(changes_from(&out))
}

/// Fetch `origin` in `path`, handing back what git said.
pub fn fetch<H: Host>(host: &mut H, path: &str) -> (r: Result<Output, Error>)
    ensures
        H::obeys_model() ==> crate::host::kept(*old(host), *final(host)),
        H::obeys_model() ==> (final(host).events() == old(host).events().push(
            Event::Ran(seq!["git"@, "fetch"@, "origin"@], Some(path@), r),
        )),
{
    let argv = ["git", "fetch", "origin"];
    assert(strs(argv@) =~= seq!["git"@, "fetch"@, "origin"@]);
    host.run(&argv, Some(path))
}

/// `what: stderr`, the refusal git gave, trimmed.
pub open spec fn refused(what: Seq<char>, out: Output) -> Seq<char> {
    what + seq![':', ' '] + trim(out.stderr@)
}

pub fn refusal(what: String, out: &Output) -> (r: Error)
    ensures
        r == Error::Failed(r->Failed_0),
        r->Failed_0@ == refused(what@, *out),
{
    let mut m = what;
    text::push_char(&mut m, ':');
    text::push_char(&mut m, ' ');
    let detail = text::string(&text::trimmed(&text::chars(out.stderr.as_str())));
    text::push_str(&mut m, detail.as_str());
    Error::Failed(m)
}

/// What a run that changes something gave: done, refused with what git said
/// as `what: stderr`, or not run at all.
pub open spec fn done_or_refused(res: Result<Output, Error>, what: Seq<char>, r: Result<(), Error>) -> bool {
    match res {
        Err(e) => r == Err::<(), Error>(e),
        Ok(o) => if o.success() {
            r is Ok
        } else {
            r matches Err(Error::Failed(m)) && m@ == refused(what, o)
        },
    }
}

/// Cut `name` from `base` in the existing checkout and switch to it,
/// tracking nothing until its first push names the remote branch after it.
pub fn create_branch<H: Host>(host: &mut H, path: &str, name: &str, base: &str) -> (r: Result<(), Error>)
    ensures
        H::obeys_model() ==> crate::host::kept(*old(host), *final(host)),
        H::obeys_model() ==> (one_run(
            old(host).events(),
            final(host).events(),
            seq!["git"@, "checkout"@, "--no-track"@, "-b"@, name@, base@],
            Some(path@),
        )),
        H::obeys_model() ==> (done_or_refused(
            outcome(final(host).events().last()),
            "git would not create branch "@ + name@,
            r,
        )),
{
    let argv = ["git", "checkout", "--no-track", "-b", name, base];
    assert(strs(argv@) =~= seq!["git"@, "checkout"@, "--no-track"@, "-b"@, name@, base@]);
    let out = host.run(&argv, Some(path))?;
    if out.succeeded() {
        Ok(())
    } else {
        let what = text::concat("git would not create branch ", name);
        Err(refusal(what, &out))
    }
}

/// Cut `name` from `base` into a new worktree at `path`, in one operation.
/// Tracks nothing, for the reason [`create_branch`] gives.
pub fn add_worktree<H: Host>(host: &mut H, main: &str, path: &str, name: &str, base: &str) -> (r: Result<(), Error>)
    ensures
        H::obeys_model() ==> crate::host::kept(*old(host), *final(host)),
        H::obeys_model() ==> (one_run(
            old(host).events(),
            final(host).events(),
            seq!["git"@, "worktree"@, "add"@, "--no-track"@, "-b"@, name@, path@, base@],
            Some(main@),
        )),
        H::obeys_model() ==> (done_or_refused(
            outcome(final(host).events().last()),
            "git would not add worktree "@ + path@,
            r,
        )),
{
    let argv = ["git", "worktree", "add", "--no-track", "-b", name, path, base];
    assert(strs(argv@) =~= seq!["git"@, "worktree"@, "add"@, "--no-track"@, "-b"@, name@, path@, base@]);
    let out = host.run(&argv, Some(main))?;
    if out.succeeded() {
        Ok(())
    } else {
        let what = text::concat("git would not add worktree ", path);
        Err(refusal(what, &out))
    }
}

/// Remove the worktree at `path`, never forced: git itself refuses one with
/// changes or untracked files. Its branch stays, and with it every commit.
pub fn remove_worktree<H: Host>(host: &mut H, main: &str, path: &str) -> (r: Result<(), Error>)
    ensures
        H::obeys_model() ==> crate::host::kept(*old(host), *final(host)),
        H::obeys_model() ==> (one_run(
            old(host).events(),
            final(host).events(),
            seq!["git"@, "worktree"@, "remove"@, path@],
            Some(main@),
        )),
        H::obeys_model() ==> (done_or_refused(
            outcome(final(host).events().last()),
            "git would not remove worktree "@ + path@,
            r,
        )),
{
    let argv = ["git", "worktree", "remove", path];
    assert(strs(argv@) =~= seq!["git"@, "worktree"@, "remove"@, path@]);
    let out = host.run(&argv, Some(main))?;
    if out.succeeded() {
        Ok(())
    } else {
        let what = text::concat("git would not remove worktree ", path);
        Err(refusal(what, &out))
    }
}

/// `.gitattributes` sends some files through LFS.
pub open spec fn tracks_lfs(attributes: Seq<char>) -> bool {
    exists|i: int| 0 <= i <= attributes.len() - 10 && #[trigger] attributes.subrange(i, i + 10) == "filter=lfs"@
}

pub fn uses_lfs(attributes: &str) -> (r: bool)
    ensures
        r == tracks_lfs(attributes@),
{
    let v = text::chars(attributes);
    let needle = text::chars("filter=lfs");
    proof {
        reveal_strlit("filter=lfs");
    }
    assert(needle@.len() == 10);
    if v.len() < 10 {
        return false;
    }
    let mut i: usize = 0;
    while i <= v.len() - 10
        invariant
            needle@ == "filter=lfs"@,
            v@ == attributes@,
            v.len() >= 10,
            i <= v.len() - 9,
            forall|k: int| 0 <= k < i ==> #[trigger] v@.subrange(k, k + 10) != "filter=lfs"@,
        decreases v.len() - i,
    {
        let window = text::slice(&v, i, i + 10);
        if text::same_chars(&window, &needle) {
            return true;
        }
        i += 1;
    }
    false
}

/// A cut branch arrives with what it records: its submodules, and its LFS
/// files when `.gitattributes` tracks any. Either can reach the network, and
/// a failure warns, naming the command to finish with.
pub open spec fn submodule_command() -> Seq<Seq<char>> {
    seq!["git"@, "submodule"@, "update"@, "--init"@, "--recursive"@]
}

pub open spec fn lfs_command() -> Seq<Seq<char>> {
    seq!["git"@, "lfs"@, "pull"@]
}

/// What follows an LFS pull at `k`: a warning when it failed.
pub open spec fn pulled(dir: Seq<char>, after: Seq<Event>, k: int, r: Result<(), Error>) -> bool {
    &&& after.len() > k
    &&& after[k] == Event::Ran(lfs_command(), Some(dir), outcome(after[k]))
    &&& match outcome(after[k]) {
        Err(e) => after.len() == k + 1 && r == Err::<(), Error>(e),
        Ok(p) => if p.success() {
            after.len() == k + 1 && r is Ok
        } else {
            &&& after.len() == k + 2
            &&& after[k + 1] == Event::Said("LFS files were not fetched; finish with: git lfs pull in "@ + dir)
            &&& r is Ok
        },
    }
}

/// What [`arrive`] asks: the submodule update, a warning when it failed,
/// and then at most an LFS pull, with its own warning.
pub open spec fn arrival(dir: Seq<char>, before: Seq<Event>, after: Seq<Event>, r: Result<(), Error>) -> bool {
    let n = before.len() as int;
    &&& after.len() > n
    &&& after.take(n) == before
    &&& after[n] == Event::Ran(submodule_command(), Some(dir), outcome(after[n]))
    &&& match outcome(after[n]) {
        Err(e) => after.len() == n + 1 && r == Err::<(), Error>(e),
        Ok(o) => {
            let k = if o.success() { n + 1 } else { n + 2 };
            &&& !o.success() ==> after.len() >= n + 2 && after[n + 1] == Event::Said(
                "submodules were not updated; finish with: git submodule update --init --recursive in "@ + dir,
            )
            &&& after.len() == k || pulled(dir, after, k, r)
        },
    }
}

pub fn arrive<H: Host>(host: &mut H, dir: &str) -> (r: Result<(), Error>)
    ensures
        H::obeys_model() ==> crate::host::kept(*old(host), *final(host)),
        H::obeys_model() ==> (arrival(dir@, old(host).events(), final(host).events(), r)),
{
    let ghost before = host.events();
    let ghost n = before.len() as int;
    let argv = ["git", "submodule", "update", "--init", "--recursive"];
    assert(strs(argv@) =~= submodule_command());
    let out = match host.run(&argv, Some(dir)) {
        Ok(o) => o,
        Err(e) => {
            assert(H::obeys_model() ==> (host.events().take(n) == before));
            return Err(e);
        },
    };
    if !out.succeeded() {
        let mut m = String::from_str("submodules were not updated; finish with: git submodule update --init --recursive in ");
        text::push_str(&mut m, dir);
        host.say(m.as_str());
    }
    let ghost middle = host.events();
    assert(H::obeys_model() ==> (middle.take(n) == before));
    let attributes = path::join_paths(dir, ".gitattributes");
    if let Some(text) = host.read_file(attributes.as_str())? {
        if uses_lfs(text.as_str()) {
            let pull = ["git", "lfs", "pull"];
            assert(strs(pull@) =~= lfs_command());
            let out = match host.run(&pull, Some(dir)) {
                Ok(o) => o,
                Err(e) => {
                    assert(H::obeys_model() ==> (host.events().take(n) == before));
                    assert(H::obeys_model() ==> (host.events()[n] == middle[n]));
                    return Err(e);
                },
            };
            if !out.succeeded() {
                let mut m = String::from_str("LFS files were not fetched; finish with: git lfs pull in ");
                text::push_str(&mut m, dir);
                host.say(m.as_str());
            }
            assert(H::obeys_model() ==> (host.events().take(n) == before));
            assert(H::obeys_model() ==> (host.events()[n] == middle[n]));
        }
    }
    Ok(())
}

/// The branches whose upstream is gone, from `git for-each-ref`'s
/// `name<TAB>track` lines.
pub open spec fn gone_in(ls: Seq<Seq<char>>, branch: Seq<char>) -> bool {
    exists|i: int|
        0 <= i < ls.len() && split(#[trigger] ls[i], '\t').len() == 2 && split(ls[i], '\t')[0]
            == branch && split(ls[i], '\t')[1] == "[gone]"@
}

/// Whether the output of `git for-each-ref` marks `branch` gone.
pub fn is_gone(listing: &str, branch: &str) -> (r: bool)
    ensures
        r == gone_in(lines(listing@), branch@),
{
    let ls = text::lines_of(listing);
    let gone = text::chars("[gone]");
    let b = text::chars(branch);
    let mut i: usize = 0;
    while i < ls.len()
        invariant
            i <= ls.len(),
            gone@ == "[gone]"@,
            b@ == branch@,
            text::views(ls@) == lines(listing@),
            forall|k: int|
                0 <= k < i ==> !(split(text::views(ls@)[k], '\t').len() == 2 && split(text::views(ls@)[k], '\t')[0]
                    == branch@ && split(text::views(ls@)[k], '\t')[1] == "[gone]"@),
        decreases ls.len() - i,
    {
        let parts = text::split_chars(&ls[i], '\t');
        assert(text::views(ls@)[i as int] == ls@[i as int]@);
        if parts.len() == 2 {
            assert(text::views(parts@)[0] == parts@[0]@);
            assert(text::views(parts@)[1] == parts@[1]@);
            if text::same_chars(&parts[0], &b) && text::same_chars(&parts[1], &gone) {
                return true;
            }
        }
        i += 1;
    }
    false
}

} // verus!
