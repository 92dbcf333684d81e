//! One project in several states. Worktrees are created as sibling
//! directories, so the scanner meets them as ordinary repositories and the
//! relationship has to come from git rather than from the directory names.

use vstd::prelude::*;
use crate::host::{
    extends, lemma_extends_index, lemma_extends_trans, lemma_one_run_quietly, lemma_quietly_trans, one_run, outcome, quiet,
    quietly, Error, Event, Host, Output,
};
use crate::path::{self, join, texts};
use crate::text::{self, lines, starts_with, views};

verus! {

/// A linked worktree of a project.
#[derive(Debug, Clone, PartialEq, Eq)]
pub struct Worktree {
    pub path: String,
    /// Empty when the worktree's HEAD is detached.
    pub branch: String,
}

/// A main checkout and every worktree git knows of it, whether or not the scan
/// reached them.
#[derive(Debug, Clone, PartialEq, Eq)]
pub struct Group {
    pub main: String,
    pub worktrees: Vec<Worktree>,
}

/// A directory git named, anchored at the repository when git answered with
/// a relative one.
pub open spec fn anchored(repo: Seq<char>, dir: Seq<char>) -> Seq<char> {
    if dir.len() > 0 && dir[0] == '/' {
        dir
    } else {
        join(repo, dir)
    }
}

/// The `k`th line of `s`, or nothing.
pub open spec fn line_at(ls: Seq<Seq<char>>, k: int) -> Seq<char> {
    if 0 <= k < ls.len() {
        ls[k]
    } else {
        Seq::empty()
    }
}

/// The git directory and the common directory `rev-parse` reported, both
/// anchored at `repo`.
pub open spec fn git_dirs(repo: Seq<char>, out: Output) -> (Seq<char>, Seq<char>) {
    let ls = lines(out.trimmed_out());
    (anchored(repo, line_at(ls, 0)), anchored(repo, line_at(ls, 1)))
}

/// `worktree ` and `branch refs/heads/`.
pub open spec fn worktree_tag() -> Seq<char> {
    "worktree "@
}

pub open spec fn branch_tag() -> Seq<char> {
    "branch refs/heads/"@
}

/// What `git worktree list --porcelain` lists, in order: each `worktree`
/// line opens an entry, and a `branch refs/heads/` line names the branch of
/// the entry before it.
pub open spec fn listing(ls: Seq<Seq<char>>) -> Seq<(Seq<char>, Seq<char>)>
    decreases ls.len(),
{
    if ls.len() == 0 {
        Seq::empty()
    } else {
        let before = listing(ls.drop_last());
        let l = ls.last();
        if starts_with(l, worktree_tag()) {
            before.push((l.skip(worktree_tag().len() as int), Seq::empty()))
        } else if starts_with(l, branch_tag()) && before.len() > 0 {
            before.update(
                before.len() - 1,
                (before.last().0, l.skip(branch_tag().len() as int)),
            )
        } else {
            before
        }
    }
}

/// The worktrees of a listing as text.
pub open spec fn worktree_texts(w: Seq<Worktree>) -> Seq<(Seq<char>, Seq<char>)> {
    w.map_values(|t: Worktree| (t.path@, t.branch@))
}

fn anchor(repo: &str, dir: &[char]) -> (r: String)
    ensures
        r@ == anchored(repo@, dir@),
{
    let d = text::string(dir);
    if dir.len() > 0 && dir[0] == '/' {
        d
    } else {
        path::join_paths(repo, d.as_str())
    }
}

/// The repository's git directory and its common directory, from what
/// `git rev-parse --git-dir --git-common-dir` answered. Equal exactly when
/// this is the main checkout; a directory git refused to answer for reads as
/// its own main checkout.
pub fn dirs_from(repo: &str, out: &Output) -> (r: (String, String))
    ensures
        (r.0@, r.1@) == git_dirs(repo@, *out),
{
    let trimmed = out.trimmed();
    let ls = text::lines_of(trimmed.as_str());
    let empty: Vec<char> = Vec::new();
    let g = if ls.len() > 0 {
        anchor(repo, &ls[0])
    } else {
        anchor(repo, &empty)
    };
    let c = if ls.len() > 1 {
        anchor(repo, &ls[1])
    } else {
        anchor(repo, &empty)
    };
    proof {
        assert(views(ls@).len() == ls@.len());
        if ls.len() > 0 {
            assert(views(ls@)[0] == ls@[0]@);
        }
        if ls.len() > 1 {
            assert(views(ls@)[1] == ls@[1]@);
        }
    }
    (g, c)
}

/// The entries of `git worktree list --porcelain`'s output.
pub fn listed(stdout: &str) -> (r: Vec<Worktree>)
    ensures
        worktree_texts(r@) == listing(lines(stdout@)),
{
    let ls = text::lines_of(stdout);
    let wt = text::chars("worktree ");
    let bt = text::chars("branch refs/heads/");
    let mut r: Vec<Worktree> = Vec::new();
    let mut i: usize = 0;
    while i < ls.len()
        invariant
            i <= ls.len(),
            wt@ == worktree_tag(),
            bt@ == branch_tag(),
            worktree_texts(r@) == listing(views(ls@).take(i as int)),
        decreases ls.len() - i,
    {
        let ghost before = worktree_texts(r@);
        assert(views(ls@).take(i + 1).drop_last() == views(ls@).take(i as int));
        assert(views(ls@).take(i + 1).last() == ls@[i as int]@);
        let l = &ls[i];
        if text::has_prefix(l, &wt) {
            let p = text::slice(l, wt.len(), l.len());
            r.push(Worktree { path: text::string(&p), branch: String::new() });
            assert(worktree_texts(r@) == before.push((l@.skip(wt@.len() as int), Seq::empty())));
        } else if text::has_prefix(l, &bt) && r.len() > 0 {
            let b = text::slice(l, bt.len(), l.len());
            let last = r.len() - 1;
            let entry = Worktree { path: r[last].path.clone(), branch: text::string(&b) };
            r.set(last, entry);
            assert(worktree_texts(r@) == before.update(
                before.len() - 1,
                (before.last().0, l@.skip(bt@.len() as int)),
            ));
        }
        i += 1;
    }
    assert(views(ls@).take(ls.len() as int) == views(ls@));
    r
}

/// `git worktree list` is authoritative: it knows worktrees the scan never
/// reached, deliberately a superset of what was found on disk. The main
/// checkout leads that list and is not a worktree of itself, and an entry
/// whose directory is gone is dropped rather than shown as a broken row.
pub open spec fn list_command() -> Seq<Seq<char>> {
    seq!["git"@, "worktree"@, "list"@, "--porcelain"@]
}

/// The entries that are not the main checkout and whose directories are
/// still there.
pub open spec fn standing<H: Host>(entries: Seq<(Seq<char>, Seq<char>)>, main: Seq<char>, host: H) -> Seq<(Seq<char>, Seq<char>)>
    decreases entries.len(),
{
    if entries.len() == 0 {
        Seq::empty()
    } else {
        let e = entries.last();
        let rest = standing(entries.drop_last(), main, host);
        if e.0 != main && host.present_at(e.0) {
            rest.push(e)
        } else {
            rest
        }
    }
}

/// Which entries stand depends only on what is there.
pub proof fn lemma_standing_kept<H: Host>(entries: Seq<(Seq<char>, Seq<char>)>, main: Seq<char>, a: H, b: H)
    requires
        forall|p: Seq<char>| #[trigger] b.present_at(p) == a.present_at(p),
    ensures
        standing(entries, main, a) == standing(entries, main, b),
    decreases entries.len(),
{
    if entries.len() > 0 {
        lemma_standing_kept(entries.drop_last(), main, a, b);
    }
}

pub fn worktrees<H: Host>(host: &mut H, main: &str) -> (r: Result<Vec<Worktree>, Error>)
    ensures
        H::obeys_model() ==> crate::host::kept(*old(host), *final(host)),
        H::obeys_model() ==> (one_run(old(host).events(), final(host).events(), list_command(), Some(main@))),
        H::obeys_model() ==> (match outcome(final(host).events().last()) {
            Ok(out) => r matches Ok(w) && worktree_texts(w@) == standing(
                listing(lines(out.stdout@)),
                main@,
                *final(host),
            ),
            Err(e) => r == Err::<Vec<Worktree>, Error>(e),
        }),
{
    let argv = ["git", "worktree", "list", "--porcelain"];
    assert(text::strs(argv@) =~= list_command());
    let out = host.run(&argv, Some(main))?;
    let listed = listed(out.stdout.as_str());
    let mut kept: Vec<Worktree> = Vec::new();
    let mut i: usize = 0;
    while i < listed.len()
        invariant
            i <= listed.len(),
            H::obeys_model() ==> worktree_texts(kept@) == standing(worktree_texts(listed@).take(i as int), main@, *host),
        decreases listed.len() - i,
    {
        let w = &listed[i];
        assert(worktree_texts(listed@).take(i + 1).drop_last() == worktree_texts(listed@).take(i as int));
        assert(worktree_texts(listed@).take(i + 1).last() == (w.path@, w.branch@));
        if !text::same(w.path.as_str(), main) && host.path_exists(w.path.as_str()) {
            let ghost k0 = worktree_texts(kept@);
            kept.push(Worktree { path: w.path.clone(), branch: w.branch.clone() });
            assert(worktree_texts(kept@) =~= k0.push((w.path@, w.branch@)));
        }
        i += 1;
    }
    assert(worktree_texts(listed@).take(i as int) == worktree_texts(listed@));
    Ok(kept)
}

/// Which repositories become projects, from each one's common directory and
/// whether it is its own main checkout: every main checkout, and every
/// worktree no main checkout here shares a common directory with.
pub open spec fn kept(resolved: Seq<(Seq<char>, bool)>, i: int) -> bool {
    resolved[i].1 || !exists|j: int| 0 <= j < resolved.len() && (#[trigger] resolved[j]).1 && resolved[j].0 == resolved[i].0
}

/// The indexes of the repositories that become projects, in order.
pub fn plan(resolved: &Vec<(String, bool)>) -> (r: Vec<usize>)
    ensures
        forall|k: int| 0 <= k < r.len() ==> #[trigger] r[k] < resolved.len(),
        forall|a: int, b: int| 0 <= a < b < r.len() ==> r[a] < r[b],
        forall|i: int|
            0 <= i < resolved.len() ==> (#[trigger] r@.contains(i as usize) <==> kept(
                resolved@.map_values(|x: (String, bool)| (x.0@, x.1)),
                i,
            )),
{
    let ghost rs = resolved@.map_values(|x: (String, bool)| (x.0@, x.1));
    let mut r: Vec<usize> = Vec::new();
    let mut i: usize = 0;
    while i < resolved.len()
        invariant
            i <= resolved.len(),
            rs == resolved@.map_values(|x: (String, bool)| (x.0@, x.1)),
            forall|k: int| 0 <= k < r.len() ==> #[trigger] r[k] < i,
            forall|a: int, b: int| 0 <= a < b < r.len() ==> r[a] < r[b],
            forall|m: int| 0 <= m < i ==> (r@.contains(m as usize) <==> kept(rs, m)),
        decreases resolved.len() - i,
    {
        let keep = if resolved[i].1 {
            true
        } else {
            let mut j: usize = 0;
            let mut shared = false;
            while j < resolved.len()
                invariant
                    j <= resolved.len(),
                    i < resolved.len(),
                    rs == resolved@.map_values(|x: (String, bool)| (x.0@, x.1)),
                    shared <==> exists|k: int| 0 <= k < j && (#[trigger] rs[k]).1 && rs[k].0 == rs[i as int].0,
                decreases resolved.len() - j,
            {
                assert(rs[j as int] == (resolved@[j as int].0@, resolved@[j as int].1));
                assert(rs[i as int] == (resolved@[i as int].0@, resolved@[i as int].1));
                if resolved[j].1 && text::same(resolved[j].0.as_str(), resolved[i].0.as_str()) {
                    shared = true;
                }
                j += 1;
            }
            !shared
        };
        assert(rs[i as int] == (resolved@[i as int].0@, resolved@[i as int].1));
        assert(keep == kept(rs, i as int));
        let ghost r0 = r@;
        if keep {
            r.push(i);
        }
        proof {
            assert forall|m: int| 0 <= m < i + 1 implies (r@.contains(m as usize) <==> kept(rs, m)) by {
                if m < i {
                    if r@.contains(m as usize) {
                        let k = choose|k: int| 0 <= k < r.len() && r@[k] == m as usize;
                        if k < r0.len() {
                            assert(r0[k] == m as usize);
                        }
                    }
                    if r0.contains(m as usize) {
                        let k = choose|k: int| 0 <= k < r0.len() && r0[k] == m as usize;
                        assert(r@[k] == m as usize);
                    }
                } else {
                    if r@.contains(m as usize) {
                        let k = choose|k: int| 0 <= k < r.len() && r@[k] == m as usize;
                        if k < r0.len() {
                            assert(r0[k] < i);
                        }
                    }
                    if keep {
                        assert(r@[r0.len() as int] == i);
                    }
                }
            }
        }
        i += 1;
    }
    r
}

/// `▕██████████░░░░░░░░░░▏ 1/2 repositories`: twenty cells, filled in
/// proportion.
pub open spec fn bar(done: nat, total: nat) -> Seq<char> {
    let filled = (20 * done / total) as nat;
    seq!['▕'] + Seq::new(filled, |i: int| '█') + Seq::new((20 - filled) as nat, |i: int| '░')
        + seq!['▏', ' '] + text::decimal(done) + seq!['/'] + text::decimal(total) + " repositories"@
}

/// How far the pass over `total` repositories has got.
pub fn progress(done: usize, total: usize) -> (r: String)
    requires
        0 < done <= total,
    ensures
        r@ == bar(done as nat, total as nat),
{
    let filled = ((20 * (done as u128)) / (total as u128)) as usize;
    assert((20 * done as int) / (total as int) <= 20) by (nonlinear_arith)
        requires
            done <= total,
            total > 0,
    ;
    let mut r = String::new();
    text::push_char(&mut r, '▕');
    let mut k: usize = 0;
    while k < 20
        invariant
            k <= 20,
            filled <= 20,
            filled as int == (20 * done) as int / (total as int),
            r@ == seq!['▕'] + Seq::new(if k < filled { k as nat } else { filled as nat }, |i: int| '█')
                + Seq::new(if k < filled { 0nat } else { (k - filled) as nat }, |i: int| '░'),
        decreases 20 - k,
    {
        let ghost r0 = r@;
        if k < filled {
            text::push_char(&mut r, '█');
            assert(Seq::new((k + 1) as nat, |i: int| '█') == Seq::new(k as nat, |i: int| '█').push('█'));
        } else {
            text::push_char(&mut r, '░');
            assert(Seq::new((k + 1 - filled) as nat, |i: int| '░') == Seq::new((k - filled) as nat, |i: int| '░').push('░'));
        }
        k += 1;
    }
    text::push_char(&mut r, '▏');
    text::push_char(&mut r, ' ');
    text::push_decimal(&mut r, done as u64);
    text::push_char(&mut r, '/');
    text::push_decimal(&mut r, total as u64);
    text::push_str(&mut r, " repositories");
    r
}

/// `git rev-parse --git-dir --git-common-dir`.
pub open spec fn dirs_command() -> Seq<Seq<char>> {
    seq!["git"@, "rev-parse"@, "--git-dir"@, "--git-common-dir"@]
}

/// A repository's common directory, and whether it is its own main checkout.
pub open spec fn resolution(repo: Seq<char>, out: Output) -> (Seq<char>, bool) {
    let (g, c) = git_dirs(repo, out);
    (c, g == c)
}

/// What git answered for each repository.
pub open spec fn resolutions(repos: Seq<Seq<char>>, outs: Seq<Output>) -> Seq<(Seq<char>, bool)> {
    Seq::new(repos.len(), |i: int| resolution(repos[i], outs[i]))
}

/// The requests of the first pass: git asked about each repository in turn,
/// and after each answer the bar on the status line, when there are few
/// enough repositories to count.
pub open spec fn asking(repos: Seq<Seq<char>>, outs: Seq<Output>, total: nat) -> Seq<Event>
    decreases repos.len(),
{
    if repos.len() == 0 {
        Seq::empty()
    } else {
        asking(repos.drop_last(), outs.take(repos.len() - 1), total) + seq![
            Event::Ran(dirs_command(), Some(repos.last()), Ok(outs[repos.len() - 1])),
        ] + seq![Event::Status(bar(repos.len(), total))]
    }
}

/// A command that could not be run, for `e`.
pub open spec fn failed_with(ev: Event, e: Error) -> bool {
    match ev {
        Event::Ran(_, _, Err(e2)) => e2 == e,
        _ => false,
    }
}

proof fn lemma_asking_quiet(repos: Seq<Seq<char>>, outs: Seq<Output>, total: nat, before: Seq<Event>)
    ensures
        quietly(before, before + asking(repos, outs, total)),
    decreases repos.len(),
{
    let a = asking(repos, outs, total);
    assert((before + a).take(before.len() as int) =~= before);
    if repos.len() > 0 {
        let p = asking(repos.drop_last(), outs.take(repos.len() - 1), total);
        lemma_asking_quiet(repos.drop_last(), outs.take(repos.len() - 1), total, before);
        assert forall|j: int| before.len() <= j < (before + a).len() implies quiet(#[trigger] (before + a)[j]) by {
            if j < (before + p).len() {
                assert((before + a)[j] == (before + p)[j]);
            }
        }
    }
}

/// A request [`group`] makes: git asked where a repository's directories
/// are or which worktrees it has, or a line of progress.
pub open spec fn asks_git(e: Event) -> bool {
    match e {
        Event::Status(_) => true,
        Event::Ran(argv, _, _) => argv == dirs_command() || argv == list_command(),
        _ => false,
    }
}

/// `after` is `before` with more requests after it, each one [`asks_git`].
pub open spec fn git_only(before: Seq<Event>, after: Seq<Event>) -> bool {
    &&& extends(before, after)
    &&& forall|j: int| before.len() <= j < after.len() ==> asks_git(#[trigger] after[j])
}

pub(crate) proof fn lemma_git_only_trans(a: Seq<Event>, b: Seq<Event>, c: Seq<Event>)
    requires
        git_only(a, b),
        git_only(b, c),
    ensures
        git_only(a, c),
{
    lemma_extends_trans(a, b, c);
    assert forall|j: int| a.len() <= j < c.len() implies asks_git(#[trigger] c[j]) by {
        if j < b.len() {
            lemma_extends_index(b, c, j);
        }
    }
}

pub(crate) proof fn lemma_git_only_push(before: Seq<Event>, e: Event)
    requires
        asks_git(e),
    ensures
        git_only(before, before.push(e)),
{
    assert(before.push(e).take(before.len() as int) =~= before);
}

proof fn lemma_asking_git(repos: Seq<Seq<char>>, outs: Seq<Output>, total: nat, before: Seq<Event>)
    ensures
        git_only(before, before + asking(repos, outs, total)),
    decreases repos.len(),
{
    let a = asking(repos, outs, total);
    assert((before + a).take(before.len() as int) =~= before);
    if repos.len() > 0 {
        let p = asking(repos.drop_last(), outs.take(repos.len() - 1), total);
        lemma_asking_git(repos.drop_last(), outs.take(repos.len() - 1), total, before);
        assert forall|j: int| before.len() <= j < (before + a).len() implies asks_git(#[trigger] (before + a)[j]) by {
            if j < (before + p).len() {
                assert((before + a)[j] == (before + p)[j]);
            }
        }
    }
}

/// A main checkout's group as `git worktree list` answered for it at
/// position `j`: it holds exactly the listed entries that stand on `host`,
/// in the order git listed them, so every worktree it holds is one git
/// listed, and none is the main checkout itself.
pub open spec fn listed_at<H: Host>(events: Seq<Event>, j: int, main: Seq<char>, ws: Seq<Worktree>, host: H) -> bool {
    &&& 0 <= j < events.len()
    &&& events[j] matches Event::Ran(c, d, Ok(o)) && c == list_command() && d == Some(main)
        && worktree_texts(ws) == standing(listing(lines(o.stdout@)), main, host) && forall|t: (Seq<char>, Seq<char>)|
        #[trigger] worktree_texts(ws).contains(t) ==> listing(lines(o.stdout@)).contains(t) && t.0 != main
}

/// What [`group`] gives for `repos`, after git answered `outs` about them:
/// one group for each repository [`plan`] keeps, in order; a worktree whose
/// main checkout was not among them has no worktrees of its own; a main
/// checkout has the worktrees git lists for it.
pub open spec fn grouped<H: Host>(repos: Seq<Seq<char>>, outs: Seq<Output>, after: Seq<Event>, lo: int, gs: Seq<Group>, host: H) -> bool {
    let res = resolutions(repos, outs);
    exists|idx: Seq<int>|
        {
            &&& idx.len() == gs.len()
            &&& forall|a: int, b: int| 0 <= a < b < idx.len() ==> idx[a] < idx[b]
            &&& forall|k: int| 0 <= k < idx.len() ==> 0 <= #[trigger] idx[k] < repos.len()
            &&& forall|i: int| 0 <= i < repos.len() ==> (#[trigger] idx.contains(i) <==> kept(res, i))
            &&& forall|k: int|
                0 <= k < gs.len() ==> (#[trigger] gs[k]).main@ == repos[idx[k]] && (!res[idx[k]].1
                    ==> gs[k].worktrees.len() == 0) && (res[idx[k]].1 ==> exists|j: int|
                    lo <= j && listed_at(after, j, gs[k].main@, gs[k].worktrees@, host))
        }
}

/// What a grouping says of the requests made stays true as more are made.
pub proof fn lemma_grouped_extends<H: Host>(repos: Seq<Seq<char>>, outs: Seq<Output>, a: Seq<Event>, b: Seq<Event>, lo: int, gs: Seq<Group>, host: H)
    requires
        grouped(repos, outs, a, lo, gs, host),
        extends(a, b),
    ensures
        grouped(repos, outs, b, lo, gs, host),
{
    let res = resolutions(repos, outs);
    let idx = choose|idx: Seq<int>|
        {
            &&& idx.len() == gs.len()
            &&& forall|x: int, y: int| 0 <= x < y < idx.len() ==> idx[x] < idx[y]
            &&& forall|k: int| 0 <= k < idx.len() ==> 0 <= #[trigger] idx[k] < repos.len()
            &&& forall|i: int| 0 <= i < repos.len() ==> (#[trigger] idx.contains(i) <==> kept(res, i))
            &&& forall|k: int|
                0 <= k < gs.len() ==> (#[trigger] gs[k]).main@ == repos[idx[k]] && (!res[idx[k]].1
                    ==> gs[k].worktrees.len() == 0) && (res[idx[k]].1 ==> exists|j: int|
                    lo <= j && listed_at(a, j, gs[k].main@, gs[k].worktrees@, host))
        };
    assert forall|k: int| 0 <= k < gs.len() implies (#[trigger] gs[k]).main@ == repos[idx[k]] && (!res[idx[k]].1
        ==> gs[k].worktrees.len() == 0) && (res[idx[k]].1 ==> exists|j: int|
        lo <= j && listed_at(b, j, gs[k].main@, gs[k].worktrees@, host)) by {
        if res[idx[k]].1 {
            let j = choose|j: int| lo <= j && listed_at(a, j, gs[k].main@, gs[k].worktrees@, host);
            lemma_extends_index(a, b, j);
            assert(listed_at(b, j, gs[k].main@, gs[k].worktrees@, host));
        }
    }
}

/// Which worktrees a grouping holds depends only on what is there, so it
/// reads the same on any host where the same paths are present.
pub proof fn lemma_grouped_same_host<H: Host>(repos: Seq<Seq<char>>, outs: Seq<Output>, after: Seq<Event>, lo: int, gs: Seq<Group>, a: H, b: H)
    requires
        grouped(repos, outs, after, lo, gs, a),
        forall|p: Seq<char>| #[trigger] b.present_at(p) == a.present_at(p),
    ensures
        grouped(repos, outs, after, lo, gs, b),
{
    let res = resolutions(repos, outs);
    let idx = choose|idx: Seq<int>|
        {
            &&& idx.len() == gs.len()
            &&& forall|x: int, y: int| 0 <= x < y < idx.len() ==> idx[x] < idx[y]
            &&& forall|k: int| 0 <= k < idx.len() ==> 0 <= #[trigger] idx[k] < repos.len()
            &&& forall|i: int| 0 <= i < repos.len() ==> (#[trigger] idx.contains(i) <==> kept(res, i))
            &&& forall|k: int|
                0 <= k < gs.len() ==> (#[trigger] gs[k]).main@ == repos[idx[k]] && (!res[idx[k]].1
                    ==> gs[k].worktrees.len() == 0) && (res[idx[k]].1 ==> exists|j: int|
                    lo <= j && listed_at(after, j, gs[k].main@, gs[k].worktrees@, a))
        };
    assert forall|k: int| 0 <= k < gs.len() implies (#[trigger] gs[k]).main@ == repos[idx[k]] && (!res[idx[k]].1
        ==> gs[k].worktrees.len() == 0) && (res[idx[k]].1 ==> exists|j: int|
        lo <= j && listed_at(after, j, gs[k].main@, gs[k].worktrees@, b)) by {
        if res[idx[k]].1 {
            let j = choose|j: int| lo <= j && listed_at(after, j, gs[k].main@, gs[k].worktrees@, a);
            let o = after[j]->Ran_2->Ok_0;
            lemma_standing_kept(listing(lines(o.stdout@)), gs[k].main@, a, b);
            assert(listed_at(after, j, gs[k].main@, gs[k].worktrees@, b));
        }
    }
}

/// A main checkout's group holds exactly the entries of its worktree listing
/// that are not the main checkout and are still there, in the order git
/// listed them: not merely some of them. A repository that is not a main
/// checkout of its own holds none.
pub proof fn lemma_main_checkout_holds_every_standing_worktree<H: Host>(
    repos: Seq<Seq<char>>,
    outs: Seq<Output>,
    after: Seq<Event>,
    lo: int,
    gs: Seq<Group>,
    host: H,
    k: int,
)
    requires
        grouped(repos, outs, after, lo, gs, host),
        0 <= k < gs.len(),
    ensures
        exists|i: int|
            #![trigger repos[i]]
            {
                &&& 0 <= i < repos.len()
                &&& repos[i] == gs[k].main@
                &&& (!resolutions(repos, outs)[i].1 ==> gs[k].worktrees.len() == 0)
                &&& (resolutions(repos, outs)[i].1 ==> exists|j: int, o: Output|
                    #![trigger after[j], o.stdout]
                    {
                        &&& lo <= j < after.len()
                        &&& after[j] == Event::Ran(list_command(), Some(gs[k].main@), Ok(o))
                        &&& worktree_texts(gs[k].worktrees@) == standing(listing(lines(o.stdout@)), gs[k].main@, host)
                    })
            },
{
    let res = resolutions(repos, outs);
    let idx = choose|idx: Seq<int>|
        {
            &&& idx.len() == gs.len()
            &&& forall|x: int, y: int| 0 <= x < y < idx.len() ==> idx[x] < idx[y]
            &&& forall|k: int| 0 <= k < idx.len() ==> 0 <= #[trigger] idx[k] < repos.len()
            &&& forall|i: int| 0 <= i < repos.len() ==> (#[trigger] idx.contains(i) <==> kept(res, i))
            &&& forall|k: int|
                0 <= k < gs.len() ==> (#[trigger] gs[k]).main@ == repos[idx[k]] && (!res[idx[k]].1
                    ==> gs[k].worktrees.len() == 0) && (res[idx[k]].1 ==> exists|j: int|
                    lo <= j && listed_at(after, j, gs[k].main@, gs[k].worktrees@, host))
        };
    let i = idx[k];
    assert(gs[k].main@ == repos[i]);
    if res[i].1 {
        let j = choose|j: int| lo <= j && listed_at(after, j, gs[k].main@, gs[k].worktrees@, host);
        let o = after[j]->Ran_2->Ok_0;
        assert(after[j] == Event::Ran(list_command(), Some(gs[k].main@), Ok(o)));
        assert(o.stdout == o.stdout);
    }
}

proof fn lemma_standing<H: Host>(entries: Seq<(Seq<char>, Seq<char>)>, main: Seq<char>, host: H, t: (Seq<char>, Seq<char>))
    requires
        standing(entries, main, host).contains(t),
    ensures
        entries.contains(t),
        t.0 != main,
    decreases entries.len(),
{
    let rest = standing(entries.drop_last(), main, host);
    if rest.contains(t) {
        lemma_standing(entries.drop_last(), main, host, t);
        let k = choose|k: int| 0 <= k < entries.drop_last().len() && entries.drop_last()[k] == t;
        assert(entries[k] == t);
    } else {
        assert(t == entries.last());
        assert(entries[entries.len() - 1] == t);
    }
}

/// Collapse discovered repositories into projects. Repositories sharing a git
/// common directory are one project; the main checkout is the one whose git
/// directory *is* that common directory. A worktree whose main checkout was
/// never scanned stands on its own rather than disappearing. Asks git about
/// each repository in turn, counting them on the status line, then lists the
/// worktrees of each main checkout.
pub fn group<H: Host>(host: &mut H, repos: &Vec<String>) -> (r: Result<Vec<Group>, Error>)
    ensures
        H::obeys_model() ==> git_only(old(host).events(), final(host).events()),
        H::obeys_model() ==> crate::host::kept(*old(host), *final(host)),
        H::obeys_model() ==> quietly(old(host).events(), final(host).events()),
        H::obeys_model() ==> (r matches Ok(gs) ==> exists|outs: Seq<Output>|
            #![trigger asking(texts(repos@), outs, repos.len() as nat)]
            {
                let k = (old(host).events().len() + asking(texts(repos@), outs, repos.len() as nat).len()) as int;
                &&& outs.len() == repos.len()
                &&& final(host).events().take(k) == old(host).events() + asking(texts(repos@), outs, repos.len() as nat)
                &&& grouped(texts(repos@), outs, final(host).events(), k, gs@, *old(host))
            }),
        H::obeys_model() ==> (r matches Err(e) ==> final(host).events().len() > old(host).events().len()
            && failed_with(final(host).events().last(), e)),
{
    let ghost before = host.events();
    let ghost rs = texts(repos@);
    let mut resolved: Vec<(String, bool)> = Vec::new();
    let ghost mut outs: Seq<Output> = Seq::empty();
    let total = repos.len();
    let mut i: usize = 0;
    while i < total
        invariant
            i <= total,
            total == repos.len(),
            rs == texts(repos@),
            before == old(host).events(),
            H::obeys_model() ==> crate::host::kept(*old(host), *host),
            resolved.len() == i,
            outs.len() == i,
            resolved@.map_values(|x: (String, bool)| (x.0@, x.1)) == resolutions(rs.take(i as int), outs),
            H::obeys_model() ==> host.events() == before + asking(rs.take(i as int), outs, total as nat),
        decreases total - i,
    {
        let repo = repos[i].as_str();
        let argv = ["git", "rev-parse", "--git-dir", "--git-common-dir"];
        assert(text::strs(argv@) =~= dirs_command());
        let asked = host.run(&argv, Some(repo));
        let out = match asked {
            Ok(o) => o,
            Err(e) => {
                proof {
                    if H::obeys_model() {
                        let prior = before + asking(rs.take(i as int), outs, total as nat);
                        assert(host.events() == prior.push(host.events().last()));
                        assert(host.events().take(before.len() as int) =~= before);
                        lemma_asking_quiet(rs.take(i as int), outs, total as nat, before);
                        assert(host.events() == prior.push(Event::Ran(dirs_command(), Some(repo@), asked)));
                        crate::host::lemma_quietly_push(prior, host.events().last());
                        lemma_quietly_trans(before, prior, host.events());
                        lemma_asking_git(rs.take(i as int), outs, total as nat, before);
                        lemma_git_only_push(prior, host.events().last());
                        lemma_git_only_trans(before, prior, host.events());
                    }
                }
                return Err(e);
            },
        };
        let (git_dir, common) = dirs_from(repo, &out);
        let is_main = text::same(git_dir.as_str(), common.as_str());
        let ghost r0 = resolved@.map_values(|x: (String, bool)| (x.0@, x.1));
        let ghost o0 = outs;
        resolved.push((common, is_main));
        proof {
            outs = outs.push(out);
            assert(rs.take(i + 1).drop_last() =~= rs.take(i as int));
            assert(outs.take(i as int) =~= o0);
            assert(rs[i as int] == repos@[i as int]@);
            assert(outs[i as int] == out);
            assert(resolutions(rs.take(i + 1), outs)[i as int] == resolution(rs[i as int], out));
            assert(resolved@.map_values(|x: (String, bool)| (x.0@, x.1))[i as int] == (common@, is_main));
            assert forall|j: int| 0 <= j < i implies #[trigger] resolutions(rs.take(i + 1), outs)[j] == resolutions(rs.take(i as int), o0)[j] by {
                assert(outs[j] == o0[j]);
            }
            assert(resolved@.map_values(|x: (String, bool)| (x.0@, x.1)) =~= resolutions(rs.take(i + 1), outs));
        }
        let line = progress(i + 1, total);
        host.status(line.as_str());
        proof {
            if H::obeys_model() {
                assert(host.events() =~= before + asking(rs.take(i + 1), outs, total as nat));
            }
        }
        i += 1;
    }
    assert(rs.take(total as int) == rs);
    let ghost k0 = host.events().len();
    let ghost mid = host.events();
    proof {
        if H::obeys_model() {
            assert(mid.take(k0 as int) =~= mid);
            assert(mid.take(before.len() as int) =~= before);
            lemma_asking_quiet(rs, outs, total as nat, before);
            crate::host::lemma_quietly_same(mid);
            lemma_asking_git(rs, outs, total as nat, before);
        }
    }
    let chosen = plan(&resolved);
    let ghost res = resolved@.map_values(|x: (String, bool)| (x.0@, x.1));
    let mut groups: Vec<Group> = Vec::new();
    let ghost mut at: Seq<int> = Seq::empty();
    let mut k: usize = 0;
    while k < chosen.len()
        invariant
            k <= chosen.len(),
            resolved.len() == repos.len(),
            rs == texts(repos@),
            before == old(host).events(),
            H::obeys_model() ==> crate::host::kept(*old(host), *host),
            H::obeys_model() ==> quietly(before, mid),
            H::obeys_model() ==> mid.len() == k0,
            res == resolved@.map_values(|x: (String, bool)| (x.0@, x.1)),
            groups.len() == k,
            at.len() == k,
            forall|m: int| 0 <= m < chosen.len() ==> #[trigger] chosen[m] < resolved.len(),
            H::obeys_model() ==> quietly(mid, host.events()),
            H::obeys_model() ==> git_only(before, host.events()),
            forall|m: int|
                0 <= m < k ==> (#[trigger] groups@[m]).main@ == rs[chosen@[m] as int] && (!res[chosen@[m] as int].1
                    ==> groups@[m].worktrees.len() == 0) && (H::obeys_model() && res[chosen@[m] as int].1
                    ==> k0 <= at[m] && listed_at(host.events(), at[m], groups@[m].main@, groups@[m].worktrees@, *old(host))),
        decreases chosen.len() - k,
    {
        let at_k = chosen[k];
        let main = repos[at_k].clone();
        let ghost e0 = host.events();
        assert(rs[at_k as int] == main@);
        assert(res[at_k as int] == (resolved@[at_k as int].0@, resolved@[at_k as int].1));
        let listed = if resolved[at_k].1 {
            let ghost h0 = *host;
            let w = worktrees(host, main.as_str());
            proof {
                if H::obeys_model() {
                    assert(host.events().take(e0.len() as int) =~= e0);
                    lemma_one_run_quietly(e0, host.events(), list_command(), Some(main@));
                    lemma_quietly_trans(mid, e0, host.events());
                    lemma_git_only_push(e0, host.events().last());
                    assert(host.events() == e0.push(host.events().last()));
                    lemma_git_only_trans(before, e0, host.events());
                }
            }
            match w {
                Ok(ws) => {
                    proof {
                        if H::obeys_model() {
                            let j = e0.len() as int;
                            assert(host.events()[j] == host.events().last());
                            assert(outcome(host.events().last()) is Ok);
                            assert forall|t: (Seq<char>, Seq<char>)| #[trigger] worktree_texts(ws@).contains(t) implies
                                listing(lines(outcome(host.events()[j])->Ok_0.stdout@)).contains(t) && t.0 != main@ by {
                                lemma_standing(listing(lines(outcome(host.events()[j])->Ok_0.stdout@)), main@, *host, t);
                            }
                            lemma_standing_kept(listing(lines(outcome(host.events()[j])->Ok_0.stdout@)), main@, *host, *old(host));
                            assert(listed_at(host.events(), j, main@, ws@, *old(host)));
                        }
                    }
                    ws
                },
                Err(e) => {
                    proof {
                        if H::obeys_model() {
                            lemma_quietly_trans(before, mid, host.events());
                        }
                    }
                    return Err(e);
                },
            }
        } else {
            Vec::new()
        };
        let ghost e1 = host.events();
        proof {
            if H::obeys_model() {
                assert(e1.take(e0.len() as int) =~= e0);
                if !resolved@[at_k as int].1 {
                    assert(e1 == e0);
                }
                assert forall|m: int| 0 <= m < k && res[chosen@[m] as int].1 implies listed_at(
                    e1,
                    at[m],
                    groups@[m].main@,
                    groups@[m].worktrees@,
                    *old(host),
                ) by {
                    let g = groups@[m];
                    assert(k0 <= at[m] && listed_at(e0, at[m], g.main@, g.worktrees@, *old(host)));
                    lemma_extends_index(e0, e1, at[m]);
                }
            }
            at = at.push(e0.len() as int);
        }
        groups.push(Group { main, worktrees: listed });
        k += 1;
    }
    proof {
        if H::obeys_model() {
            lemma_quietly_trans(before, mid, host.events());
            let idx = chosen@.map_values(|x: usize| x as int);
            assert(host.events().take(k0 as int) == mid) by {
                assert(host.events().take(k0 as int) =~= mid.take(k0 as int));
            }
            assert forall|i: int| 0 <= i < repos.len() implies (#[trigger] idx.contains(i) <==> kept(resolutions(rs, outs), i)) by {
                assert(resolutions(rs, outs) =~= res);
                if idx.contains(i) {
                    let m = choose|m: int| 0 <= m < idx.len() && idx[m] == i;
                    assert(chosen@.contains(i as usize)) by {
                        assert(chosen@[m] == i as usize);
                    }
                }
                if chosen@.contains(i as usize) {
                    let m = choose|m: int| 0 <= m < chosen@.len() && chosen@[m] == i as usize;
                    assert(idx[m] == i);
                }
            }
            assert(resolutions(rs, outs) =~= res);
            assert forall|m: int| 0 <= m < groups.len() implies (#[trigger] groups@[m]).main@ == rs[idx[m]] && (!res[idx[m]].1
                ==> groups@[m].worktrees.len() == 0) && (res[idx[m]].1 ==> exists|j: int|
                k0 <= j && listed_at(host.events(), j, groups@[m].main@, groups@[m].worktrees@, *old(host))) by {
                assert(idx[m] == chosen@[m] as int);
                let g = groups@[m];
                if res[idx[m]].1 {
                    assert(res[chosen@[m] as int].1);
                    assert(k0 <= at[m] && listed_at(host.events(), at[m], groups@[m].main@, groups@[m].worktrees@, *old(host)));
                }
            }
            assert(grouped(rs, outs, host.events(), k0 as int, groups@, *old(host)));
        }
    }
    Ok(groups)
}

} // verus!
