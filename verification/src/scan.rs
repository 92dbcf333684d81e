//! Finding the developer's repositories: walk the configured roots, merge in
//! the manually added ones, and remember the result in a JSON cache so that
//! opening the picker never waits on the disk. Rescanning is explicit: the
//! picker's ←, never a timer.

use vstd::prelude::*;
use crate::config::Config;
use crate::group::{self, Group, Worktree};
use crate::host::{
    extends, lemma_extends_trans, lemma_quietly_push, lemma_quietly_same, lemma_quietly_trans, quietly, Error, Event, Host,
    Output,
};
use crate::json::{self, Json, json_value, member};
use crate::path::{self, base_name, file_name, parent, within, texts, ordered};
use crate::text;

verus! {

/// A project: one main checkout and the worktrees that are the same
/// repository in another state.
#[derive(Debug, Clone, PartialEq, Eq)]
pub struct Project {
    /// The directory name, prefixed with its parent when that alone collides.
    pub name: String,
    pub path: String,
    pub worktrees: Vec<Worktree>,
}

impl Project {
    /// The main checkout, or one of its worktrees.
    pub fn dir(&self, worktree: Option<usize>) -> (r: &str)
        requires
            worktree matches Some(i) ==> i < self.worktrees.len(),
        ensures
            r@ == match worktree {
                Some(i) => self.worktrees[i as int].path@,
                None => self.path@,
            },
    {
        match worktree {
            Some(child) => self.worktrees[child].path.as_str(),
            None => self.path.as_str(),
        }
    }
}


/// A directory's name, or the whole path when it has none.
pub open spec fn label(p: Seq<char>) -> Seq<char> {
    match file_name(p) {
        Some(n) => n,
        None => p,
    }
}

/// A project's name among `mains`: its directory's name, prefixed with its
/// parent's when another main checkout has the same one.
pub open spec fn project_name(mains: Seq<Seq<char>>, main: Seq<char>) -> Seq<char> {
    let bare = label(main);
    let collides = exists|j: int|
        0 <= j < mains.len() && #[trigger] mains[j] != main && label(mains[j]) == bare;
    match parent(main) {
        Some(up) => if collides {
            label(up) + seq!['/'] + bare
        } else {
            bare
        },
        None => bare,
    }
}

fn label_of(p: &str) -> (r: String)
    ensures
        r@ == label(p@),
{
    match path::file_name_of(p) {
        Some(n) => n,
        None => p.to_owned(),
    }
}

/// Directory names, disambiguated by their parent where two roots hold the
/// same name — `work/api` and `personal/api`, but a lone `vibestation` stays
/// bare.
pub fn name(groups: Vec<Group>) -> (r: Vec<Project>)
    ensures
        r.len() == groups.len(),
        forall|i: int|
            0 <= i < r.len() ==> {
                &&& (#[trigger] r[i]).path == groups[i].main
                &&& r[i].worktrees == groups[i].worktrees
                &&& r[i].name@ == project_name(groups@.map_values(|g: Group| g.main@), groups[i].main@)
            },
{
    let ghost mains = groups@.map_values(|g: Group| g.main@);
    let mut labels: Vec<String> = Vec::new();
    let mut names: Vec<String> = Vec::new();
    let mut i: usize = 0;
    while i < groups.len()
        invariant
            i <= groups.len(),
            labels.len() == i,
            mains == groups@.map_values(|g: Group| g.main@),
            forall|k: int| 0 <= k < i ==> (#[trigger] labels[k])@ == label(groups[k].main@),
        decreases groups.len() - i,
    {
        labels.push(label_of(groups[i].main.as_str()));
        i += 1;
    }
    i = 0;
    while i < groups.len()
        invariant
            i <= groups.len(),
            labels.len() == groups.len(),
            names.len() == i,
            mains == groups@.map_values(|g: Group| g.main@),
            forall|k: int| 0 <= k < groups.len() ==> (#[trigger] labels[k])@ == label(groups[k].main@),
            forall|k: int| 0 <= k < i ==> (#[trigger] names[k])@ == project_name(mains, groups[k].main@),
        decreases groups.len() - i,
    {
        let mut collides = false;
        let mut j: usize = 0;
        while j < groups.len()
            invariant
                i < groups.len(),
                j <= groups.len(),
                labels.len() == groups.len(),
                mains == groups@.map_values(|g: Group| g.main@),
                forall|k: int| 0 <= k < groups.len() ==> (#[trigger] labels[k])@ == label(groups[k].main@),
                collides <==> exists|m: int|
                    0 <= m < j && #[trigger] mains[m] != groups[i as int].main@ && label(mains[m])
                        == label(groups[i as int].main@),
            decreases groups.len() - j,
        {
            proof {
                assert(mains[j as int] == groups@[j as int].main@);
            }
            if !text::same(groups[j].main.as_str(), groups[i].main.as_str()) && text::same(
                labels[j].as_str(),
                labels[i].as_str(),
            ) {
                collides = true;
            }
            j += 1;
        }
        let bare = labels[i].clone();
        let n = match path::parent_of(groups[i].main.as_str()) {
            Some(up) => if collides {
                let mut n = label_of(up.as_str());
                text::push_char(&mut n, '/');
                text::push_str(&mut n, bare.as_str());
                n
            } else {
                bare
            },
            None => bare,
        };
        names.push(n);
        i += 1;
    }
    let mut r: Vec<Project> = Vec::new();
    let mut rest = groups;
    let ghost all = rest@;
    let mut k: usize = 0;
    while rest.len() > 0
        invariant
            all == groups@,
            names.len() == all.len(),
            forall|m: int| 0 <= m < all.len() ==> (#[trigger] names[m])@ == project_name(mains, all[m].main@),
            k == all.len() - rest.len(),
            rest@ == all.skip(k as int),
            r.len() == k,
            forall|m: int|
                0 <= m < k ==> {
                    &&& (#[trigger] r[m]).path == all[m].main
                    &&& r[m].worktrees == all[m].worktrees
                    &&& r[m].name@ == project_name(mains, all[m].main@)
                },
        decreases rest.len(),
    {
        let g = rest.remove(0);
        assert(g == all[k as int]);
        assert(rest@ == all.skip(k + 1));
        r.push(Project { name: names[k].clone(), path: g.main, worktrees: g.worktrees });
        k += 1;
    }
    r
}


/// `j` holds the worktree `w`.
pub open spec fn worktree_in(j: Json, w: Worktree) -> bool {
    &&& j is Object
    &&& member(j->Object_0@, "path"@) == Some(Json::Text(w.path))
    &&& member(j->Object_0@, "branch"@) == Some(Json::Text(w.branch))
}

/// `j` holds a worktree.
pub open spec fn worktree_ok(j: Json) -> bool {
    &&& j is Object
    &&& member(j->Object_0@, "path"@) matches Some(Json::Text(_))
    &&& member(j->Object_0@, "branch"@) matches Some(Json::Text(_))
}

/// `j` holds the project `p`. A project with no `worktrees` member has none.
pub open spec fn project_in(j: Json, p: Project) -> bool {
    &&& j is Object
    &&& member(j->Object_0@, "name"@) == Some(Json::Text(p.name))
    &&& member(j->Object_0@, "path"@) == Some(Json::Text(p.path))
    &&& match member(j->Object_0@, "worktrees"@) {
        None => p.worktrees@.len() == 0,
        Some(Json::Array(items)) => items@.len() == p.worktrees@.len() && forall|i: int|
            0 <= i < items@.len() ==> #[trigger] worktree_in(items@[i], p.worktrees@[i]),
        _ => false,
    }
}

/// `j` holds a project.
pub open spec fn project_ok(j: Json) -> bool {
    &&& j is Object
    &&& member(j->Object_0@, "name"@) matches Some(Json::Text(_))
    &&& member(j->Object_0@, "path"@) matches Some(Json::Text(_))
    &&& match member(j->Object_0@, "worktrees"@) {
        None => true,
        Some(Json::Array(items)) => all_worktrees_ok(items),
        _ => false,
    }
}

pub open spec fn all_worktrees_ok(items: Vec<Json>) -> bool {
    forall|i: int| 0 <= i < items@.len() ==> #[trigger] worktree_ok(items@[i])
}

/// `j` is a cache listing exactly `ps`.
pub open spec fn cache_in(j: Json, ps: Seq<Project>) -> bool {
    &&& j is Array
    &&& j->Array_0@.len() == ps.len()
    &&& forall|i: int| 0 <= i < ps.len() ==> #[trigger] project_in(j->Array_0@[i], ps[i])
}

/// `j` is a cache: a list of projects.
pub open spec fn cache_ok(j: Json) -> bool {
    &&& j is Array
    &&& all_projects_ok(j->Array_0)
}

pub open spec fn all_projects_ok(items: Vec<Json>) -> bool {
    forall|i: int| 0 <= i < items@.len() ==> #[trigger] project_ok(items@[i])
}

fn text_member(m: &Vec<(String, Json)>, key: &str) -> (r: Option<String>)
    ensures
        match r {
            Some(s) => member(m@, key@) == Some(Json::Text(s)),
            None => !(member(m@, key@) matches Some(Json::Text(_))),
        },
{
    match json::find(m, key) {
        Some(Json::Text(s)) => Some(s.clone()),
        _ => None,
    }
}

fn worktree_of(j: &Json) -> (r: Option<Worktree>)
    ensures
        match r {
            Some(w) => worktree_in(*j, w),
            None => !worktree_ok(*j),
        },
{
    match j {
        Json::Object(m) => match (text_member(m, "path"), text_member(m, "branch")) {
            (Some(path), Some(branch)) => Some(Worktree { path, branch }),
            _ => None,
        },
        _ => None,
    }
}

fn project_of(j: &Json) -> (r: Option<Project>)
    ensures
        r is Some ==> project_in(*j, r->Some_0),
        r is None ==> !project_ok(*j),
{
    match j {
        Json::Object(m) => {
            let name = match text_member(m, "name") {
                Some(n) => n,
                None => return None,
            };
            let path = match text_member(m, "path") {
                Some(p) => p,
                None => return None,
            };
            let worktrees = match json::find(m, "worktrees") {
                None => Vec::new(),
                Some(Json::Array(items)) => {
                    let mut w: Vec<Worktree> = Vec::new();
                    let mut i: usize = 0;
                    while i < items.len()
                        invariant
                            i <= items.len(),
                            w.len() == i,
                            *j == Json::Object(*m),
                            member(m@, "worktrees"@) == Some(Json::Array(*items)),
                            forall|k: int| 0 <= k < i ==> #[trigger] worktree_in(items@[k], w@[k]),
                        decreases items.len() - i,
                    {
                        match worktree_of(&items[i]) {
                            Some(t) => w.push(t),
                            None => {
                                assert(!worktree_ok(items@[i as int]));
                                assert(j->Object_0 == *m);
                                assert(member(j->Object_0@, "worktrees"@) == Some(Json::Array(*items)));
                                assert(!(forall|k: int| 0 <= k < items@.len() ==> #[trigger] worktree_ok(items@[k])));
                                assert(!all_worktrees_ok(*items));
                                assert(!project_ok(*j));
                                return None;
                            },
                        }
                        i += 1;
                    }
                    w
                },
                Some(_) => return None,
            };
            Some(Project { name, path, worktrees })
        },
        _ => None,
    }
}

/// A cache listing projects is a cache.
proof fn lemma_cache_in_ok(j: Json, ps: Seq<Project>)
    requires
        cache_in(j, ps),
    ensures
        cache_ok(j),
{
    assert forall|i: int| 0 <= i < j->Array_0@.len() implies #[trigger] project_ok(j->Array_0@[i]) by {
        assert(project_in(j->Array_0@[i], ps[i]));
        let m = j->Array_0@[i]->Object_0@;
        if member(m, "worktrees"@) is Some {
            let items = member(m, "worktrees"@)->Some_0->Array_0;
            assert forall|k: int| 0 <= k < items@.len() implies #[trigger] worktree_ok(items@[k]) by {
                assert(worktree_in(items@[k], ps[i].worktrees@[k]));
            }
        }
    }
}

/// What the cache is written from reads back as the same projects: the
/// cache's shape round-trips.
pub proof fn lemma_cache_round_trip(j: Json, ps: Seq<Project>)
    requires
        encodes(j, ps),
    ensures
        cache_in(j, ps),
        cache_ok(j),
{
    assert forall|i: int| 0 <= i < ps.len() implies #[trigger] project_in(j->Array_0@[i], ps[i]) by {
        let o = j->Array_0@[i]->Object_0@;
        assert(project_json(j->Array_0@[i], ps[i]));
        assert(member(o, "name"@) == Some(Json::Text(ps[i].name)));
        assert(o.drop_first()[0] == o[1]);
        assert(o.drop_first().drop_first()[0] == o[2]);
        reveal_strlit("name");
        reveal_strlit("path");
        reveal_strlit("worktrees");
        assert("name"@ != "path"@) by {
            assert("name"@[0] != "path"@[0]);
        }
        assert("name"@ != "worktrees"@) by {
            assert("name"@[0] != "worktrees"@[0]);
        }
        assert("path"@ != "worktrees"@) by {
            assert("path"@[0] != "worktrees"@[0]);
        }
        assert(member(o.drop_first(), "path"@) == Some(o[1].1));
        assert(member(o, "path"@) == Some(Json::Text(ps[i].path)));
        assert(member(o.drop_first().drop_first(), "worktrees"@) == Some(o[2].1));
        assert(member(o.drop_first(), "worktrees"@) == Some(o[2].1));
        assert(member(o, "worktrees"@) == Some(o[2].1));
        let items = o[2].1->Array_0;
        assert forall|k: int| 0 <= k < items@.len() implies #[trigger] worktree_in(items@[k], ps[i].worktrees@[k]) by {
            let w = items@[k]->Object_0@;
            assert(worktree_json(items@[k], ps[i].worktrees@[k]));
            assert(w.drop_first()[0] == w[1]);
            reveal_strlit("branch");
            assert("branch"@ != "path"@) by {
                assert("branch"@[0] != "path"@[0]);
            }
            assert(member(w.drop_first(), "path"@) == Some(w[1].1));
            assert(member(w, "path"@) == Some(Json::Text(ps[i].worktrees@[k].path)));
            assert(member(w, "branch"@) == Some(Json::Text(ps[i].worktrees@[k].branch)));
        }
    }
    lemma_cache_in_ok(j, ps);
}

/// The projects a cache holds, when it holds a list of them.
pub fn projects_of(j: &Json) -> (r: Option<Vec<Project>>)
    ensures
        match r {
            Some(ps) => cache_in(*j, ps@),
            None => !cache_ok(*j),
        },
{
    match j {
        Json::Array(items) => {
            let mut ps: Vec<Project> = Vec::new();
            let mut i: usize = 0;
            while i < items.len()
                invariant
                    i <= items.len(),
                    ps.len() == i,
                    *j == Json::Array(*items),
                    forall|k: int| 0 <= k < i ==> #[trigger] project_in(items@[k], ps@[k]),
                decreases items.len() - i,
            {
                match project_of(&items[i]) {
                    Some(p) => ps.push(p),
                    None => {
                        assert(!project_ok(items@[i as int]));
                        assert(!all_projects_ok(*items));
                        return None;
                    },
                }
                i += 1;
            }
            Some(ps)
        },
        _ => None,
    }
}

/// `j` is what the cache is written from: each project's name, path and
/// worktrees, each worktree's branch and path, members in name order.
pub open spec fn encodes(j: Json, ps: Seq<Project>) -> bool {
    &&& j is Array
    &&& j->Array_0@.len() == ps.len()
    &&& forall|i: int| 0 <= i < ps.len() ==> #[trigger] project_json(j->Array_0@[i], ps[i])
}

pub open spec fn project_json(j: Json, p: Project) -> bool {
    &&& j is Object
    &&& j->Object_0@.len() == 3
    &&& j->Object_0@[0].0@ == "name"@ && j->Object_0@[0].1 == Json::Text(p.name)
    &&& j->Object_0@[1].0@ == "path"@ && j->Object_0@[1].1 == Json::Text(p.path)
    &&& j->Object_0@[2].0@ == "worktrees"@
    &&& j->Object_0@[2].1 is Array
    &&& j->Object_0@[2].1->Array_0@.len() == p.worktrees@.len()
    &&& forall|k: int|
        0 <= k < p.worktrees@.len() ==> #[trigger] worktree_json(
            j->Object_0@[2].1->Array_0@[k],
            p.worktrees@[k],
        )
}

pub open spec fn worktree_json(j: Json, w: Worktree) -> bool {
    &&& j is Object
    &&& j->Object_0@.len() == 2
    &&& j->Object_0@[0].0@ == "branch"@ && j->Object_0@[0].1 == Json::Text(w.branch)
    &&& j->Object_0@[1].0@ == "path"@ && j->Object_0@[1].1 == Json::Text(w.path)
}

/// The projects as the cache's JSON.
pub fn to_json(ps: &Vec<Project>) -> (r: Json)
    ensures
        encodes(r, ps@),
{
    let mut items: Vec<Json> = Vec::new();
    let mut i: usize = 0;
    while i < ps.len()
        invariant
            i <= ps.len(),
            items.len() == i,
            forall|k: int| 0 <= k < i ==> #[trigger] project_json(items@[k], ps@[k]),
        decreases ps.len() - i,
    {
        let p = &ps[i];
        let mut ws: Vec<Json> = Vec::new();
        let mut k: usize = 0;
        while k < p.worktrees.len()
            invariant
                k <= p.worktrees.len(),
                ws.len() == k,
                forall|m: int| 0 <= m < k ==> #[trigger] worktree_json(ws@[m], p.worktrees@[m]),
            decreases p.worktrees.len() - k,
        {
            let w = &p.worktrees[k];
            let mut m: Vec<(String, Json)> = Vec::new();
            m.push((String::from_str("branch"), Json::Text(w.branch.clone())));
            m.push((String::from_str("path"), Json::Text(w.path.clone())));
            ws.push(Json::Object(m));
            k += 1;
        }
        let mut m: Vec<(String, Json)> = Vec::new();
        m.push((String::from_str("name"), Json::Text(p.name.clone())));
        m.push((String::from_str("path"), Json::Text(p.path.clone())));
        m.push((String::from_str("worktrees"), Json::Array(ws)));
        items.push(Json::Object(m));
        i += 1;
    }
    Json::Array(items)
}

/// The repositories found so far, and then those among `dirs` (in path
/// order) that have a `.git` and lie below none found before them.
pub open spec fn chosen(found: Seq<Seq<char>>, dirs: Seq<Seq<char>>, git: Seq<bool>) -> Seq<Seq<char>>
    decreases dirs.len(),
{
    if dirs.len() == 0 || git.len() == 0 {
        found
    } else {
        let f = chosen(found, dirs.drop_last(), git.drop_last());
        let d = dirs.last();
        if git.last() && !exists|k: int| 0 <= k < f.len() && within(d, #[trigger] f[k]) {
            f.push(d)
        } else {
            f
        }
    }
}

/// No path of `s` lies within another of its paths.
pub open spec fn flat(s: Seq<Seq<char>>) -> bool {
    forall|i: int, j: int| 0 <= i < s.len() && 0 <= j < s.len() && i != j ==> !within(#[trigger] s[i], #[trigger] s[j])
}

proof fn lemma_prefix_before(base: Seq<char>, p: Seq<char>)
    requires
        base.len() < p.len(),
        p.take(base.len() as int) == base,
    ensures
        path::before(base, p),
    decreases base.len(),
{
    if base.len() > 0 {
        assert(p[0] == base[0]) by {
            assert(p.take(base.len() as int)[0] == p[0]);
        }
        assert(p.drop_first().take(base.drop_first().len() as int) =~= base.drop_first()) by {
            assert forall|k: int| 0 <= k < base.len() - 1 implies p.drop_first()[k] == base.drop_first()[k] by {
                assert(p.take(base.len() as int)[k + 1] == p[k + 1]);
            }
        }
        lemma_prefix_before(base.drop_first(), p.drop_first());
    }
}

proof fn lemma_chosen_from(dirs: Seq<Seq<char>>, git: Seq<bool>, x: Seq<char>)
    requires
        chosen(Seq::empty(), dirs, git).contains(x),
    ensures
        dirs.contains(x),
    decreases dirs.len(),
{
    if dirs.len() > 0 && git.len() > 0 {
        let f = chosen(Seq::empty(), dirs.drop_last(), git.drop_last());
        if f.contains(x) {
            lemma_chosen_from(dirs.drop_last(), git.drop_last(), x);
            let k = choose|k: int| 0 <= k < dirs.drop_last().len() && dirs.drop_last()[k] == x;
            assert(dirs[k] == x);
        } else {
            assert(x == dirs.last());
            assert(dirs[dirs.len() - 1] == x);
        }
    }
}

/// The topmost repository wins: of the directories one walk gives, in path
/// order, no repository kept lies inside another kept one, so submodules and
/// vendored copies below a repository never make the list; and every one
/// kept is a directory the walk gave.
pub proof fn lemma_topmost_repository_wins(dirs: Seq<Seq<char>>, git: Seq<bool>)
    requires
        ordered(dirs),
        forall|k: int| 0 <= k < dirs.len() ==> path::unslashed(#[trigger] dirs[k]) == dirs[k],
    ensures
        flat(chosen(Seq::empty(), dirs, git)),
        forall|x: Seq<char>| #[trigger] chosen(Seq::empty(), dirs, git).contains(x) ==> dirs.contains(x),
    decreases dirs.len(),
{
    assert forall|x: Seq<char>| #[trigger] chosen(Seq::empty(), dirs, git).contains(x) implies dirs.contains(x) by {
        lemma_chosen_from(dirs, git, x);
    }
    if dirs.len() > 0 && git.len() > 0 {
        let d = dirs.last();
        let rest = dirs.drop_last();
        assert(forall|k: int| 0 <= k < rest.len() ==> path::unslashed(#[trigger] rest[k]) == rest[k]) by {
            assert forall|k: int| 0 <= k < rest.len() implies path::unslashed(#[trigger] rest[k]) == rest[k] by {
                assert(rest[k] == dirs[k]);
            }
        }
        assert(ordered(rest)) by {
            assert forall|i: int, j: int| 0 <= i < j < rest.len() implies path::before(#[trigger] rest[i], #[trigger] rest[j]) by {
                assert(rest[i] == dirs[i] && rest[j] == dirs[j]);
            }
        }
        lemma_topmost_repository_wins(rest, git.drop_last());
        let f = chosen(Seq::empty(), rest, git.drop_last());
        if git.last() && !exists|k: int| 0 <= k < f.len() && within(d, #[trigger] f[k]) {
            let g = f.push(d);
            assert forall|i: int, j: int| 0 <= i < g.len() && 0 <= j < g.len() && i != j implies !within(
                #[trigger] g[i],
                #[trigger] g[j],
            ) by {
                if i < f.len() && j < f.len() {
                    assert(g[i] == f[i] && g[j] == f[j]);
                } else if i == f.len() {
                    assert(g[j] == f[j]);
                } else {
                    assert(g[i] == f[i]);
                    assert(g[j] == d);
                    assert(f.contains(f[i]));
                    lemma_chosen_from(rest, git.drop_last(), f[i]);
                    let m = choose|m: int| 0 <= m < rest.len() && rest[m] == f[i];
                    assert(path::before(dirs[m], dirs[dirs.len() - 1]));
                    assert(path::unslashed(dirs[m]) == dirs[m]);
                    assert(path::unslashed(d) == d);
                    if within(f[i], d) {
                        if f[i] == d {
                            path::lemma_before_irreflexive(d);
                        } else {
                            assert(f[i].take(f[i].len() as int) =~= f[i]);
                            lemma_prefix_before(d, f[i]);
                            path::lemma_before_asymmetric(d, f[i]);
                        }
                    }
                }
            }
        }
    }
}

/// Walking a root: keep each directory with a `.git` that is not inside a
/// repository already kept — the topmost repository wins, so submodules and
/// vendored copies below one never make the list.
pub fn choose_repos(found: &mut Vec<String>, dirs: &Vec<String>, git: &Vec<bool>)
    requires
        dirs.len() == git.len(),
    ensures
        texts(final(found)@) == chosen(texts(old(found)@), texts(dirs@), git@),
{
    let mut i: usize = 0;
    while i < dirs.len()
        invariant
            i <= dirs.len(),
            dirs.len() == git.len(),
            texts(found@) == chosen(texts(old(found)@), texts(dirs@).take(i as int), git@.take(i as int)),
        decreases dirs.len() - i,
    {
        assert(texts(dirs@).take(i + 1).drop_last() == texts(dirs@).take(i as int));
        assert(git@.take(i + 1).drop_last() == git@.take(i as int));
        let d = dirs[i].as_str();
        if git[i] {
            let mut nested = false;
            let mut k: usize = 0;
            while k < found.len()
                invariant
                    k <= found.len(),
                    nested <==> exists|m: int| 0 <= m < k && within(d@, #[trigger] texts(found@)[m]),
                decreases found.len() - k,
            {
                assert(texts(found@)[k as int] == found@[k as int]@);
                if path::is_within(d, found[k].as_str()) {
                    nested = true;
                }
                k += 1;
            }
            if !nested {
                let ghost f0 = texts(found@);
                found.push(dirs[i].clone());
                assert(texts(found@) == f0.push(d@));
            }
        }
        i += 1;
    }
    assert(texts(dirs@).take(dirs.len() as int) == texts(dirs@));
    assert(git@.take(dirs.len() as int) == git@);
}

/// The repositories found, then each manually added one not among them.
pub open spec fn merged(found: Seq<Seq<char>>, extras: Seq<Seq<char>>) -> Seq<Seq<char>>
    decreases extras.len(),
{
    if extras.len() == 0 {
        found
    } else {
        let f = merged(found, extras.drop_last());
        if f.contains(extras.last()) {
            f
        } else {
            f.push(extras.last())
        }
    }
}

pub fn merge_extras(found: &mut Vec<String>, extras: &Vec<String>)
    ensures
        texts(final(found)@) == merged(texts(old(found)@), texts(extras@)),
{
    let mut i: usize = 0;
    while i < extras.len()
        invariant
            i <= extras.len(),
            texts(found@) == merged(texts(old(found)@), texts(extras@).take(i as int)),
        decreases extras.len() - i,
    {
        assert(texts(extras@).take(i + 1).drop_last() == texts(extras@).take(i as int));
        if !crate::config::listed_in(found, extras[i].as_str()) {
            let ghost f0 = texts(found@);
            found.push(extras[i].clone());
            assert(texts(found@) == f0.push(extras@[i as int]@));
        }
        i += 1;
    }
    assert(texts(extras@).take(extras.len() as int) == texts(extras@));
}

/// Where the cache lives, below the home directory.
pub open spec fn cache_file(home: Result<Seq<char>, Error>) -> Result<Seq<char>, Error> {
    match home {
        Ok(h) => Ok(path::join(h, ".vibestation/projects-cache.json"@)),
        Err(e) => Err(e),
    }
}

/// `~/.vibestation/projects-cache.json`.
pub fn cache_path<H: Host>(host: &H) -> (r: Result<String, Error>)
    ensures
        H::obeys_model() ==> (crate::host::text_view(r) == cache_file(host.home_dir_of())),
{
    let home = host.home()?;
    Ok(path::join_paths(home.as_str(), ".vibestation/projects-cache.json"))
}

/// The projects the groups become: one each, in order, named among the
/// others.
pub open spec fn named_as(gs: Seq<Group>, ps: Seq<Project>) -> bool {
    &&& ps.len() == gs.len()
    &&& forall|i: int|
        0 <= i < ps.len() ==> {
            &&& (#[trigger] ps[i]).path == gs[i].main
            &&& ps[i].worktrees == gs[i].worktrees
            &&& ps[i].name@ == project_name(gs.map_values(|g: Group| g.main@), gs[i].main@)
        }
}

/// One root's walk: the directories `w` that walking `root` gives, put in
/// path order as `dirs`, and of those the repositories [`chosen`] keeps
/// after `prev`, a directory counting as one when its `.git` is there.
pub open spec fn walk_step<H: Host>(
    host: H,
    root: Seq<char>,
    depth: nat,
    prev: Seq<Seq<char>>,
    w: Seq<Seq<char>>,
    dirs: Seq<Seq<char>>,
    found: Seq<Seq<char>>,
) -> bool {
    &&& host.walked(root, depth, w)
    &&& ordered(dirs)
    &&& forall|x: Seq<char>| #[trigger] dirs.contains(x) <==> w.contains(x)
    &&& found == chosen(prev, dirs, dirs.map_values(|d: Seq<char>| host.present_at(path::join(d, ".git"@))))
}

/// The repositories walking `roots` in order finds, the topmost of each
/// nest of them.
pub open spec fn walk_found<H: Host>(host: H, roots: Seq<Seq<char>>, depth: nat, found: Seq<Seq<char>>) -> bool
    decreases roots.len(),
{
    if roots.len() == 0 {
        found.len() == 0
    } else {
        exists|prev: Seq<Seq<char>>, w: Seq<Seq<char>>, dirs: Seq<Seq<char>>|
            #[trigger] walk_step(host, roots.last(), depth, prev, w, dirs, found) && walk_found(
                host,
                roots.drop_last(),
                depth,
                prev,
            )
    }
}

/// What a scan gives, as far as the host shows it: the repositories walking
/// `roots` finds, then each manually added one not among them, asked git
/// about, grouped and named.
pub open spec fn scanned<H: Host>(
    host: H,
    roots: Seq<Seq<char>>,
    depth: nat,
    extras: Seq<Seq<char>>,
    after: Seq<Event>,
    ps: Seq<Project>,
) -> bool {
    exists|found: Seq<Seq<char>>, outs: Seq<Output>, lo: int, gs: Seq<Group>|
        #![trigger group::grouped(merged(found, extras), outs, after, lo, gs, host), walk_found(host, roots, depth, found)]
        {
            &&& walk_found(host, roots, depth, found)
            &&& group::grouped(merged(found, extras), outs, after, lo, gs, host)
            &&& named_as(gs, ps)
        }
}

proof fn lemma_scanned_extends<H: Host>(
    host: H,
    roots: Seq<Seq<char>>,
    depth: nat,
    extras: Seq<Seq<char>>,
    a: Seq<Event>,
    b: Seq<Event>,
    ps: Seq<Project>,
)
    requires
        scanned(host, roots, depth, extras, a, ps),
        extends(a, b),
    ensures
        scanned(host, roots, depth, extras, b, ps),
{
    let (found, outs, lo, gs) = choose|found: Seq<Seq<char>>, outs: Seq<Output>, lo: int, gs: Seq<Group>|
        #![trigger group::grouped(merged(found, extras), outs, a, lo, gs, host), walk_found(host, roots, depth, found)]
        {
            &&& walk_found(host, roots, depth, found)
            &&& group::grouped(merged(found, extras), outs, a, lo, gs, host)
            &&& named_as(gs, ps)
        };
    group::lemma_grouped_extends(merged(found, extras), outs, a, b, lo, gs, host);
}

/// Every manually added project is among what a scan asks git about.
pub proof fn lemma_extras_scanned(found: Seq<Seq<char>>, extras: Seq<Seq<char>>, x: Seq<char>)
    requires
        extras.contains(x),
    ensures
        merged(found, extras).contains(x),
{
    lemma_merged_holds(found, extras, x);
}

proof fn lemma_merged_holds(found: Seq<Seq<char>>, extras: Seq<Seq<char>>, x: Seq<char>)
    requires
        extras.contains(x) || found.contains(x),
    ensures
        merged(found, extras).contains(x),
    decreases extras.len(),
{
    if extras.len() > 0 {
        let f = merged(found, extras.drop_last());
        if x == extras.last() {
            if !f.contains(x) {
                assert(f.push(x)[f.len() as int] == x);
            }
        } else {
            if extras.contains(x) {
                let k = choose|k: int| 0 <= k < extras.len() && extras[k] == x;
                assert(extras.drop_last()[k] == x);
            }
            lemma_merged_holds(found, extras.drop_last(), x);
            if !f.contains(extras.last()) {
                let k = choose|k: int| 0 <= k < f.len() && f[k] == x;
                assert(f.push(extras.last())[k] == x);
            }
        }
    }
}

/// Every repository under the configured roots, plus the manually added ones,
/// collapsed into projects with their worktrees. Reads the filesystem and asks
/// git about each repository; never the network. Says how far it has got on
/// the status line, and clears it when done.
pub fn scan<H: Host>(host: &mut H, config: &Config) -> (r: Result<Vec<Project>, Error>)
    ensures
        H::obeys_model() ==> group::git_only(old(host).events(), final(host).events()),
        H::obeys_model() ==> (r matches Err(e) ==> final(host).events().len() > old(host).events().len()
            && group::failed_with(final(host).events().last(), e)),
        H::obeys_model() ==> crate::host::kept(*old(host), *final(host)),
        H::obeys_model() ==> quietly(old(host).events(), final(host).events()),
        H::obeys_model() ==> (r is Ok ==> final(host).events().len() > 0 && final(host).events().last() == Event::Status(
            Seq::empty(),
        )),
        H::obeys_model() ==> (r matches Ok(ps) ==> scanned(
            *old(host),
            texts(config.projects_dirs@),
            config.scan_depth as nat,
            texts(config.extra_projects@),
            final(host).events(),
            ps@,
        )),
{
    let ghost before = host.events();
    let ghost h0 = *host;
    let ghost roots = texts(config.projects_dirs@);
    let ghost depth = config.scan_depth as nat;
    proof {
        lemma_quietly_same(before);
    }
    let mut found: Vec<String> = Vec::new();
    let mut r: usize = 0;
    while r < config.projects_dirs.len()
        invariant
            before == old(host).events(),
            h0 == *old(host),
            roots == texts(config.projects_dirs@),
            depth == config.scan_depth as nat,
            r <= config.projects_dirs.len(),
            H::obeys_model() ==> quietly(before, host.events()),
            H::obeys_model() ==> group::git_only(before, host.events()),
            H::obeys_model() ==> walk_found(h0, roots.take(r as int), depth, texts(found@)),
            H::obeys_model() ==> crate::host::kept(h0, *host),
            H::obeys_model() ==> forall|p: Seq<char>| #[trigger] host.present_at(p) == h0.present_at(p),
            H::obeys_model() ==> forall|root: Seq<char>, d: nat, dirs: Seq<Seq<char>>|
                #[trigger] host.walked(root, d, dirs) == h0.walked(root, d, dirs),
        decreases config.projects_dirs.len() - r,
    {
        let root = config.projects_dirs[r].as_str();
        let mut line = String::from_str("scanning ");
        text::push_str(&mut line, root);
        text::push_char(&mut line, '…');
        let ghost e0 = host.events();
        host.status(line.as_str());
        proof {
            if H::obeys_model() {
                lemma_quietly_push(e0, host.events().last());
                lemma_quietly_trans(before, e0, host.events());
                group::lemma_git_only_push(e0, host.events().last());
                group::lemma_git_only_trans(before, e0, host.events());
            }
        }
        let walked = match host.walk(root, config.scan_depth) {
            Ok(w) => w,
            Err(e) => {
                return Err(e);
            },
        };
        let ghost w = texts(walked@);
        let mut dirs: Vec<String> = Vec::new();
        let mut k: usize = 0;
        while k < walked.len()
            invariant
                k <= walked.len(),
                w == texts(walked@),
                ordered(texts(dirs@)),
                forall|x: Seq<char>| #[trigger] texts(dirs@).contains(x) <==> w.take(k as int).contains(x),
            decreases walked.len() - k,
        {
            let ghost d0 = texts(dirs@);
            path::insert_ordered(&mut dirs, walked[k].clone());
            proof {
                assert forall|x: Seq<char>| #[trigger] texts(dirs@).contains(x) <==> w.take(k + 1).contains(x) by {
                    assert(w.take(k + 1) == w.take(k as int).push(w[k as int]));
                    if w.take(k as int).contains(x) {
                        let m = choose|m: int| 0 <= m < k && w.take(k as int)[m] == x;
                        assert(w.take(k + 1)[m] == x);
                    }
                    if x == w[k as int] {
                        assert(w.take(k + 1)[k as int] == x);
                    }
                }
            }
            k += 1;
        }
        assert(w.take(walked.len() as int) == w);
        let mut git: Vec<bool> = Vec::new();
        let mut k: usize = 0;
        proof {
            reveal_strlit(".git");
        }
        while k < dirs.len()
            invariant
                k <= dirs.len(),
                git.len() == k,
                H::obeys_model() ==> forall|p: Seq<char>| #[trigger] host.present_at(p) == h0.present_at(p),
                H::obeys_model() ==> forall|j: int|
                    0 <= j < k ==> git@[j] == h0.present_at(path::join(#[trigger] texts(dirs@)[j], ".git"@)),
            decreases dirs.len() - k,
        {
            let marker = path::join_paths(dirs[k].as_str(), ".git");
            assert(texts(dirs@)[k as int] == dirs@[k as int]@);
            git.push(host.path_exists(marker.as_str()));
            k += 1;
        }
        let ghost prev = texts(found@);
        choose_repos(&mut found, &dirs, &git);
        proof {
            if H::obeys_model() {
                let ds = texts(dirs@);
                assert(git@ =~= ds.map_values(|d: Seq<char>| h0.present_at(path::join(d, ".git"@))));
                assert(h0.walked(root@, depth, w));
                assert(walk_step(h0, root@, depth, prev, w, ds, texts(found@)));
                let rs = roots.take(r + 1);
                assert(rs.drop_last() =~= roots.take(r as int));
                assert(rs.last() == root@);
                assert(walk_found(h0, rs, depth, texts(found@)));
            }
        }
        r += 1;
    }
    let ghost f0 = texts(found@);
    assert(roots.take(config.projects_dirs.len() as int) =~= roots);
    merge_extras(&mut found, &config.extra_projects);
    let ghost e1 = host.events();
    let ghost h1 = *host;
    let grouped = group::group(host, &found);
    let ghost e2 = host.events();
    proof {
        if H::obeys_model() {
            lemma_quietly_trans(before, e1, e2);
            group::lemma_git_only_trans(before, e1, e2);
        }
    }
    let groups = match grouped {
        Ok(g) => g,
        Err(e) => {
            return Err(e);
        },
    };
    let ghost gs = groups@;
    host.status("");
    proof {
        reveal_strlit("");
    }
    assert(""@ =~= Seq::<char>::empty());
    let projects = name(groups);
    proof {
        if H::obeys_model() {
            lemma_quietly_push(e2, host.events().last());
            lemma_quietly_trans(before, e2, host.events());
            group::lemma_git_only_push(e2, host.events().last());
            group::lemma_git_only_trans(before, e2, host.events());
            let repos = texts(found@);
            let outs = choose|outs: Seq<Output>|
                #![trigger group::asking(texts(found@), outs, found.len() as nat)]
                {
                    let k = (e1.len() + group::asking(texts(found@), outs, found.len() as nat).len()) as int;
                    &&& outs.len() == found.len()
                    &&& e2.take(k) == e1 + group::asking(texts(found@), outs, found.len() as nat)
                    &&& group::grouped(texts(found@), outs, e2, k, gs, h1)
                };
            let lo = (e1.len() + group::asking(repos, outs, found.len() as nat).len()) as int;
            assert(group::grouped(repos, outs, e2, lo, gs, h1));
            group::lemma_grouped_extends(repos, outs, e2, host.events(), lo, gs, h1);
            group::lemma_grouped_same_host(repos, outs, host.events(), lo, gs, h1, h0);
            assert(named_as(gs, projects@));
            assert(walk_found(h0, roots, depth, f0));
            assert(group::grouped(merged(f0, texts(config.extra_projects@)), outs, host.events(), lo, gs, h0));
            assert(scanned(h0, roots, depth, texts(config.extra_projects@), host.events(), projects@));
        }
    }
    Ok(projects)
}

/// Scan the roots again and rewrite the cache: the picker's ←, and the only
/// thing that ever invalidates the cache.
/// The cache written last, holding exactly `ps`.
pub open spec fn cached(after: Seq<Event>, ps: Seq<Project>) -> bool {
    &&& after.len() > 0
    &&& after.last() matches Event::Wrote(f, t, w) && w is Ok && (exists|home: Seq<char>|
        f == path::join(home, ".vibestation/projects-cache.json"@)) && (exists|j: Json|
        #![trigger encodes(j, ps)]
        encodes(j, ps) && t == json::json_pretty(j).push('\n'))
}

pub fn rescan<H: Host>(host: &mut H, config: &Config) -> (r: Result<Vec<Project>, Error>)
    ensures
        H::obeys_model() ==> rescan_gave(*old(host), *config, old(host).events(), final(host).events(), r),
        H::obeys_model() ==> crate::host::same_place(*old(host), *final(host)),
        H::obeys_model() ==> forall|p: Seq<char>| cache_file(old(host).home_dir_of()) != Ok::<Seq<char>, Error>(p)
            ==> #[trigger] final(host).stored(p) == old(host).stored(p),
        H::obeys_model() ==> quietly(old(host).events(), final(host).events()),
        H::obeys_model() ==> (r matches Ok(ps) ==> cached(final(host).events(), ps@) && scanned(
            *old(host),
            texts(config.projects_dirs@),
            config.scan_depth as nat,
            texts(config.extra_projects@),
            final(host).events(),
            ps@,
        )),
{
    let projects = scan(host, config)?;
    let ghost e1 = host.events();
    let j = to_json(&projects);
    let mut contents = match json::pretty(&j) {
        Ok(t) => t,
        Err(e) => {
            let mut m = String::from_str("encoding the projects cache: ");
            text::push_str(&mut m, e.as_str());
            return Err(Error::Failed(m));
        },
    };
    text::push_char(&mut contents, '\n');
    let file = cache_path(host)?;
    let ghost home = host.home_dir_of()->Ok_0;
    assert(H::obeys_model() ==> file@ == path::join(home, ".vibestation/projects-cache.json"@));
    let written = host.write_file(file.as_str(), contents.as_str());
    proof {
        if H::obeys_model() {
            lemma_quietly_push(e1, host.events().last());
            lemma_quietly_trans(old(host).events(), e1, host.events());
            lemma_scanned_extends(
                *old(host),
                texts(config.projects_dirs@),
                config.scan_depth as nat,
                texts(config.extra_projects@),
                e1,
                host.events(),
                projects@,
            );
        }
    }
    written?;
    assert(encodes(j, projects@) && contents@ == json::json_pretty(j).push('\n'));
    Ok(projects)
}

/// How a rescan may fail, with the world as `h` has it: with no home
/// directory, or with the last request having failed — git could not be run,
/// or the cache could not be written.
pub open spec fn rescan_gave<H: Host>(
    h: H,
    config: Config,
    before: Seq<Event>,
    after: Seq<Event>,
    r: Result<Vec<Project>, Error>,
) -> bool {
    r matches Err(e) ==> {
        ||| h.home_dir_of() == Err::<Seq<char>, Error>(e)
        ||| after.len() > before.len() && group::failed_with(after.last(), e)
        ||| after.len() > before.len() && after.last() == Event::Wrote(after.last()->Wrote_0, after.last()->Wrote_1, Err(e))
    }
}

/// What [`load_or_scan`] does with the world as `h` has it: a cache that
/// reads as projects is taken as it is, with nothing asked of anyone; no
/// cache, or one that does not read, is rescanned and written again.
pub open spec fn cache_loaded<H: Host>(
    h: H,
    config: Config,
    before: Seq<Event>,
    after: Seq<Event>,
    r: Result<Vec<Project>, Error>,
) -> bool {
    match cache_file(h.home_dir_of()) {
        Err(e) => after == before && r == Err::<Vec<Project>, Error>(e),
        Ok(f) => match h.stored(f) {
            Err(e) => after == before && r == Err::<Vec<Project>, Error>(e),
            Ok(Some(t)) => match json::json_value(t) {
                Some(j) => if cache_ok(j) {
                    &&& after == before
                    &&& r matches Ok(ps) && cache_in(j, ps@)
                } else {
                    rescan_gave(h, config, before, after, r) && (r matches Ok(ps) ==> cached(after, ps@) && scanned(
                        h,
                        texts(config.projects_dirs@),
                        config.scan_depth as nat,
                        texts(config.extra_projects@),
                        after,
                        ps@,
                    ))
                },
                None => rescan_gave(h, config, before, after, r) && (r matches Ok(ps) ==> cached(after, ps@) && scanned(
                    h,
                    texts(config.projects_dirs@),
                    config.scan_depth as nat,
                    texts(config.extra_projects@),
                    after,
                    ps@,
                )),
            },
            Ok(None) => rescan_gave(h, config, before, after, r) && (r matches Ok(ps) ==> cached(after, ps@) && scanned(
                h,
                texts(config.projects_dirs@),
                config.scan_depth as nat,
                texts(config.extra_projects@),
                after,
                ps@,
            )),
        },
    }
}

/// The cached projects, scanning and writing the cache when there is none. An
/// unreadable cache is rescanned rather than reported: it is derived data, and
/// the disk is the truth it was derived from.
pub fn load_or_scan<H: Host>(host: &mut H, config: &Config) -> (r: Result<Vec<Project>, Error>)
    ensures
        H::obeys_model() ==> cache_loaded(*old(host), *config, old(host).events(), final(host).events(), r),
        H::obeys_model() ==> crate::host::same_place(*old(host), *final(host)),
        H::obeys_model() ==> forall|p: Seq<char>| cache_file(old(host).home_dir_of()) != Ok::<Seq<char>, Error>(p)
            ==> #[trigger] final(host).stored(p) == old(host).stored(p),
        H::obeys_model() ==> quietly(old(host).events(), final(host).events()),
{
    proof {
        lemma_quietly_same(old(host).events());
    }
    let file = cache_path(host)?;
    if let Some(cached) = host.read_file(file.as_str())? {
        if let Some(j) = json::parse(cached.as_str()) {
            if let Some(projects) = projects_of(&j) {
                proof {
                    lemma_cache_in_ok(j, projects@);
                }
                return Ok(projects);
            }
        }
    }
    rescan(host, config)
}

} // verus!
