//! How often and how recently each project was opened, and the ranking that
//! falls out of it. `~/.vibestation/state.json`, one record per project.

use vstd::prelude::*;
use crate::host::{text_view, Error, Event, Host};
use crate::json::{self, Json, json_value, member};
use crate::scan::Project;
use crate::text;

verus! {

/// One project's history. Worktrees credit their project, so there is no
/// record per worktree.
#[derive(Debug, Clone, PartialEq, Eq)]
pub struct Open {
    pub path: String,
    pub count: u32,
    /// Seconds since the Unix epoch.
    pub last: u64,
}

pub const HOUR: u64 = 3600;

pub const DAY: u64 = 86400;

pub const WEEK: u64 = 604800;

/// zoxide's frecency, times four so that it is a whole number: the open
/// count, multiplied up while the last open is fresh and divided down as it
/// ages — ×4 within the hour, ×2 within the day, ×½ within the week, ×¼
/// after.
pub open spec fn weight(open: Open, now: u64) -> int {
    let age = if now >= open.last {
        now - open.last
    } else {
        0
    };
    if age < HOUR {
        16 * open.count
    } else if age < DAY {
        8 * open.count
    } else if age < WEEK {
        2 * open.count
    } else {
        open.count as int
    }
}

/// The weight of the first record for `path`, and nothing for a project
/// never opened.
pub open spec fn score(opens: Seq<Open>, path: Seq<char>, now: u64) -> int
    decreases opens.len(),
{
    if opens.len() == 0 {
        0
    } else if opens[0].path@ == path {
        weight(opens[0], now)
    } else {
        score(opens.drop_first(), path, now)
    }
}

/// `p` placed after every project of `ranked` that scores at least as much.
pub open spec fn place(ranked: Seq<Project>, p: Project, opens: Seq<Open>, now: u64) -> Seq<Project>
    decreases ranked.len(),
{
    if ranked.len() == 0 {
        seq![p]
    } else if score(opens, ranked.last().path@, now) < score(opens, p.path@, now) {
        place(ranked.drop_last(), p, opens, now).push(ranked.last())
    } else {
        ranked.push(p)
    }
}

/// Most-used-lately first; ties keep the order they came in.
pub open spec fn ranked(projects: Seq<Project>, opens: Seq<Open>, now: u64) -> Seq<Project>
    decreases projects.len(),
{
    if projects.len() == 0 {
        Seq::empty()
    } else {
        place(ranked(projects.drop_last(), opens, now), projects.last(), opens, now)
    }
}

/// The record a JSON object holds, when it holds one.
pub open spec fn open_from(j: Json) -> Option<Open> {
    match j {
        Json::Object(m) => match (member(m@, "path"@), member(m@, "count"@), member(m@, "last"@)) {
            (Some(Json::Text(p)), Some(Json::Number(Some(c))), Some(Json::Number(Some(l)))) => if c
                <= u32::MAX {
                Some(Open { path: p, count: c as u32, last: l })
            } else {
                None
            },
            _ => None,
        },
        _ => None,
    }
}

/// Every record, or `None` when any one of them is not one.
pub open spec fn opens_from(items: Seq<Json>) -> Option<Seq<Open>>
    decreases items.len(),
{
    if items.len() == 0 {
        Some(Seq::empty())
    } else {
        match (opens_from(items.drop_last()), open_from(items.last())) {
            (Some(s), Some(o)) => Some(s.push(o)),
            _ => None,
        }
    }
}

/// The history a state file holds: none when it is not the JSON of a list
/// of records.
pub open spec fn history(text: Seq<char>) -> Seq<Open> {
    match json_value(text) {
        Some(Json::Array(items)) => match opens_from(items@) {
            Some(s) => s,
            None => Seq::empty(),
        },
        _ => Seq::empty(),
    }
}

/// `j` is the JSON of `opens`: a list of objects, each with its count, its
/// last open and its path, members in name order.
pub open spec fn encodes(j: Json, opens: Seq<Open>) -> bool {
    match j {
        Json::Array(items) => items@.len() == opens.len() && forall|i: int|
            0 <= i < opens.len() ==> #[trigger] record_json(items@[i], opens[i]),
        _ => false,
    }
}

/// `j` is the JSON of one record.
pub open spec fn record_json(j: Json, o: Open) -> bool {
    match j {
        Json::Object(m) => m@.len() == 3 && m@[0].0@ == "count"@ && m@[0].1 == Json::Number(
            Some(o.count as u64),
        ) && m@[1].0@ == "last"@ && m@[1].1 == Json::Number(Some(o.last)) && m@[2].0@ == "path"@
            && m@[2].1 == Json::Text(o.path),
        _ => false,
    }
}

/// Where the history lives, below the home directory.
pub open spec fn state_file(home: Result<Seq<char>, Error>) -> Result<Seq<char>, Error> {
    match home {
        Ok(h) => Ok(crate::path::join(h, ".vibestation/state.json"@)),
        Err(e) => Err(e),
    }
}

/// The history the host holds: none when there is no file.
pub open spec fn stored_history<H: Host>(host: H) -> Result<Seq<Open>, Error> {
    match state_file(host.home_dir_of()) {
        Err(e) => Err(e),
        Ok(f) => match host.stored(f) {
            Err(e) => Err(e),
            Ok(Some(t)) => Ok(history(t)),
            Ok(None) => Ok(Seq::empty()),
        },
    }
}

/// `~/.vibestation/state.json`.
pub fn path<H: Host>(host: &H) -> (r: Result<String, Error>)
    ensures
        H::obeys_model() ==> (text_view(r) == state_file(host.home_dir_of())),
{
    let home = host.home()?;
    Ok(crate::path::join_paths(home.as_str(), ".vibestation/state.json"))
}

fn weight_of(open: &Open, now: u64) -> (r: u64)
    ensures
        r as int == weight(*open, now),
{
    let age = if now >= open.last {
        now - open.last
    } else {
        0
    };
    let count = open.count as u64;
    if age < HOUR {
        16 * count
    } else if age < DAY {
        8 * count
    } else if age < WEEK {
        2 * count
    } else {
        count
    }
}

fn score_of(opens: &[Open], path: &str, now: u64) -> (r: u64)
    ensures
        r as int == score(opens@, path@, now),
{
    let mut i: usize = 0;
    assert(opens@.skip(0) == opens@);
    while i < opens.len()
        invariant
            i <= opens.len(),
            score(opens@, path@, now) == score(opens@.skip(i as int), path@, now),
        decreases opens.len() - i,
    {
        assert(opens@.skip(i as int).drop_first() == opens@.skip(i + 1));
        if text::same(opens[i].path.as_str(), path) {
            return weight_of(&opens[i], now);
        }
        i += 1;
    }
    0
}

/// Most-used-lately first. Ties — including everything never opened — keep
/// the order they were discovered in.
pub fn rank(projects: Vec<Project>, opens: &[Open], now: u64) -> (r: Vec<Project>)
    ensures
        r@ == ranked(projects@, opens@, now),
{
    let mut rest = projects;
    let mut done: Vec<Project> = Vec::new();
    let ghost all = rest@;
    while rest.len() > 0
        invariant
            all == projects@,
            rest.len() <= all.len(),
            rest@ == all.skip(all.len() - rest.len()),
            done@ == ranked(all.take(all.len() - rest.len()), opens@, now),
        decreases rest.len(),
    {
        let ghost k = all.len() - rest.len();
        let p = rest.remove(0);
        assert(p == all[k]);
        assert(rest@ == all.skip(k + 1));
        assert(all.take(k + 1).drop_last() == all.take(k));
        let s = score_of(opens, p.path.as_str(), now);
        let mut at = done.len();
        assert(done@.take(done.len() as int) == done@);
        assert(done@.skip(done.len() as int) == Seq::<Project>::empty());
        while at > 0 && score_of(opens, done[at - 1].path.as_str(), now) < s
            invariant
                at <= done.len(),
                s as int == score(opens@, p.path@, now),
                place(done@, p, opens@, now) == place(done@.take(at as int), p, opens@, now) + done@.skip(at as int),
            decreases at,
        {
            proof {
                let t = done@.take(at as int);
                assert(t.drop_last() == done@.take(at - 1));
                assert(done@.skip(at - 1) == seq![t.last()] + done@.skip(at as int));
            }
            at -= 1;
        }
        proof {
            let t = done@.take(at as int);
            if at > 0 {
                assert(place(t, p, opens@, now) == t.push(p));
            }
        }
        done.insert(at, p);
        assert(done@ == done@.take(at as int).push(p) + done@.skip(at + 1)) by {
        }
    }
    assert(all.take(all.len() as int) == all);
    done
}

/// No project scores more than one before it.
pub open spec fn best_first(s: Seq<Project>, opens: Seq<Open>, now: u64) -> bool {
    forall|i: int, j: int|
        #![trigger s[i], s[j]]
        0 <= i < j < s.len() ==> score(opens, s[i].path@, now) >= score(opens, s[j].path@, now)
}

/// Whether a project scores exactly `v`.
pub open spec fn scoring(opens: Seq<Open>, now: u64, v: int) -> spec_fn(Project) -> bool {
    |p: Project| score(opens, p.path@, now) == v
}

proof fn lemma_place(r: Seq<Project>, p: Project, opens: Seq<Open>, now: u64, v: int)
    requires
        best_first(r, opens, now),
    ensures
        best_first(place(r, p, opens, now), opens, now),
        place(r, p, opens, now).to_multiset() == r.to_multiset().insert(p),
        place(r, p, opens, now).filter(scoring(opens, now, v)) == r.push(p).filter(scoring(opens, now, v)),
    decreases r.len(),
{
    broadcast use vstd::seq_lib::group_to_multiset_ensures, Seq::lemma_filter_push;
    let f = scoring(opens, now, v);
    if r.len() == 0 {
        assert(seq![p] == r.push(p));
    } else if score(opens, r.last().path@, now) < score(opens, p.path@, now) {
        let d = r.drop_last();
        let last = r.last();
        assert(best_first(d, opens, now)) by {
            assert forall|i: int, j: int| #![trigger d[i], d[j]] 0 <= i < j < d.len() implies score(opens, d[i].path@, now) >= score(opens, d[j].path@, now) by {
                assert(d[i] == r[i] && d[j] == r[j]);
            }
        }
        lemma_place(d, p, opens, now, v);
        let q = place(d, p, opens, now);
        assert forall|i: int| 0 <= i < q.len() implies score(opens, #[trigger] q[i].path@, now) >= score(opens, last.path@, now) by {
            assert(q.contains(q[i]));
            assert(q.to_multiset().count(q[i]) > 0);
            if q[i] != p {
                assert(d.to_multiset().count(q[i]) > 0);
                assert(d.contains(q[i]));
                let k = choose|k: int| 0 <= k < d.len() && d[k] == q[i];
                assert(r[k] == d[k]);
                assert(r[r.len() - 1] == last);
            }
        }
        assert(d.push(last) == r);
        assert(d.push(p).filter(f) == d.filter(f).push(p) || d.push(p).filter(f) == d.filter(f));
        if f(p) {
            assert(!f(last));
        }
    } else {
        assert forall|i: int| 0 <= i < r.len() implies score(opens, #[trigger] r[i].path@, now) >= score(opens, p.path@, now) by {
            if i < r.len() - 1 {
                assert(score(opens, r[i].path@, now) >= score(opens, r[r.len() - 1].path@, now));
            }
        }
        let q = r.push(p);
        assert forall|i: int, j: int| #![trigger q[i], q[j]] 0 <= i < j < q.len() implies score(opens, q[i].path@, now) >= score(opens, q[j].path@, now) by {
            if j < r.len() {
                assert(q[i] == r[i] && q[j] == r[j]);
            } else {
                assert(q[i] == r[i]);
            }
        }
    }
}

/// The ranking puts no project ahead of one that scores more, holds each
/// project as many times as it was given, and keeps the projects of each
/// score in the order they came in.
pub proof fn lemma_ranked(projects: Seq<Project>, opens: Seq<Open>, now: u64, v: int)
    ensures
        best_first(ranked(projects, opens, now), opens, now),
        ranked(projects, opens, now).to_multiset() == projects.to_multiset(),
        ranked(projects, opens, now).filter(scoring(opens, now, v)) == projects.filter(scoring(opens, now, v)),
    decreases projects.len(),
{
    broadcast use vstd::seq_lib::group_to_multiset_ensures, Seq::lemma_filter_push;
    if projects.len() == 0 {
        reveal(Seq::filter);
    } else {
        let d = projects.drop_last();
        lemma_ranked(d, opens, now, v);
        lemma_place(ranked(d, opens, now), projects.last(), opens, now, v);
        assert(d.push(projects.last()) == projects);
        let f = scoring(opens, now, v);
        assert(ranked(d, opens, now).push(projects.last()).filter(f) == (if f(projects.last()) {
            ranked(d, opens, now).filter(f).push(projects.last())
        } else {
            ranked(d, opens, now).filter(f)
        }));
    }
}

/// A list already ranked best first, such as one where nothing was ever
/// opened, is left exactly as it is.
pub proof fn lemma_ranked_keeps_ranked(projects: Seq<Project>, opens: Seq<Open>, now: u64)
    requires
        best_first(projects, opens, now),
    ensures
        ranked(projects, opens, now) == projects,
    decreases projects.len(),
{
    if projects.len() > 0 {
        let d = projects.drop_last();
        assert(best_first(d, opens, now)) by {
            assert forall|i: int, j: int| #![trigger d[i], d[j]] 0 <= i < j < d.len() implies score(opens, d[i].path@, now) >= score(opens, d[j].path@, now) by {
                assert(d[i] == projects[i] && d[j] == projects[j]);
            }
        }
        lemma_ranked_keeps_ranked(d, opens, now);
        if d.len() > 0 {
            assert(d.last() == projects[projects.len() - 2]);
            assert(score(opens, projects[projects.len() - 2].path@, now) >= score(opens, projects[projects.len() - 1].path@, now));
        }
        assert(d.push(projects.last()) == projects);
    }
}

fn open_of(j: &Json) -> (r: Option<Open>)
    ensures
        r == open_from(*j),
{
    match j {
        Json::Object(m) => {
            let p = json::find(m, "path");
            let c = json::find(m, "count");
            let l = json::find(m, "last");
            match (p, c, l) {
                (Some(Json::Text(p)), Some(Json::Number(Some(c))), Some(Json::Number(Some(l)))) => {
                    if *c <= 4294967295u64 {
                        Some(Open { path: p.clone(), count: *c as u32, last: *l })
                    } else {
                        None
                    }
                },
                _ => None,
            }
        },
        _ => None,
    }
}

/// The records a list of JSON values holds, or `None`.
fn opens_of(items: &Vec<Json>) -> (r: Option<Vec<Open>>)
    ensures
        match r {
            Some(v) => opens_from(items@) == Some(v@),
            None => opens_from(items@) is None,
        },
{
    let mut v: Vec<Open> = Vec::new();
    let mut i: usize = 0;
    while i < items.len()
        invariant
            i <= items.len(),
            opens_from(items@.take(i as int)) == Some(v@),
        decreases items.len() - i,
    {
        assert(items@.take(i + 1).drop_last() == items@.take(i as int));
        match open_of(&items[i]) {
            Some(o) => v.push(o),
            None => {
                proof {
                    lemma_opens_from_none(items@, i as int);
                }
                return None;
            },
        }
        i += 1;
    }
    assert(items@.take(items.len() as int) == items@);
    Some(v)
}

proof fn lemma_opens_from_none(items: Seq<Json>, i: int)
    requires
        0 <= i < items.len(),
        open_from(items[i]) is None,
    ensures
        opens_from(items) is None,
    decreases items.len(),
{
    if i < items.len() - 1 {
        lemma_opens_from_none(items.drop_last(), i);
    }
}

/// The history a state file's text holds.
pub fn history_in(text: &str) -> (r: Vec<Open>)
    ensures
        r@ == history(text@),
{
    match json::parse(text) {
        Some(Json::Array(items)) => match opens_of(&items) {
            Some(v) => v,
            None => Vec::new(),
        },
        _ => Vec::new(),
    }
}

/// The recorded opens. A missing or unreadable file is simply no history:
/// the ranking degrades to the order projects were found in, never to an
/// error.
pub fn load<H: Host>(host: &H) -> (r: Result<Vec<Open>, Error>)
    ensures
        H::obeys_model() ==> (match r {
            Ok(v) => stored_history(*host) == Ok::<Seq<Open>, Error>(v@),
            Err(e) => stored_history(*host) == Err::<Seq<Open>, Error>(e),
        }),
{
    let at = path(host)?;
    match host.read_file(at.as_str())? {
        Some(text) => Ok(history_in(text.as_str())),
        None => Ok(Vec::new()),
    }
}

/// `after` is `before` with one open of `project` at `now` counted: the
/// first record for it bumped and its time moved, or a first record after the
/// rest. A count already at its ceiling stays there.
pub open spec fn counted(before: Seq<Open>, after: Seq<Open>, project: Seq<char>, now: u64) -> bool {
    ||| exists|i: int|
        {
            &&& 0 <= i < before.len()
            &&& (#[trigger] before[i]).path@ == project
            &&& forall|j: int| 0 <= j < i ==> (#[trigger] before[j]).path@ != project
            &&& after == before.update(
                i,
                Open {
                    path: before[i].path,
                    count: if before[i].count < u32::MAX {
                        (before[i].count + 1) as u32
                    } else {
                        before[i].count
                    },
                    last: now,
                },
            )
        }
    ||| {
        &&& forall|j: int| 0 <= j < before.len() ==> (#[trigger] before[j]).path@ != project
        &&& after.drop_last() == before
        &&& after.len() == before.len() + 1
        &&& after.last().path@ == project
        &&& after.last().count == 1
        &&& after.last().last == now
    }
}

/// Count one open of `project` at `now`. Says which record was bumped.
pub fn count_open(opens: &mut Vec<Open>, project: &str, now: u64) -> (r: Option<usize>)
    ensures
        counted(old(opens)@, final(opens)@, project@, now),
        match r {
            Some(i) => i < old(opens)@.len() && old(opens)@[i as int].path@ == project@,
            None => forall|j: int| 0 <= j < old(opens)@.len() ==> (#[trigger] old(opens)@[j]).path@ != project@,
        },
{
    let mut i: usize = 0;
    while i < opens.len()
        invariant
            i <= opens.len(),
            opens@ == old(opens)@,
            forall|j: int| 0 <= j < i ==> (#[trigger] opens@[j]).path@ != project@,
        decreases opens.len() - i,
    {
        if text::same(opens[i].path.as_str(), project) {
            let bumped = Open {
                path: opens[i].path.clone(),
                count: if opens[i].count < 4294967295u32 {
                    opens[i].count + 1
                } else {
                    opens[i].count
                },
                last: now,
            };
            opens.set(i, bumped);
            assert(counted(old(opens)@, opens@, project@, now)) by {
                assert(old(opens)@[i as int].path@ == project@);
            }
            return Some(i);
        }
        i += 1;
    }
    opens.push(Open { path: project.to_owned(), count: 1, last: now });
    assert(opens@.drop_last() == old(opens)@);
    None
}

/// The records as JSON, members in name order.
pub fn to_json(opens: &[Open]) -> (r: Json)
    ensures
        encodes(r, opens@),
{
    let mut items: Vec<Json> = Vec::new();
    let mut i: usize = 0;
    while i < opens.len()
        invariant
            i <= opens.len(),
            items@.len() == i,
            forall|k: int| 0 <= k < i ==> #[trigger] record_json(items@[k], opens@[k]),
        decreases opens.len() - i,
    {
        let o = &opens[i];
        let mut m: Vec<(String, Json)> = Vec::new();
        m.push((String::from_str("count"), Json::Number(Some(o.count as u64))));
        m.push((String::from_str("last"), Json::Number(Some(o.last))));
        m.push((String::from_str("path"), Json::Text(o.path.clone())));
        items.push(Json::Object(m));
        i += 1;
    }
    Json::Array(items)
}

/// The history `h` with one open of `project` counted, written to `f`.
pub open spec fn wrote_history(h: Seq<Open>, project: Seq<char>, f: Seq<char>, before: Seq<Event>, after: Seq<Event>, r: Result<(), Error>) -> bool {
    exists|now: u64, opens: Seq<Open>, j: Json|
        #![trigger counted(h, opens, project, now), encodes(j, opens)]
        {
            &&& counted(h, opens, project, now)
            &&& encodes(j, opens)
            &&& after == before.push(Event::Wrote(f, json::json_pretty(j).push('\n'), r))
        }
}

/// What [`record`] does: the history read, one open counted at the time the
/// clock gave, and all of it written back.
pub open spec fn recorded<H: Host>(host: H, project: Seq<char>, before: Seq<Event>, after: Seq<Event>, r: Result<(), Error>) -> bool {
    match stored_history(host) {
        Err(e) => after == before && r == Err::<(), Error>(e),
        Ok(h) => match state_file(host.home_dir_of()) {
            Err(e) => after == before && r == Err::<(), Error>(e),
            Ok(f) => wrote_history(h, project, f, before, after, r),
        },
    }
}

/// Count one open of `project`, now, and write the history back.
pub fn record<H: Host>(host: &mut H, project: &str) -> (r: Result<(), Error>)
    ensures
        H::obeys_model() ==> crate::host::same_place(*old(host), *final(host)),
        H::obeys_model() ==> (recorded(*old(host), project@, old(host).events(), final(host).events(), r)),
{
    let mut opens = load(host)?;
    let now = host.now();
    let ghost read = opens@;
    count_open(&mut opens, project, now);
    let j = to_json(&opens);
    let text = match json::pretty(&j) {
        Ok(text) => text,
        Err(e) => {
            let mut m = String::from_str("encoding the frecency state: ");
            text::push_str(&mut m, e.as_str());
            return Err(Error::Failed(m));
        },
    };
    let mut contents = text;
    text::push_char(&mut contents, '\n');
    let at = path(host)?;
    let r = host.write_file(at.as_str(), contents.as_str());
    assert(H::obeys_model() ==> (stored_history(*old(host)) == Ok::<Seq<Open>, Error>(read)));
    assert(H::obeys_model() ==> (state_file(old(host).home_dir_of()) == Ok::<Seq<char>, Error>(at@)));
    assert(contents@ == json::json_pretty(j).push('\n'));
    assert(counted(read, opens@, project@, now) && encodes(j, opens@));
    assert(H::obeys_model() ==> host.events() == old(host).events().push(
        Event::Wrote(at@, json::json_pretty(j).push('\n'), r),
    ));
    assert(H::obeys_model() ==> (wrote_history(read, project@, at@, old(host).events(), host.events(), r)));
    assert(H::obeys_model() ==> (recorded(*old(host), project@, old(host).events(), host.events(), r)));
    r
}

/// One record's JSON reads back as the record.
proof fn lemma_record_round_trip(j: Json, o: Open)
    requires
        record_json(j, o),
    ensures
        open_from(j) == Some(o),
{
    let m = j->Object_0@;
    reveal_strlit("count");
    reveal_strlit("last");
    reveal_strlit("path");
    assert("count"@ != "path"@) by {
        assert("count"@[0] != "path"@[0]);
    }
    assert("last"@ != "path"@) by {
        assert("last"@[0] != "path"@[0]);
    }
    assert("count"@ != "last"@) by {
        assert("count"@[0] != "last"@[0]);
    }
    assert(m.drop_first()[0] == m[1]);
    assert(m.drop_first().drop_first()[0] == m[2]);
    assert(member(m.drop_first().drop_first(), "path"@) == Some(m[2].1));
    assert(member(m.drop_first(), "path"@) == Some(m[2].1));
    assert(member(m, "path"@) == Some(Json::Text(o.path)));
    assert(member(m, "count"@) == Some(Json::Number(Some(o.count as u64))));
    assert(member(m.drop_first(), "last"@) == Some(m[1].1));
    assert(member(m, "last"@) == Some(Json::Number(Some(o.last))));
}

/// What the history is written from reads back as the same history: the
/// state file's shape round-trips.
pub proof fn lemma_history_round_trip(j: Json, opens: Seq<Open>)
    requires
        encodes(j, opens),
    ensures
        opens_from(j->Array_0@) == Some(opens),
{
    let items = j->Array_0@;
    assert forall|k: int| 0 <= k <= items.len() implies opens_from(#[trigger] items.take(k)) == Some(
        opens.take(k),
    ) by {
        lemma_history_prefix(items, opens, k);
    }
    assert(items.take(items.len() as int) == items);
    assert(opens.take(opens.len() as int) == opens);
}

proof fn lemma_history_prefix(items: Seq<Json>, opens: Seq<Open>, k: int)
    requires
        items.len() == opens.len(),
        forall|i: int| 0 <= i < opens.len() ==> #[trigger] record_json(items[i], opens[i]),
        0 <= k <= items.len(),
    ensures
        opens_from(items.take(k)) == Some(opens.take(k)),
    decreases k,
{
    if k > 0 {
        lemma_history_prefix(items, opens, k - 1);
        assert(items.take(k).drop_last() == items.take(k - 1));
        assert(items.take(k).last() == items[k - 1]);
        lemma_record_round_trip(items[k - 1], opens[k - 1]);
        assert(opens.take(k) == opens.take(k - 1).push(opens[k - 1]));
    } else {
        assert(items.take(0) =~= Seq::<Json>::empty());
        assert(opens.take(0) =~= Seq::<Open>::empty());
    }
}

} // verus!
