//! Live tmux sessions: one `list-sessions` call for everything tmux knows, one
//! git call per session for the branch it does not, and — only inside tmux —
//! one more for which session the client is in. And the few things done to a
//! session: create, join, kill, rename, note.

use vstd::prelude::*;
use crate::git::{self, done_or_refused, head_command, refusal, reported_branch};
use crate::host::{
    lemma_one_run_quietly, lemma_quietly_push, lemma_quietly_trans, one_run, outcome, quietly, Error, Event, Host, Output,
};
use crate::text::{self, decimal, fields, lines, parsed_u64, strs, trim, views};

verus! {

pub const MINUTE: u64 = 60;

pub const HOUR: u64 = 3600;

pub const DAY: u64 = 86400;

/// Only the active pane is inspected: in a session's format context the pane
/// variables already resolve to the active pane of the active window.
///
/// Tab-separated, with the session name last so that a name holding a tab
/// still parses: the fields before it are split off and the rest is the name.
pub const FORMAT: &'static str = "#{session_attached}\t#{session_last_attached}\t#{pane_current_path}\t#{pane_current_command}\t#{@note}\t#{session_name}";

/// A live tmux session, as the picker shows it.
#[derive(Debug, Clone, PartialEq, Eq)]
pub struct Session {
    pub name: String,
    /// The active pane's working directory.
    pub path: String,
    /// The command running in the active pane.
    pub command: String,
    /// A client is attached, possibly in another terminal.
    pub attached: bool,
    /// This is the session the client running the tool sits in, which
    /// `attached` alone cannot say.
    pub current: bool,
    /// Empty when the path is not a git repository.
    pub branch: String,
    /// How long since a client last had it — `now`, `5m`, `3h`, `12d` — and
    /// empty for a session no client ever attached.
    pub age: String,
    /// What the developer wrote about it, empty when nothing.
    pub note: String,
}

/// A session's fields as text.
pub struct Shown {
    pub name: Seq<char>,
    pub path: Seq<char>,
    pub command: Seq<char>,
    pub attached: bool,
    pub current: bool,
    pub branch: Seq<char>,
    pub age: Seq<char>,
    pub note: Seq<char>,
}

pub open spec fn shown(s: Session) -> Shown {
    Shown {
        name: s.name@,
        path: s.path@,
        command: s.command@,
        attached: s.attached,
        current: s.current,
        branch: s.branch@,
        age: s.age@,
        note: s.note@,
    }
}

/// One row of the listing, before git is asked about it.
pub struct Listing {
    /// When a client last had it, 0 for never.
    pub last: u64,
    pub name: Seq<char>,
    pub path: Seq<char>,
    pub command: Seq<char>,
    pub attached: bool,
    pub note: Seq<char>,
}

/// A row of `list-sessions` output: `None` when it has too few fields or no
/// name. An unreadable time counts as never.
pub open spec fn listing(line: Seq<char>) -> Option<Listing> {
    let f = fields(line, 6, '\t');
    if f.len() == 6 && f[5].len() > 0 {
        Some(
            Listing {
                last: match parsed_u64(trim(f[1])) {
                    Some(n) => n,
                    None => 0,
                },
                name: f[5],
                path: f[2],
                command: f[3],
                attached: f[0] != seq!['0'],
                note: f[4],
            },
        )
    } else {
        None
    }
}

/// The rows of a listing, in tmux's order.
pub open spec fn listings(ls: Seq<Seq<char>>) -> Seq<Listing>
    decreases ls.len(),
{
    if ls.len() == 0 {
        Seq::empty()
    } else {
        match listing(ls.last()) {
            Some(l) => listings(ls.drop_last()).push(l),
            None => listings(ls.drop_last()),
        }
    }
}

/// How long ago `last` was, coarsely: the question is which of these you
/// were in, not how many minutes ago.
pub open spec fn age_text(last: u64, now: u64) -> Seq<char> {
    let since: int = if now >= last { now - last } else { 0 };
    if last == 0 {
        Seq::empty()
    } else if since < 60 {
        seq!['n', 'o', 'w']
    } else if since < 3600 {
        decimal((since / 60) as nat).push('m')
    } else if since < 86400 {
        decimal((since / 3600) as nat).push('h')
    } else {
        decimal((since / 86400) as nat).push('d')
    }
}

/// The session a listed row makes, with the branch git gave and against the
/// client's own session and the clock.
pub open spec fn session_of(l: Listing, branch: Seq<char>, here: Seq<char>, now: u64) -> Shown {
    Shown {
        name: l.name,
        path: l.path,
        command: l.command,
        attached: l.attached,
        current: l.name == here,
        branch,
        age: age_text(l.last, now),
        note: l.note,
    }
}

/// `x` placed in `sorted`, newest first, after everything as new as it.
pub open spec fn placed<T>(sorted: Seq<(u64, T)>, x: (u64, T)) -> Seq<(u64, T)>
    decreases sorted.len(),
{
    if sorted.len() == 0 {
        seq![x]
    } else if sorted.last().0 >= x.0 {
        sorted.push(x)
    } else {
        placed(sorted.drop_last(), x).push(sorted.last())
    }
}

/// A stable sort, newest first: equal times keep their order.
pub open spec fn newest_first<T>(s: Seq<(u64, T)>) -> Seq<(u64, T)>
    decreases s.len(),
{
    if s.len() == 0 {
        Seq::empty()
    } else {
        placed(newest_first(s.drop_last()), s.last())
    }
}

/// Each time no earlier than the next.
pub open spec fn descending<T>(s: Seq<(u64, T)>) -> bool {
    forall|i: int, j: int| 0 <= i < j < s.len() ==> #[trigger] s[i].0 >= #[trigger] s[j].0
}

proof fn lemma_placed(sorted: Seq<(u64, Session)>, x: (u64, Session), p: int)
    requires
        0 <= p <= sorted.len(),
        forall|j: int| p <= j < sorted.len() ==> #[trigger] sorted[j].0 < x.0,
        p > 0 ==> sorted[p - 1].0 >= x.0,
    ensures
        placed(sorted, x) == sorted.take(p).push(x) + sorted.skip(p),
    decreases sorted.len() - p,
{
    if sorted.len() == 0 {
        assert(sorted.take(p).push(x) + sorted.skip(p) =~= seq![x]);
    } else if p == sorted.len() {
        assert(sorted.take(p) == sorted);
        assert(sorted.skip(p).len() == 0);
        assert(sorted.take(p).push(x) + sorted.skip(p) =~= sorted.push(x));
    } else {
        let d = sorted.drop_last();
        assert(sorted.last().0 < x.0);
        lemma_placed(d, x, p);
        assert(d.take(p) == sorted.take(p));
        assert(sorted.take(p).push(x) + sorted.skip(p) =~= (d.take(p).push(x) + d.skip(p)).push(
            sorted.last(),
        ));
    }
}

/// Put `x` in place in `v`, newest first, after everything as new as it.
fn place(v: &mut Vec<(u64, Session)>, x: (u64, Session))
    ensures
        final(v)@ == placed(old(v)@, x),
{
    let mut p = v.len();
    while p > 0 && v[p - 1].0 < x.0
        invariant
            p <= v.len(),
            v@ == old(v)@,
            forall|j: int| p <= j < v.len() ==> #[trigger] v@[j].0 < x.0,
        decreases p,
    {
        p -= 1;
    }
    proof {
        lemma_placed(v@, x, p as int);
    }
    let ghost before = v@;
    v.insert(p, x);
    assert(v@ =~= before.take(p as int).push(x) + before.skip(p as int));
}

/// Sort the sessions newest first, keeping ties in their order.
fn sort_newest_first(v: Vec<(u64, Session)>) -> (r: Vec<(u64, Session)>)
    ensures
        r@ == newest_first(v@),
{
    let ghost all = v@;
    assert(all.len() == v.len());
    let mut rest = v;
    let mut r: Vec<(u64, Session)> = Vec::new();
    let mut k: usize = 0;
    while rest.len() > 0
        invariant
            k + rest.len() == all.len(),
            all.len() <= usize::MAX,
            rest@ == all.skip(k as int),
            r@ == newest_first(all.take(k as int)),
        decreases rest.len(),
    {
        assert(all.take(k + 1).drop_last() == all.take(k as int));
        assert(all.take(k + 1).last() == rest@[0]);
        let x = rest.remove(0);
        place(&mut r, x);
        k += 1;
        assert(rest@ =~= all.skip(k as int));
    }
    assert(all.take(k as int) == all);
    r
}

/// The payloads of `s` mapped by `f`, the times kept.
pub open spec fn pay<A, B>(s: Seq<(u64, A)>, f: spec_fn(A) -> B) -> Seq<(u64, B)> {
    s.map_values(|p: (u64, A)| (p.0, f(p.1)))
}

proof fn lemma_placed_pay<A, B>(sorted: Seq<(u64, A)>, x: (u64, A), f: spec_fn(A) -> B)
    ensures
        pay(placed(sorted, x), f) == placed(pay(sorted, f), (x.0, f(x.1))),
    decreases sorted.len(),
{
    if sorted.len() == 0 {
        assert(pay(placed(sorted, x), f) =~= seq![(x.0, f(x.1))]);
    } else if sorted.last().0 >= x.0 {
        assert(pay(sorted.push(x), f) =~= pay(sorted, f).push((x.0, f(x.1))));
    } else {
        lemma_placed_pay(sorted.drop_last(), x, f);
        assert(pay(sorted, f).drop_last() =~= pay(sorted.drop_last(), f));
        assert(pay(placed(sorted.drop_last(), x).push(sorted.last()), f) =~= pay(
            placed(sorted.drop_last(), x),
            f,
        ).push((sorted.last().0, f(sorted.last().1))));
    }
}

/// Sorting by time does not look at what is sorted.
proof fn lemma_newest_first_pay<A, B>(s: Seq<(u64, A)>, f: spec_fn(A) -> B)
    ensures
        pay(newest_first(s), f) == newest_first(pay(s, f)),
    decreases s.len(),
{
    if s.len() > 0 {
        lemma_newest_first_pay(s.drop_last(), f);
        lemma_placed_pay(newest_first(s.drop_last()), s.last(), f);
        assert(pay(s, f).drop_last() =~= pay(s.drop_last(), f));
    }
}

proof fn lemma_placed_descending<T>(sorted: Seq<(u64, T)>, x: (u64, T))
    requires
        descending(sorted),
    ensures
        descending(placed(sorted, x)),
        placed(sorted, x).len() == sorted.len() + 1,
        forall|i: int| 0 <= i < placed(sorted, x).len() ==> #[trigger] placed(sorted, x)[i].0 == x.0
            || exists|j: int| 0 <= j < sorted.len() && sorted[j].0 == placed(sorted, x)[i].0,
    decreases sorted.len(),
{
    if sorted.len() > 0 && sorted.last().0 < x.0 {
        let d = sorted.drop_last();
        lemma_placed_descending(d, x);
        let p = placed(d, x);
        assert forall|i: int| 0 <= i < p.len() implies #[trigger] p[i].0 >= sorted.last().0 by {
            if p[i].0 != x.0 {
                let j = choose|j: int| 0 <= j < d.len() && d[j].0 == p[i].0;
                assert(sorted[j].0 >= sorted[sorted.len() - 1].0);
            }
        }
        assert forall|i: int| 0 <= i < p.push(sorted.last()).len() implies #[trigger] p.push(
            sorted.last(),
        )[i].0 == x.0 || exists|j: int| 0 <= j < sorted.len() && sorted[j].0 == p.push(
            sorted.last(),
        )[i].0 by {
            if i < p.len() && p[i].0 != x.0 {
                let j = choose|j: int| 0 <= j < d.len() && d[j].0 == p[i].0;
                assert(sorted[j].0 == p[i].0);
            } else if i == p.len() {
                assert(sorted[sorted.len() - 1].0 == p.push(sorted.last())[i].0);
            }
        }
    } else if sorted.len() > 0 {
        assert forall|i: int| 0 <= i < sorted.push(x).len() implies #[trigger] sorted.push(x)[i].0
            == x.0 || exists|j: int| 0 <= j < sorted.len() && sorted[j].0 == sorted.push(x)[i].0 by {
            if i < sorted.len() {
                assert(sorted[i].0 == sorted.push(x)[i].0);
            }
        }
    }
}

/// Whether an entry was last attached at time `v`.
pub open spec fn at_time<T>(v: u64) -> spec_fn((u64, T)) -> bool {
    |x: (u64, T)| x.0 == v
}

proof fn lemma_placed_keeps<T>(sorted: Seq<(u64, T)>, x: (u64, T), v: u64)
    ensures
        placed(sorted, x).to_multiset() == sorted.to_multiset().insert(x),
        placed(sorted, x).filter(at_time::<T>(v)) == sorted.push(x).filter(at_time::<T>(v)),
    decreases sorted.len(),
{
    broadcast use vstd::seq_lib::group_to_multiset_ensures, Seq::lemma_filter_push;
    let f = at_time::<T>(v);
    if sorted.len() == 0 {
        assert(seq![x] == sorted.push(x));
    } else if sorted.last().0 < x.0 {
        let d = sorted.drop_last();
        let last = sorted.last();
        lemma_placed_keeps(d, x, v);
        assert(d.push(last) == sorted);
        if f(x) {
            assert(!f(last));
        }
    }
}

/// The listing comes back most recently left first, with every session it
/// had and no other, and sessions last attached at the same moment in the
/// order tmux listed them.
pub proof fn lemma_newest_first_descending<T>(s: Seq<(u64, T)>, v: u64)
    ensures
        descending(newest_first(s)),
        newest_first(s).len() == s.len(),
        newest_first(s).to_multiset() == s.to_multiset(),
        newest_first(s).filter(at_time::<T>(v)) == s.filter(at_time::<T>(v)),
    decreases s.len(),
{
    broadcast use vstd::seq_lib::group_to_multiset_ensures, Seq::lemma_filter_push;
    if s.len() == 0 {
        reveal(Seq::filter);
    } else {
        let d = s.drop_last();
        lemma_newest_first_descending(d, v);
        lemma_placed_descending(newest_first(d), s.last());
        lemma_placed_keeps(newest_first(d), s.last(), v);
        assert(d.push(s.last()) == s);
        let f = at_time::<T>(v);
        assert(newest_first(d).push(s.last()).filter(f) == (if f(s.last()) {
            newest_first(d).filter(f).push(s.last())
        } else {
            newest_first(d).filter(f)
        }));
    }
}

/// A row of `list-sessions` output, and when a client last had it.
fn parse(line: &[char]) -> (r: Option<(u64, Session)>)
    ensures
        match r {
            None => listing(line@) is None,
            Some((last, s)) => listing(line@) matches Some(l) && last == l.last && shown(s)
                == (Shown {
                name: l.name,
                path: l.path,
                command: l.command,
                attached: l.attached,
                current: false,
                branch: Seq::empty(),
                age: Seq::empty(),
                note: l.note,
            }),
        },
{
    let f = text::fields_of(line, 6, '\t');
    if f.len() != 6 || f[5].len() == 0 {
        assert(views(f@).len() == f.len());
        assert(f.len() == 6 ==> views(f@)[5] == f@[5]@);
        return None;
    }
    assert(forall|k: int| 0 <= k < 6 ==> #[trigger] views(f@)[k] == f@[k]@);
    let last = match text::parse_u64(&text::trimmed(&f[1])) {
        Some(n) => n,
        None => 0,
    };
    let zero = ['0'];
    assert(zero@ =~= seq!['0']);
    let attached = !text::same_chars(&f[0], &zero);
    let session = Session {
        name: text::string(&f[5]),
        path: text::string(&f[2]),
        command: text::string(&f[3]),
        attached,
        current: false,
        branch: String::new(),
        age: String::new(),
        note: text::string(&f[4]),
    };
    Some((last, session))
}

/// How long since a client last had the session.
fn age(last: u64, now: u64) -> (r: String)
    ensures
        r@ == age_text(last, now),
{
    if last == 0 {
        return String::new();
    }
    let since: u64 = if now >= last { now - last } else { 0 };
    if since < MINUTE {
        let r = String::from_str("now");
        proof {
            reveal_strlit("now");
        }
        return r;
    }
    let (count, unit) = if since < HOUR {
        (since / MINUTE, 'm')
    } else if since < DAY {
        (since / HOUR, 'h')
    } else {
        (since / DAY, 'd')
    };
    let mut r = text::decimal_string(count);
    text::push_char(&mut r, unit);
    r
}

pub open spec fn list_command() -> Seq<Seq<char>> {
    seq!["tmux"@, "list-sessions"@, "-F"@, FORMAT@]
}

pub open spec fn display_command() -> Seq<Seq<char>> {
    seq!["tmux"@, "display-message"@, "-p"@, "#{session_name}"@]
}

/// The branch a run of [`head_command`] reported.
pub open spec fn branch_of(e: Event) -> Seq<char> {
    match outcome(e) {
        Ok(o) => reported_branch(o),
        Err(_) => Seq::empty(),
    }
}

/// The sessions a list returned, as text.
pub open spec fn sessions_view(r: Result<Vec<Session>, Error>) -> Result<Seq<Shown>, Error> {
    match r {
        Ok(v) => Ok(v@.map_values(|s: Session| shown(s))),
        Err(e) => Err(e),
    }
}

/// The sessions of a listing, with their branches read from the runs from
/// `m` on, against the client's session and the clock, newest first.
pub open spec fn assembled(rows: Seq<Listing>, after: Seq<Event>, m: int, here: Seq<char>, now: u64) -> Seq<Shown> {
    newest_first(
        Seq::new(
            rows.len(),
            |j: int| (rows[j].last, session_of(rows[j], branch_of(after[m + j]), here, now)),
        ),
    ).map_values(|p: (u64, Shown)| p.1)
}

/// What [`list`] asks and answers: the listing; inside tmux, the client's
/// session; then the branch of each listed session, in tmux's order. Every
/// failure is the last run's. No server is an empty list.
pub open spec fn listed(before: Seq<Event>, after: Seq<Event>, inside: bool, now: u64, r: Result<Seq<Shown>, Error>) -> bool {
    let n = before.len() as int;
    &&& after.len() > n
    &&& after.take(n) == before
    &&& after[n] == Event::Ran(list_command(), None, outcome(after[n]))
    &&& match r {
        Err(e) => outcome(after.last()) == Err::<Output, Error>(e),
        Ok(sessions) => match outcome(after[n]) {
            Err(_) => false,
            Ok(o) => if !o.success() {
                after.len() == n + 1 && sessions.len() == 0
            } else {
                let rows = listings(lines(o.stdout@));
                let m = if inside { n + 2 } else { n + 1 };
                let here = if inside {
                    match outcome(after[n + 1]) {
                        Ok(d) => d.trimmed_out(),
                        Err(_) => Seq::empty(),
                    }
                } else {
                    Seq::empty()
                };
                &&& inside ==> after[n + 1] == Event::Ran(display_command(), None, outcome(after[n + 1]))
                &&& after.len() == m + rows.len()
                &&& forall|j: int|
                    0 <= j < rows.len() ==> #[trigger] after[m + j] == Event::Ran(
                        head_command(),
                        Some(rows[j].path),
                        outcome(after[m + j]),
                    )
                &&& sessions == assembled(rows, after, m, here, now)
            },
        },
    }
}

/// The live sessions, most recently left first: the one you want is usually
/// the one you were just in. A session no client ever attached sorts last,
/// and ties keep tmux's order. No tmux server is a normal cold start and
/// yields an empty list.
pub fn list<H: Host>(host: &mut H) -> (r: Result<Vec<Session>, Error>)
    ensures
        H::obeys_model() ==> crate::host::kept(*old(host), *final(host)),
        H::obeys_model() ==> (exists|now: u64|
            listed(old(host).events(), final(host).events(), old(host).tmux_client(), now, sessions_view(r))),
        H::obeys_model() ==> quietly(old(host).events(), final(host).events()),
{
    let inside = host.in_tmux();
    let now = host.now();
    let ghost before = host.events();
    let ghost n = before.len() as int;
    let argv = ["tmux", "list-sessions", "-F", FORMAT];
    assert(strs(argv@) =~= list_command());
    let asked = host.run(&argv, None);
    proof {
        if H::obeys_model() {
            lemma_quietly_push(before, host.events().last());
            assert(host.events() == before.push(host.events().last()));
        }
    }
    let out = match asked {
        Ok(o) => o,
        Err(e) => {
            assert(H::obeys_model() ==> (host.events().take(n) == before));
            assert(H::obeys_model() ==> (listed(before, host.events(), inside, now, sessions_view(Err(e)))));
            return Err(e);
        },
    };
    let ghost first = host.events();
    assert(H::obeys_model() ==> (first.take(n) == before));
    if !out.succeeded() {
        let r: Vec<Session> = Vec::new();
        assert(sessions_view(Ok(r)) == Ok::<Seq<Shown>, Error>(r@.map_values(|s: Session| shown(s))));
        assert(r@.map_values(|s: Session| shown(s)).len() == 0);
        assert(H::obeys_model() ==> (listed(before, host.events(), inside, now, sessions_view(Ok(r)))));
        return Ok(r);
    }
    let here = if inside {
        let ask = ["tmux", "display-message", "-p", "#{session_name}"];
        assert(strs(ask@) =~= display_command());
        let shown = host.run(&ask, None);
        proof {
            if H::obeys_model() {
                lemma_quietly_push(first, host.events().last());
                assert(host.events() == first.push(host.events().last()));
                lemma_quietly_trans(before, first, host.events());
            }
        }
        match shown {
            Ok(d) => d.trimmed(),
            Err(e) => {
                assert(H::obeys_model() ==> (host.events().take(n) == before));
                assert(H::obeys_model() ==> (host.events()[n] == first[n]));
                assert(H::obeys_model() ==> (listed(before, host.events(), inside, now, sessions_view(Err(e)))));
                return Err(e);
            },
        }
    } else {
        String::new()
    };
    let ghost m = if inside { n + 2 } else { n + 1 };
    let ghost middle = host.events();
    assert(H::obeys_model() ==> (middle.len() == m));
    assert(H::obeys_model() ==> (middle.take(n) == before));
    assert(H::obeys_model() ==> (middle[n] == first[n]));
    let ghost here_text = if inside {
        match outcome(middle[n + 1]) {
            Ok(d) => d.trimmed_out(),
            Err(_) => Seq::<char>::empty(),
        }
    } else {
        Seq::<char>::empty()
    };
    assert(H::obeys_model() ==> here@ == here_text);
    let ls = text::lines_of(out.stdout.as_str());
    let mut parsed: Vec<(u64, Session)> = Vec::new();
    let mut i: usize = 0;
    while i < ls.len()
        invariant
            i <= ls.len(),
            m == (if inside { n + 2 } else { n + 1 }),
            n == before.len(),
            before == old(host).events(),
            H::obeys_model() ==> crate::host::kept(*old(host), *host),
            H::obeys_model() ==> inside == old(host).tmux_client(),
            H::obeys_model() ==> middle.len() == m,
            H::obeys_model() ==> middle.take(n) == before,
            H::obeys_model() ==> outcome(middle[n]) == Ok::<Output, Error>(out),
            H::obeys_model() ==> middle[n] == Event::Ran(list_command(), None, outcome(middle[n])),
            views(ls@) == lines(out.stdout@),
            H::obeys_model() ==> quietly(before, host.events()),
            H::obeys_model() ==> here@ == here_text,
            H::obeys_model() ==> host.events().len() == m + listings(views(ls@).take(i as int)).len(),
            H::obeys_model() ==> host.events().take(m) == middle,
            parsed.len() == listings(views(ls@).take(i as int)).len(),
            H::obeys_model() ==> forall|j: int|
                0 <= j < listings(views(ls@).take(i as int)).len() ==> #[trigger] host.events()[m + j]
                    == Event::Ran(
                    head_command(),
                    Some(listings(views(ls@).take(i as int))[j].path),
                    outcome(host.events()[m + j]),
                ),
            H::obeys_model() ==> pay(parsed@, |s: Session| shown(s)) == Seq::new(
                listings(views(ls@).take(i as int)).len(),
                |j: int|
                    (
                        listings(views(ls@).take(i as int))[j].last,
                        session_of(
                            listings(views(ls@).take(i as int))[j],
                            branch_of(host.events()[m + j]),
                            here_text,
                            now,
                        ),
                    ),
            ),
        decreases ls.len() - i,
    {
        let ghost rows0 = listings(views(ls@).take(i as int));
        let ghost events0 = host.events();
        let ghost pay0 = pay(parsed@, |s: Session| shown(s));
        assert(views(ls@).take(i + 1).drop_last() == views(ls@).take(i as int));
        assert(views(ls@).take(i + 1).last() == ls@[i as int]@);
        match parse(&ls[i]) {
            None => {},
            Some((last, session)) => {
                let mut session = session;
                let asked_branch = git::branch(host, session.path.as_str());
                proof {
                    if H::obeys_model() {
                        lemma_one_run_quietly(events0, host.events(), head_command(), Some(session.path@));
                        lemma_quietly_trans(before, events0, host.events());
                    }
                }
                let b = match asked_branch {
                    Ok(b) => b,
                    Err(e) => {
                        assert(H::obeys_model() ==> (host.events().drop_last() == events0));
                        assert(H::obeys_model() ==> (host.events().take(m) =~= middle));
                        assert(H::obeys_model() ==> (host.events().take(n) =~= before));
                        assert(H::obeys_model() ==> (host.events()[n] == middle[n]));
                        assert(H::obeys_model() ==> (listed(before, host.events(), inside, now, sessions_view(Err(e)))));
                        return Err(e);
                    },
                };
                session.branch = b;
                session.current = text::same(session.name.as_str(), here.as_str());
                session.age = age(last, now);
                parsed.push((last, session));
                assert(H::obeys_model() ==> (host.events().drop_last() == events0));
                let ghost rows1 = listings(views(ls@).take(i + 1));
                assert(rows1 == rows0.push(listing(ls@[i as int]@)->Some_0));
                assert(pay(parsed@, |s: Session| shown(s)) =~= pay0.push((last, shown(session))));
                proof {
                    if H::obeys_model() {
                        assert(host.events().take(m) == middle);
                        assert forall|j: int| 0 <= j < rows1.len() implies #[trigger] host.events()[m + j]
                            == Event::Ran(head_command(), Some(rows1[j].path), outcome(host.events()[m + j])) by {
                            if j < rows0.len() {
                                assert(host.events()[m + j] == events0[m + j]);
                            }
                        }
                        assert(pay(parsed@, |s: Session| shown(s)) =~= Seq::new(
                            rows1.len(),
                            |j: int|
                                (
                                    rows1[j].last,
                                    session_of(rows1[j], branch_of(host.events()[m + j]), here_text, now),
                                ),
                        )) by {
                            assert forall|j: int| 0 <= j < rows0.len() implies #[trigger] host.events()[m + j]
                                == events0[m + j] by {}
                        }
                    }
                }
            },
        }
        i += 1;
    }
    assert(views(ls@).take(ls.len() as int) == views(ls@));
    let ghost rows = listings(lines(out.stdout@));
    let ghost unsorted = pay(parsed@, |s: Session| shown(s));
    let sorted = sort_newest_first(parsed);
    proof {
        lemma_newest_first_pay(parsed@, |s: Session| shown(s));
    }
    let ghost sorted0 = sorted@;
    assert(sorted0.len() == sorted.len());
    let mut rest = sorted;
    let mut result: Vec<Session> = Vec::new();
    let mut k: usize = 0;
    while rest.len() > 0
        invariant
            k + rest.len() == sorted0.len(),
            sorted0.len() <= usize::MAX,
            rest@ == sorted0.skip(k as int),
            result@.map_values(|s: Session| shown(s)) == pay(sorted0, |s: Session| shown(s)).take(
                k as int,
            ).map_values(|p: (u64, Shown)| p.1),
        decreases rest.len(),
    {
        let x = rest.remove(0);
        assert(x == sorted0[k as int]);
        let ghost r0 = result@;
        result.push(x.1);
        assert(result@.map_values(|s: Session| shown(s)) =~= pay(sorted0, |s: Session| shown(s)).take(
            k + 1,
        ).map_values(|p: (u64, Shown)| p.1)) by {
            assert(result@ == r0.push(x.1));
            assert(result@.map_values(|s: Session| shown(s)) =~= r0.map_values(|s: Session| shown(s)).push(shown(x.1)));
            assert(pay(sorted0, |s: Session| shown(s)).take(k + 1).map_values(|p: (u64, Shown)| p.1)
                =~= pay(sorted0, |s: Session| shown(s)).take(k as int).map_values(|p: (u64, Shown)| p.1).push(shown(x.1)));
        }
        k += 1;
        assert(rest@ =~= sorted0.skip(k as int));
    }
    assert(pay(sorted0, |s: Session| shown(s)).take(k as int) == pay(sorted0, |s: Session| shown(s)));
    let ghost after = host.events();
    assert(H::obeys_model() ==> after.take(n) =~= before) by {
        assert(H::obeys_model() ==> (after.take(m) == middle));
    }
    assert(H::obeys_model() ==> (after[n] == middle[n]));
    assert(H::obeys_model() ==> (inside ==> after[n + 1] == middle[n + 1]));
    assert(sorted0 == newest_first(parsed@));
    assert(H::obeys_model() ==> unsorted == Seq::new(
        rows.len(),
        |j: int| (rows[j].last, session_of(rows[j], branch_of(after[m + j]), here_text, now)),
    ));
    assert(H::obeys_model() ==> (result@.map_values(|s: Session| shown(s)) == assembled(rows, after, m, here_text, now)));
    assert(H::obeys_model() ==> (listed(before, host.events(), inside, now, sessions_view(Ok(result)))));
    Ok(result)
}

pub open spec fn has_session_command(name: Seq<char>) -> Seq<Seq<char>> {
    seq!["tmux"@, "has-session"@, "-t"@, name]
}

pub open spec fn new_session_command(name: Seq<char>, dir: Seq<char>) -> Seq<Seq<char>> {
    seq!["tmux"@, "new-session"@, "-d"@, "-s"@, name, "-c"@, dir]
}

/// What [`create`] asks: whether the session exists, and only when it does
/// not, to create it.
pub open spec fn created(name: Seq<char>, dir: Seq<char>, before: Seq<Event>, after: Seq<Event>, r: Result<(), Error>) -> bool {
    let n = before.len() as int;
    &&& after.len() > n
    &&& one_run(before, after.take(n + 1), has_session_command(name), None)
    &&& match outcome(after[n]) {
        Err(e) => after.len() == n + 1 && r == Err::<(), Error>(e),
        Ok(o) => if o.success() {
            after.len() == n + 1 && r is Ok
        } else {
            &&& one_run(after.take(n + 1), after, new_session_command(name, dir), None)
            &&& done_or_refused(outcome(after.last()), "tmux would not create session "@ + name, r)
        },
    }
}

/// A detached session rooted in `dir`, running the login shell. A session of
/// that name already there is the resume path rather than a failure, so it is
/// asked about first.
pub fn create<H: Host>(host: &mut H, name: &str, dir: &str) -> (r: Result<(), Error>)
    ensures
        H::obeys_model() ==> crate::host::kept(*old(host), *final(host)),
        H::obeys_model() ==> (created(name@, dir@, old(host).events(), final(host).events(), r)),
{
    let ghost before = host.events();
    let ghost n = before.len() as int;
    let ask = ["tmux", "has-session", "-t", name];
    assert(strs(ask@) =~= has_session_command(name@));
    let found = match host.run(&ask, None) {
        Ok(o) => o,
        Err(e) => {
            assert(H::obeys_model() ==> (host.events().take(n + 1) == host.events()));
            return Err(e);
        },
    };
    let ghost first = host.events();
    assert(H::obeys_model() ==> (first.take(n + 1) == first));
    if found.succeeded() {
        return Ok(());
    }
    let argv = ["tmux", "new-session", "-d", "-s", name, "-c", dir];
    assert(strs(argv@) =~= new_session_command(name@, dir@));
    let out = match host.run(&argv, None) {
        Ok(o) => o,
        Err(e) => {
            assert(H::obeys_model() ==> (host.events().take(n + 1) == first));
            return Err(e);
        },
    };
    assert(H::obeys_model() ==> (host.events().take(n + 1) == first));
    if out.succeeded() {
        Ok(())
    } else {
        Err(refusal(text::concat("tmux would not create session ", name), &out))
    }
}

pub open spec fn attach_command(inside: bool, name: Seq<char>) -> Seq<Seq<char>> {
    seq![
        "tmux"@,
        if inside {
            "switch-client"@
        } else {
            "attach-session"@
        },
        "-t"@,
        name,
    ]
}

/// Join `name`: switching the client when run inside tmux, since attaching
/// there would nest a client in its own session, and attaching otherwise.
/// This replaces the process, so it is the last thing the tool does.
pub fn attach<H: Host>(host: &mut H, name: &str) -> (r: Result<(), Error>)
    ensures
        H::obeys_model() ==> crate::host::kept(*old(host), *final(host)),
        H::obeys_model() ==> (final(host).events() == old(host).events().push(
            Event::Handed(attach_command(old(host).tmux_client(), name@), None, r),
        )),
{
    let verb = if host.in_tmux() {
        "switch-client"
    } else {
        "attach-session"
    };
    let argv = ["tmux", verb, "-t", name];
    assert(H::obeys_model() ==> strs(argv@) =~= attach_command(old(host).tmux_client(), name@));
    host.exec(&argv, None)
}

pub open spec fn kill_command(name: Seq<char>) -> Seq<Seq<char>> {
    seq!["tmux"@, "kill-session"@, "-t"@, name]
}

/// End the session `name` and everything running in it.
pub fn kill<H: Host>(host: &mut H, name: &str) -> (r: Result<(), Error>)
    ensures
        H::obeys_model() ==> crate::host::kept(*old(host), *final(host)),
        H::obeys_model() ==> (one_run(old(host).events(), final(host).events(), kill_command(name@), None)),
        H::obeys_model() ==> (done_or_refused(
            outcome(final(host).events().last()),
            "tmux would not kill session "@ + name@,
            r,
        )),
{
    let argv = ["tmux", "kill-session", "-t", name];
    assert(strs(argv@) =~= kill_command(name@));
    let out = host.run(&argv, None)?;
    if out.succeeded() {
        Ok(())
    } else {
        Err(refusal(text::concat("tmux would not kill session ", name), &out))
    }
}

pub open spec fn rename_command(from: Seq<char>, to: Seq<char>) -> Seq<Seq<char>> {
    seq!["tmux"@, "rename-session"@, "-t"@, from, to]
}

/// Rename the session `from` to `to`. tmux refuses a name already taken.
pub fn rename<H: Host>(host: &mut H, from: &str, to: &str) -> (r: Result<(), Error>)
    ensures
        H::obeys_model() ==> crate::host::kept(*old(host), *final(host)),
        H::obeys_model() ==> (one_run(old(host).events(), final(host).events(), rename_command(from@, to@), None)),
        H::obeys_model() ==> (done_or_refused(
            outcome(final(host).events().last()),
            "tmux would not rename session "@ + from@,
            r,
        )),
{
    let argv = ["tmux", "rename-session", "-t", from, to];
    assert(strs(argv@) =~= rename_command(from@, to@));
    let out = host.run(&argv, None)?;
    if out.succeeded() {
        Ok(())
    } else {
        Err(refusal(text::concat("tmux would not rename session ", from), &out))
    }
}

/// Keeping a note on a session, or taking it off when there is none to keep.
pub open spec fn note_command(name: Seq<char>, note: Seq<char>) -> Seq<Seq<char>> {
    if note.len() == 0 {
        seq!["tmux"@, "set-option"@, "-u"@, "-t"@, name, "@note"@]
    } else {
        seq!["tmux"@, "set-option"@, "-t"@, name, "@note"@, note]
    }
}

/// Keep `note` on the session `name`, in its `@note` option, where the next
/// listing reads it back; an empty note unsets the option.
pub fn set_note<H: Host>(host: &mut H, name: &str, note: &str) -> (r: Result<(), Error>)
    ensures
        H::obeys_model() ==> crate::host::kept(*old(host), *final(host)),
        H::obeys_model() ==> (one_run(old(host).events(), final(host).events(), note_command(name@, note@), None)),
        H::obeys_model() ==> (done_or_refused(
            outcome(final(host).events().last()),
            "tmux would not keep a note on "@ + name@,
            r,
        )),
{
    let out = if text::chars(note).len() == 0 {
        let argv = ["tmux", "set-option", "-u", "-t", name, "@note"];
        assert(strs(argv@) =~= note_command(name@, note@));
        host.run(&argv, None)?
    } else {
        let argv = ["tmux", "set-option", "-t", name, "@note", note];
        assert(strs(argv@) =~= note_command(name@, note@));
        host.run(&argv, None)?
    };
    if out.succeeded() {
        Ok(())
    } else {
        Err(refusal(text::concat("tmux would not keep a note on ", name), &out))
    }
}

} // verus!
