//! The one picker: live sessions, a separator, then projects ranked by
//! frecency with their worktrees beneath them, and last the add-by-path row.
//!
//! Every row is laid out in the same six columns — what it is, what it is
//! called, where it is, its branch, what is running, how long since it was
//! last attached — each padded to its width across the whole list, so
//! sessions, projects and worktrees read as one grid rather than three. The
//! grid is then fitted to the terminal, since one wrapped row ruins the list.

use vstd::prelude::*;
use crate::group::Worktree;
use crate::path::{self, file_name};
use crate::scan::Project;
use crate::text::{self, decimal, split, starts_with, trim_end, trim_start_char};
use crate::tmux::Session;

verus! {

/// What a row stands for, by index into the lists it was built from.
#[derive(Debug, Clone, Copy, PartialEq, Eq, Structural)]
pub enum Row {
    Session(usize),
    Project(usize),
    /// A project and one of its worktrees.
    Worktree(usize, usize),
    /// The line between the sessions and everything else. Choosing it
    /// reopens the picker: decoration should cost nothing.
    Separator,
    /// Take a repository by path, for one that lives outside the roots.
    AddManually,
}

/// Between two columns.
pub const GUTTER: usize = 2;

/// What the list writes before every option: a marker and a space.
pub const PREFIX: usize = 2;

/// Below these a column has stopped saying anything, so it is given up whole
/// rather than shaved further.
pub const MIN_NAME: usize = 6;

pub const MIN_DIR: usize = 8;

pub const MIN_BRANCH: usize = 6;

/// A path gives up its front freely down to this; below it the command goes
/// first.
pub const SOFT_DIR: usize = 18;

/// `text` cut to `max` cells, its last kept cell an ellipsis when it was cut.
pub open spec fn truncated(t: Seq<char>, max: nat) -> Seq<char> {
    if t.len() <= max {
        t
    } else if max == 0 {
        Seq::empty()
    } else {
        t.take(max - 1).push('…')
    }
}

/// `refresh the project list` in twelve cells is `refresh the…`.
pub fn truncate(t: &[char], max: usize) -> (r: Vec<char>)
    ensures
        r@ == truncated(t@, max as nat),
        r@.len() <= max,
{
    if t.len() <= max {
        return text::copy(t);
    }
    if max == 0 {
        return Vec::new();
    }
    let mut r = text::slice(t, 0, max - 1);
    r.push('…');
    assert(t@.subrange(0, max - 1) == t@.take(max - 1));
    r
}

/// Where a path starts and the rest of it: `~/` for a home path, else `/`
/// and the path without its leading slashes.
pub open spec fn head_of(p: Seq<char>) -> Seq<char> {
    if starts_with(p, seq!['~', '/']) {
        seq!['~', '/']
    } else {
        seq!['/']
    }
}

pub open spec fn rest_of(p: Seq<char>) -> Seq<char> {
    if starts_with(p, seq!['~', '/']) {
        p.skip(2)
    } else {
        trim_start_char(p, '/')
    }
}

/// The path's last `keep` segments behind its head and an ellipsis.
pub open spec fn elision(head: Seq<char>, segments: Seq<Seq<char>>, keep: int) -> Seq<char> {
    head + seq!['…', '/'] + text::joined(segments.skip(segments.len() - keep), seq!['/'])
}

/// The most segments, from `keep` down, that fit in `max`; the last segment
/// cut to fit when even one does not.
pub open spec fn elided_from(head: Seq<char>, segments: Seq<Seq<char>>, keep: int, max: nat) -> Seq<char>
    decreases keep,
{
    if keep < 1 {
        truncated(segments.last(), max)
    } else if elision(head, segments, keep).len() <= max {
        elision(head, segments, keep)
    } else {
        elided_from(head, segments, keep - 1, max)
    }
}

/// `~/projects/sports/android-monorepo-3` in twenty-four cells is
/// `~/…/android-monorepo-3`: the end of a path is what identifies it, so what
/// goes is the front, a whole segment at a time.
pub open spec fn elided(p: Seq<char>, max: nat) -> Seq<char> {
    if p.len() <= max {
        p
    } else {
        let segments = split(rest_of(p), '/');
        elided_from(head_of(p), segments, segments.len() - 1, max)
    }
}

proof fn lemma_elided_fits(head: Seq<char>, segments: Seq<Seq<char>>, keep: int, max: nat)
    ensures
        elided_from(head, segments, keep, max).len() <= max,
    decreases keep,
{
    if keep >= 1 && elision(head, segments, keep).len() > max {
        lemma_elided_fits(head, segments, keep - 1, max);
    }
}

pub fn elide(p: &[char], max: usize) -> (r: Vec<char>)
    ensures
        r@ == elided(p@, max as nat),
        r@.len() <= max,
{
    if p.len() <= max {
        return text::copy(p);
    }
    let tilde = ['~', '/'];
    assert(tilde@ =~= seq!['~', '/']);
    let (head, rest) = if text::has_prefix(p, &tilde) {
        let mut h: Vec<char> = Vec::new();
        h.push('~');
        h.push('/');
        assert(h@ =~= seq!['~', '/']);
        (h, text::slice(p, 2, p.len()))
    } else {
        let mut h: Vec<char> = Vec::new();
        h.push('/');
        assert(h@ =~= seq!['/']);
        (h, text::trimmed_start_char(p, '/'))
    };
    assert(head@ == head_of(p@));
    assert(rest@ == rest_of(p@));
    let segments = text::split_chars(&rest, '/');
    proof {
        text::lemma_split_len(rest@, '/');
    }
    let ghost segs = text::views(segments@);
    let slash = ['/'];
    assert(slash@ =~= seq!['/']);
    let mut keep: usize = segments.len() - 1;
    while keep >= 1
        invariant
            keep < segments.len(),
            segs == text::views(segments@),
            segs.len() == segments.len(),
            slash@ == seq!['/'],
            elided(p@, max as nat) == elided_from(head@, segs, keep as int, max as nat),
            p@.len() > max,
        decreases keep,
    {
        let mut candidate = text::copy(&head);
        candidate.push('…');
        candidate.push('/');
        let tail = text::join_pieces(&segments, segments.len() - keep, &slash);
        candidate.extend_from_slice(tail.as_slice());
        assert(candidate@ =~= elision(head@, segs, keep as int));
        if candidate.len() <= max {
            return candidate;
        }
        keep -= 1;
    }
    proof {
        lemma_elided_fits(head@, segs, 0, max as nat);
    }
    assert(segs.last() == segments@[segments.len() - 1]@);
    truncate(&segments[segments.len() - 1], max)
}

/// `/home/dev/code/api` as `~/code/api`, so the useful end of a long path is
/// what the eye lands on.
pub open spec fn abbreviated(p: Seq<char>, home: Seq<char>) -> Seq<char> {
    if starts_with(p, home) && p.len() == home.len() {
        seq!['~']
    } else if starts_with(p, home) && p[home.len() as int] == '/' {
        seq!['~'] + p.skip(home.len() as int)
    } else {
        p
    }
}

pub fn abbreviate(p: &[char], home: &[char]) -> (r: Vec<char>)
    ensures
        r@ == abbreviated(p@, home@),
{
    if text::has_prefix(p, home) {
        if p.len() == home.len() {
            let mut r: Vec<char> = Vec::new();
            r.push('~');
            assert(r@ =~= seq!['~']);
            return r;
        }
        if p[home.len()] == '/' {
            let mut r: Vec<char> = Vec::new();
            r.push('~');
            let rest = text::slice(p, home.len(), p.len());
            r.extend_from_slice(rest.as_slice());
            assert(r@ =~= seq!['~'] + p@.skip(home.len() as int));
            return r;
        }
    }
    text::copy(p)
}

/// `ada/VBSN-1-init` as `VBSN-1-init`: your own prefix on every branch of
/// every row is your own name, repeated as many times as you have rows.
pub open spec fn stripped(branch: Seq<char>, username: Seq<char>) -> Seq<char> {
    if username.len() > 0 && starts_with(branch, username.push('/')) {
        branch.skip(username.len() + 1 as int)
    } else {
        branch
    }
}

pub fn strip(branch: &[char], username: &[char]) -> (r: Vec<char>)
    ensures
        r@ == stripped(branch@, username@),
{
    if username.len() == 0 {
        return text::copy(branch);
    }
    let mut prefix = text::copy(username);
    prefix.push('/');
    if text::has_prefix(branch, &prefix) {
        text::slice(branch, prefix.len(), branch.len())
    } else {
        text::copy(branch)
    }
}

/// A path's last component, or the whole path when it has none.
pub open spec fn base(p: Seq<char>) -> Seq<char> {
    match file_name(p) {
        Some(n) => n,
        None => p,
    }
}

pub fn base_of(p: &str) -> (r: Vec<char>)
    ensures
        r@ == base(p@),
{
    match path::file_name_of(p) {
        Some(n) => text::chars(n.as_str()),
        None => text::chars(p),
    }
}

/// `▶` is the session you are in, `●` a client somewhere else, `○` a session
/// with nobody in it at all.
pub open spec fn glyph(s: Session) -> Seq<char> {
    if s.current {
        seq!['▶']
    } else if s.attached {
        seq!['●']
    } else {
        seq!['○']
    }
}

/// A row's six cells, before the grid is fitted.
pub open spec fn session_cells(s: Session, home: Seq<char>, username: Seq<char>) -> Seq<Seq<char>> {
    seq![
        glyph(s),
        s.name@,
        abbreviated(s.path@, home),
        stripped(s.branch@, username),
        s.command@,
        s.age@,
    ]
}

pub open spec fn project_cells(p: Project, home: Seq<char>) -> Seq<Seq<char>> {
    seq![Seq::empty(), p.name@, abbreviated(p.path@, home), Seq::empty(), Seq::empty(), Seq::empty()]
}

/// The corner does the nesting, which keeps the branch in the same column as
/// every session's branch.
pub open spec fn worktree_cells(w: Worktree, username: Seq<char>) -> Seq<Seq<char>> {
    seq![seq!['└'], base(w.path@), Seq::empty(), stripped(w.branch@, username), Seq::empty(), Seq::empty()]
}

/// No column may claim more than its share of the budget, so one long
/// worktree name cannot widen the name column for every other row.
pub open spec fn capped(c: Seq<Seq<char>>, budget: nat) -> Seq<Seq<char>> {
    seq![
        truncated(c[0], 1),
        truncated(c[1], budget / 3),
        elided(c[2], budget / 3),
        truncated(c[3], budget / 4),
        truncated(c[4], 12),
        truncated(c[5], 4),
    ]
}

/// Capping keeps whole every cell that fits its column's share: one cell for
/// the glyph, a third of the budget for the name and for the path, a quarter
/// for the branch, twelve cells for the command and four for the age. A
/// longer cell (the path aside, which loses whole segments from its front)
/// keeps the first share-less-one characters and ends in an ellipsis, and no
/// capped cell is wider than its share.
pub proof fn lemma_capped_keeps_what_fits(c: Seq<Seq<char>>, budget: nat)
    requires
        c.len() == 6,
    ensures
        ({
            let caps = seq![1nat, budget / 3, budget / 3, budget / 4, 12nat, 4nat];
            let r = capped(c, budget);
            &&& r.len() == 6
            &&& forall|k: int| 0 <= k < 6 ==> (#[trigger] r[k]).len() <= caps[k]
            &&& forall|k: int| 0 <= k < 6 && c[k].len() <= caps[k] ==> #[trigger] r[k] == c[k]
            &&& forall|k: int|
                0 <= k < 6 && k != 2 && c[k].len() > caps[k] && caps[k] > 0 ==> {
                    &&& (#[trigger] r[k]).len() == caps[k]
                    &&& r[k].last() == '…'
                    &&& r[k].drop_last() == c[k].take(caps[k] - 1)
                }
        }),
{
    let caps = seq![1nat, budget / 3, budget / 3, budget / 4, 12nat, 4nat];
    let r = capped(c, budget);
    if c[2].len() > budget / 3 {
        let segments = split(rest_of(c[2]), '/');
        lemma_elided_fits(head_of(c[2]), segments, segments.len() - 1, budget / 3);
    }
    assert forall|k: int|
        0 <= k < 6 && k != 2 && c[k].len() > caps[k] && caps[k] > 0 implies {
            &&& (#[trigger] r[k]).len() == caps[k]
            &&& r[k].last() == '…'
            &&& r[k].drop_last() == c[k].take(caps[k] - 1)
        } by {
        assert(r[k] == c[k].take(caps[k] - 1).push('…'));
        assert(r[k].drop_last() =~= c[k].take(caps[k] - 1));
    }
}

/// A session whose age fits in four cells shows it whole, whatever the
/// budget: `now`, `15m` and `12d` are never cut.
pub proof fn lemma_session_age_shown_whole(s: Session, home: Seq<char>, username: Seq<char>, budget: nat)
    requires
        s.age@.len() <= 4,
    ensures
        capped(session_cells(s, home, username), budget)[5] == s.age@,
{
    lemma_capped_keeps_what_fits(session_cells(s, home, username), budget);
}

/// The rows of the grid, in picker order: the sessions, the projects each
/// followed by its worktrees. The separator and the add row have no cells.
pub open spec fn grid_kinds(sessions: Seq<Session>, projects: Seq<Project>) -> Seq<Row> {
    Seq::new(sessions.len(), |i: int| Row::Session(i as usize)) + project_kinds(sessions, projects, projects.len() as int)
}

/// Whether a session sits exactly in `path`.
pub open spec fn live(sessions: Seq<Session>, path: Seq<char>) -> bool {
    exists|k: int| 0 <= k < sessions.len() && #[trigger] sessions[k].path@ == path
}

/// The rows of the first `c` worktrees of project `i`, leaving out each
/// that a session sits in: its session row above is the same work.
pub open spec fn worktree_kinds(sessions: Seq<Session>, projects: Seq<Project>, i: int, c: int) -> Seq<Row>
    decreases c,
{
    if c <= 0 {
        Seq::empty()
    } else {
        let prev = worktree_kinds(sessions, projects, i, c - 1);
        if live(sessions, projects[i].worktrees@[c - 1].path@) {
            prev
        } else {
            prev.push(Row::Worktree(i as usize, (c - 1) as usize))
        }
    }
}

/// Every row `worktree_kinds` gives is one of that project's first `c`
/// worktrees.
pub proof fn lemma_worktree_kinds(sessions: Seq<Session>, projects: Seq<Project>, i: int, c: int)
    ensures
        forall|k: int|
            0 <= k < worktree_kinds(sessions, projects, i, c).len() ==> ((#[trigger] worktree_kinds(
                sessions,
                projects,
                i,
                c,
            )[k]) matches Row::Worktree(i2, c2) && i2 == i as usize && c2 < c),
    decreases c,
{
    if c > 0 {
        lemma_worktree_kinds(sessions, projects, i, c - 1);
    }
}

/// The project rows of the first `n` projects, each followed by its
/// worktrees that no session sits in.
pub open spec fn project_kinds(sessions: Seq<Session>, projects: Seq<Project>, n: int) -> Seq<Row>
    decreases n,
{
    if n <= 0 {
        Seq::empty()
    } else {
        project_kinds(sessions, projects, n - 1).push(Row::Project((n - 1) as usize)) + worktree_kinds(
            sessions,
            projects,
            n - 1,
            projects[n - 1].worktrees.len() as int,
        )
    }
}

/// Every row in picker order: the sessions, a separator when there are any,
/// the projects with their worktrees, and the add row.
pub open spec fn kinds(sessions: Seq<Session>, projects: Seq<Project>) -> Seq<Row> {
    let below = project_kinds(sessions, projects, projects.len() as int);
    let top = Seq::new(sessions.len(), |i: int| Row::Session(i as usize));
    if sessions.len() > 0 {
        top.push(Row::Separator) + below.push(Row::AddManually)
    } else {
        below.push(Row::AddManually)
    }
}

/// The cells of a row that has them.
pub open spec fn cells_of(row: Row, sessions: Seq<Session>, projects: Seq<Project>, home: Seq<char>, username: Seq<char>) -> Seq<Seq<char>> {
    match row {
        Row::Session(i) => session_cells(sessions[i as int], home, username),
        Row::Project(i) => project_cells(projects[i as int], home),
        Row::Worktree(i, c) => worktree_cells(projects[i as int].worktrees[c as int], username),
        _ => Seq::empty(),
    }
}

pub open spec fn has_cells(row: Row) -> bool {
    row is Session || row is Project || row is Worktree
}

/// The widest cell of `column` among the first `n` rows.
pub open spec fn column_width(table: Seq<Seq<Seq<char>>>, column: int, n: int) -> nat
    decreases n,
{
    if n <= 0 {
        0
    } else {
        let w = column_width(table, column, n - 1);
        let c = table[n - 1][column].len();
        if c > w {
            c
        } else {
            w
        }
    }
}

/// The width of a row at these column widths. A column of width zero is not
/// there at all, gutter included.
pub open spec fn used(w: Seq<nat>, n: int) -> nat
    decreases n,
{
    if n <= 0 {
        0
    } else if w[n - 1] > 0 {
        used(w, n - 1) + 1
    } else {
        used(w, n - 1)
    }
}

pub open spec fn summed(w: Seq<nat>, n: int) -> nat
    decreases n,
{
    if n <= 0 {
        0
    } else {
        summed(w, n - 1) + w[n - 1]
    }
}

pub open spec fn line_width(w: Seq<nat>) -> nat {
    let k = used(w, w.len() as int);
    summed(w, w.len() as int) + 2 * (if k > 0 { k - 1 } else { 0 }) as nat
}

/// Narrow one column towards its floor, giving what is still over.
pub open spec fn shaved(w: Seq<nat>, column: int, floor: nat, over: nat) -> (Seq<nat>, nat) {
    let room: nat = if w[column] > floor { (w[column] - floor) as nat } else { 0 };
    let give: nat = if over < room { over } else { room };
    (w.update(column, (w[column] - give) as nat), (over - give) as nat)
}

/// Drop one column entirely, which also frees its gutter.
pub open spec fn given_up(w: Seq<nat>, column: int, over: nat) -> (Seq<nat>, nat) {
    if over == 0 || w[column] == 0 {
        (w, over)
    } else {
        let freed = w[column] + 2;
        (w.update(column, 0), if over > freed { (over - freed) as nat } else { 0 })
    }
}

/// The width of each column, shrunk until a row fits. What goes, goes in the
/// order a developer would have deleted it themselves: the path loses its
/// front, then the command, then the age, then the branch and the name are
/// shortened.
pub open spec fn fitted(w0: Seq<nat>, budget: nat) -> Seq<nat> {
    let over0: nat = if line_width(w0) > budget { (line_width(w0) - budget) as nat } else { 0 };
    let s1 = shaved(w0, 2, 18, over0);
    let s2 = given_up(s1.0, 4, s1.1);
    let s3 = given_up(s2.0, 5, s2.1);
    let s4 = shaved(s3.0, 2, 8, s3.1);
    let s5 = shaved(s4.0, 3, 6, s4.1);
    shaved(s5.0, 1, 6, s5.1).0
}

/// `t` followed by spaces out to `w` cells.
pub open spec fn padded(t: Seq<char>, w: nat) -> Seq<char> {
    t + Seq::new((if w > t.len() { w - t.len() } else { 0 }) as nat, |i: int| ' ')
}

/// The cells of the columns before `n` that are there, each cut and padded to
/// its width.
pub open spec fn pieces(c: Seq<Seq<char>>, w: Seq<nat>, n: int) -> Seq<Seq<char>>
    decreases n,
{
    if n <= 0 {
        Seq::empty()
    } else if w[n - 1] == 0 {
        pieces(c, w, n - 1)
    } else {
        let cut = if n - 1 == 2 {
            elided(c[n - 1], w[n - 1])
        } else {
            truncated(c[n - 1], w[n - 1])
        };
        pieces(c, w, n - 1).push(padded(cut, w[n - 1]))
    }
}

/// One row of the grid, stripped of the padding that runs off its end.
pub open spec fn grid_line(c: Seq<Seq<char>>, w: Seq<nat>) -> Seq<char> {
    trim_end(text::joined(pieces(c, w, 6), seq![' ', ' ']))
}


/// The cells of every row of a table, as text.
pub open spec fn grid_view(t: Seq<Vec<Vec<char>>>) -> Seq<Seq<Seq<char>>> {
    t.map_values(|c: Vec<Vec<char>>| text::views(c@))
}

/// Column widths as numbers.
pub open spec fn nats(w: Seq<usize>) -> Seq<nat> {
    w.map_values(|x: usize| x as nat)
}

/// The widest cell of each column of a table.
pub open spec fn column_widths(t: Seq<Seq<Seq<char>>>) -> Seq<nat> {
    Seq::new(6, |c: int| column_width(t, c, t.len() as int))
}

/// What a column may hold at most once capped.
pub open spec fn cap_of(column: int, budget: nat) -> nat {
    if column == 0 {
        1
    } else if column == 1 || column == 2 {
        budget / 3
    } else if column == 3 {
        budget / 4
    } else if column == 4 {
        12
    } else {
        4
    }
}

fn cell_row(a: Vec<char>, b: Vec<char>, c: Vec<char>, d: Vec<char>, e: Vec<char>, f: Vec<char>) -> (r: Vec<Vec<char>>)
    ensures
        text::views(r@) == seq![a@, b@, c@, d@, e@, f@],
        r.len() == 6,
{
    let mut r: Vec<Vec<char>> = Vec::new();
    r.push(a);
    r.push(b);
    r.push(c);
    r.push(d);
    r.push(e);
    r.push(f);
    assert(text::views(r@) =~= seq![a@, b@, c@, d@, e@, f@]);
    r
}

fn one(c: char) -> (r: Vec<char>)
    ensures
        r@ == seq![c],
{
    let mut r: Vec<char> = Vec::new();
    r.push(c);
    assert(r@ =~= seq![c]);
    r
}

fn session_row(s: &Session, home: &[char], username: &[char]) -> (r: Vec<Vec<char>>)
    ensures
        text::views(r@) == session_cells(*s, home@, username@),
    r.len() == 6,
{
    let g = if s.current {
        one('▶')
    } else if s.attached {
        one('●')
    } else {
        one('○')
    };
    cell_row(
        g,
        text::chars(s.name.as_str()),
        abbreviate(&text::chars(s.path.as_str()), home),
        strip(&text::chars(s.branch.as_str()), username),
        text::chars(s.command.as_str()),
        text::chars(s.age.as_str()),
    )
}

fn project_row(p: &Project, home: &[char]) -> (r: Vec<Vec<char>>)
    ensures
        text::views(r@) == project_cells(*p, home@),
    r.len() == 6,
{
    cell_row(
        Vec::new(),
        text::chars(p.name.as_str()),
        abbreviate(&text::chars(p.path.as_str()), home),
        Vec::new(),
        Vec::new(),
        Vec::new(),
    )
}

fn worktree_row(w: &Worktree, username: &[char]) -> (r: Vec<Vec<char>>)
    ensures
        text::views(r@) == worktree_cells(*w, username@),
    r.len() == 6,
{
    cell_row(
        one('└'),
        base_of(w.path.as_str()),
        Vec::new(),
        strip(&text::chars(w.branch.as_str()), username),
        Vec::new(),
        Vec::new(),
    )
}

fn cap(c: &Vec<Vec<char>>, budget: usize) -> (r: Vec<Vec<char>>)
    requires
        c.len() == 6,
    ensures
        text::views(r@) == capped(text::views(c@), budget as nat),
        r.len() == 6,
        forall|k: int| 0 <= k < 6 ==> (#[trigger] r@[k]).len() <= cap_of(k, budget as nat),
{
    let r = cell_row(
        truncate(&c[0], 1),
        truncate(&c[1], budget / 3),
        elide(&c[2], budget / 3),
        truncate(&c[3], budget / 4),
        truncate(&c[4], 12),
        truncate(&c[5], 4),
    );
    assert(text::views(r@)[0] == r@[0]@);
    assert(text::views(r@)[1] == r@[1]@);
    assert(text::views(r@)[2] == r@[2]@);
    assert(text::views(r@)[3] == r@[3]@);
    assert(text::views(r@)[4] == r@[4]@);
    assert(text::views(r@)[5] == r@[5]@);
    r
}

/// The widest cell of each column.
fn widths_of(t: &Vec<Vec<Vec<char>>>, budget: usize) -> (r: Vec<usize>)
    requires
        forall|i: int| 0 <= i < t.len() ==> (#[trigger] t@[i]).len() == 6,
        forall|i: int, k: int| 0 <= i < t.len() && 0 <= k < 6 ==> (#[trigger] t@[i]@[k]).len() <= cap_of(k, budget as nat),
    ensures
        r.len() == 6,
        nats(r@) == column_widths(grid_view(t@)),
        forall|k: int| 0 <= k < 6 ==> #[trigger] r@[k] <= cap_of(k, budget as nat),
{
    let mut r: Vec<usize> = Vec::new();
    let mut k: usize = 0;
    while k < 6
        invariant
            k <= 6,
            r.len() == k,
            forall|i: int, j: int| 0 <= i < t.len() && 0 <= j < 6 ==> (#[trigger] t@[i]@[j]).len() <= cap_of(j, budget as nat),
            forall|i: int| 0 <= i < t.len() ==> (#[trigger] t@[i]).len() == 6,
            forall|j: int| 0 <= j < k ==> #[trigger] r@[j] == column_width(grid_view(t@), j, t.len() as int),
            forall|j: int| 0 <= j < k ==> #[trigger] r@[j] <= cap_of(j, budget as nat),
        decreases 6 - k,
    {
        let mut w: usize = 0;
        let mut i: usize = 0;
        while i < t.len()
            invariant
                k < 6,
                i <= t.len(),
                forall|a: int, j: int| 0 <= a < t.len() && 0 <= j < 6 ==> (#[trigger] t@[a]@[j]).len() <= cap_of(j, budget as nat),
                forall|a: int| 0 <= a < t.len() ==> (#[trigger] t@[a]).len() == 6,
                w == column_width(grid_view(t@), k as int, i as int),
                w <= cap_of(k as int, budget as nat),
            decreases t.len() - i,
        {
            assert(grid_view(t@)[i as int][k as int] == t@[i as int]@[k as int]@);
            let n = t[i][k].len();
            if n > w {
                w = n;
            }
            i += 1;
        }
        r.push(w);
        k += 1;
    }
    assert(nats(r@) =~= column_widths(grid_view(t@)));
    r
}


/// The width of a row at these column widths.
fn line(w: &Vec<usize>) -> (r: u128)
    requires
        w.len() == 6,
    ensures
        r == line_width(nats(w@)),
{
    let mut sum: u128 = 0;
    let mut count: u128 = 0;
    let mut k: usize = 0;
    while k < 6
        invariant
            k <= 6,
            w.len() == 6,
            sum == summed(nats(w@), k as int),
            count == used(nats(w@), k as int),
            sum <= k * 0x1_0000_0000_0000_0000,
            count <= k,
        decreases 6 - k,
    {
        if w[k] > 0 {
            count += 1;
        }
        sum += w[k] as u128;
        k += 1;
    }
    if count > 0 {
        sum + 2 * (count - 1)
    } else {
        sum
    }
}

/// Narrow one column towards its floor, returning what is still over.
fn shave(w: &mut Vec<usize>, column: usize, floor: usize, over: u128) -> (r: u128)
    requires
        column < 6,
        old(w).len() == 6,
    ensures
        final(w).len() == 6,
        (nats(final(w)@), r as nat) == shaved(nats(old(w)@), column as int, floor as nat, over as nat),
{
    let room: usize = if w[column] > floor { w[column] - floor } else { 0 };
    let give: usize = if over < room as u128 { over as usize } else { room };
    let narrowed = w[column] - give;
    w.set(column, narrowed);
    assert(nats(w@) =~= nats(old(w)@).update(column as int, narrowed as nat));
    over - give as u128
}

/// Drop one column entirely, which also frees its gutter.
fn give_up(w: &mut Vec<usize>, column: usize, over: u128) -> (r: u128)
    requires
        column < 6,
        old(w).len() == 6,
    ensures
        final(w).len() == 6,
        (nats(final(w)@), r as nat) == given_up(nats(old(w)@), column as int, over as nat),
{
    if over == 0 || w[column] == 0 {
        return over;
    }
    let freed: u128 = w[column] as u128 + 2;
    w.set(column, 0);
    assert(nats(w@) =~= nats(old(w)@).update(column as int, 0));
    if over > freed {
        over - freed
    } else {
        0
    }
}

/// The settled width of each column.
fn fit(widths: Vec<usize>, budget: usize) -> (r: Vec<usize>)
    requires
        widths.len() == 6,
    ensures
        r.len() == 6,
        nats(r@) == fitted(nats(widths@), budget as nat),
{
    let mut w = widths;
    let total = line(&w);
    let mut over: u128 = if total > budget as u128 { total - budget as u128 } else { 0 };
    over = shave(&mut w, 2, SOFT_DIR, over);
    over = give_up(&mut w, 4, over);
    over = give_up(&mut w, 5, over);
    over = shave(&mut w, 2, MIN_DIR, over);
    over = shave(&mut w, 3, MIN_BRANCH, over);
    shave(&mut w, 1, MIN_NAME, over);
    w
}

/// `t` followed by spaces out to `width` cells.
fn pad(t: Vec<char>, width: usize) -> (r: Vec<char>)
    ensures
        r@ == padded(t@, width as nat),
{
    let mut r = t;
    let ghost start = r@;
    while r.len() < width
        invariant
            start.len() <= r.len(),
            r.len() <= if width > start.len() { width as int } else { start.len() as int },
            r@ == start + Seq::new((r.len() - start.len()) as nat, |i: int| ' '),
        decreases width - r.len(),
    {
        r.push(' ');
        assert(r@ =~= start + Seq::new((r.len() - start.len()) as nat, |i: int| ' '));
    }
    assert(r@ =~= padded(start, width as nat));
    r
}

/// One row of the grid at the settled widths.
fn grid_row(c: &Vec<Vec<char>>, w: &Vec<usize>) -> (r: Vec<char>)
    requires
        c.len() == 6,
        w.len() == 6,
    ensures
        r@ == grid_line(text::views(c@), nats(w@)),
{
    let mut parts: Vec<Vec<char>> = Vec::new();
    let mut k: usize = 0;
    while k < 6
        invariant
            k <= 6,
            c.len() == 6,
            w.len() == 6,
            text::views(parts@) == pieces(text::views(c@), nats(w@), k as int),
        decreases 6 - k,
    {
        assert(text::views(c@)[k as int] == c@[k as int]@);
        if w[k] > 0 {
            let cut = if k == 2 {
                elide(&c[k], w[k])
            } else {
                truncate(&c[k], w[k])
            };
            let ghost p0 = text::views(parts@);
            let piece = pad(cut, w[k]);
            let ghost pv = piece@;
            parts.push(piece);
            assert(text::views(parts@) =~= p0.push(pv));
        }
        k += 1;
    }
    let gutter = [' ', ' '];
    assert(gutter@ =~= seq![' ', ' ']);
    let joined_row = text::join_pieces(&parts, 0, &gutter);
    assert(text::views(parts@).skip(0) == text::views(parts@));
    text::trimmed_end(&joined_row)
}


/// The capped cells of every grid row, in picker order.
pub open spec fn grid(sessions: Seq<Session>, projects: Seq<Project>, home: Seq<char>, username: Seq<char>, budget: nat) -> Seq<Seq<Seq<char>>> {
    grid_kinds(sessions, projects).map_values(
        |row: Row| capped(cells_of(row, sessions, projects, home, username), budget),
    )
}

/// The settled column widths of the whole list.
pub open spec fn settled(sessions: Seq<Session>, projects: Seq<Project>, home: Seq<char>, username: Seq<char>, budget: nat) -> Seq<nat> {
    fitted(column_widths(grid(sessions, projects, home, username, budget)), budget)
}

/// The rule between the sessions and the rest, as wide as a grid row.
pub open spec fn rule(w: Seq<nat>, budget: nat) -> Seq<char> {
    Seq::new(if line_width(w) < budget { line_width(w) } else { budget }, |i: int| '─')
}

/// How a row reads in the picker. The separator and the add row are not
/// grid rows, having nothing to line up with. Whatever happens above, no row
/// is wider than the budget.
pub open spec fn label(row: Row, sessions: Seq<Session>, projects: Seq<Project>, home: Seq<char>, username: Seq<char>, budget: nat) -> Seq<char> {
    let w = settled(sessions, projects, home, username, budget);
    if has_cells(row) {
        truncated(grid_line(capped(cells_of(row, sessions, projects, home, username), budget), w), budget)
    } else if row is Separator {
        truncated(rule(w, budget), budget)
    } else {
        truncated("✚  add a project by path"@, budget)
    }
}

/// The room a list `width` wide leaves for a row, after the marker.
pub open spec fn budget_of(width: usize) -> nat {
    if width > 2 {
        (width - 2) as nat
    } else {
        0
    }
}

fn label_string(v: Vec<char>, budget: usize) -> (r: String)
    ensures
        r@ == truncated(v@, budget as nat),
        r@.len() <= budget,
{
    text::string(&truncate(&v, budget))
}

proof fn lemma_project_kinds_cells(ss: Seq<Session>, ps: Seq<Project>, n: int)
    ensures
        forall|i: int| 0 <= i < project_kinds(ss, ps, n).len() ==> has_cells(#[trigger] project_kinds(ss, ps, n)[i]),
    decreases n,
{
    if n > 0 {
        lemma_project_kinds_cells(ss, ps, n - 1);
        let p = project_kinds(ss, ps, n - 1).push(Row::Project((n - 1) as usize));
        let q = worktree_kinds(ss, ps, n - 1, ps[n - 1].worktrees.len() as int);
        lemma_worktree_kinds(ss, ps, n - 1, ps[n - 1].worktrees.len() as int);
        assert forall|i: int| 0 <= i < (p + q).len() implies has_cells(#[trigger] (p + q)[i]) by {
            if i < p.len() - 1 {
                assert(p[i] == project_kinds(ss, ps, n - 1)[i]);
            } else if i >= p.len() {
                assert((p + q)[i] == q[i - p.len()]);
            }
        }
    }
}

/// Whether a session sits exactly in `dir`.
fn live_in(sessions: &[Session], dir: &str) -> (r: bool)
    ensures
        r == live(sessions@, dir@),
{
    let mut i: usize = 0;
    while i < sessions.len()
        invariant
            i <= sessions.len(),
            forall|k: int| 0 <= k < i ==> #[trigger] sessions@[k].path@ != dir@,
        decreases sessions.len() - i,
    {
        if text::same(sessions[i].path.as_str(), dir) {
            return true;
        }
        i += 1;
    }
    false
}

/// The rows, in picker order, each with the line it reads as in a list
/// `width` wide.
pub fn rows(sessions: &[Session], projects: &[Project], home: &str, username: &str, width: usize) -> (r: Vec<(Row, String)>)
    ensures
        r.len() == kinds(sessions@, projects@).len(),
        forall|i: int| 0 <= i < r.len() ==> (#[trigger] r@[i]).0 == kinds(sessions@, projects@)[i],
        forall|i: int|
            0 <= i < r.len() ==> (#[trigger] r@[i]).1@ == label(
                kinds(sessions@, projects@)[i],
                sessions@,
                projects@,
                home@,
                username@,
                budget_of(width),
            ),
        forall|i: int| 0 <= i < r.len() ==> (#[trigger] r@[i]).1@.len() <= budget_of(width),
{
    let budget: usize = if width > PREFIX { width - PREFIX } else { 0 };
    let ghost b = budget as nat;
    let h = text::chars(home);
    let u = text::chars(username);
    let ghost ss = sessions@;
    let ghost ps = projects@;
    let ghost cells_at = |row: Row| capped(cells_of(row, ss, ps, home@, username@), b);
    let mut kinds_grid: Vec<Row> = Vec::new();
    let mut table: Vec<Vec<Vec<char>>> = Vec::new();
    let mut i: usize = 0;
    while i < sessions.len()
        invariant
            i <= sessions.len(),
            ss == sessions@,
            h@ == home@,
            u@ == username@,
            b == budget as nat,
            cells_at == (|row: Row| capped(cells_of(row, ss, ps, home@, username@), b)),
            kinds_grid@ == Seq::new(i as nat, |k: int| Row::Session(k as usize)),
            table.len() == kinds_grid.len(),
            forall|k: int| 0 <= k < table.len() ==> text::views(#[trigger] table@[k]@) == cells_at(kinds_grid@[k]),
            forall|k: int| 0 <= k < table.len() ==> (#[trigger] table@[k]).len() == 6,
            forall|k: int, j: int| 0 <= k < table.len() && 0 <= j < 6 ==> (#[trigger] table@[k]@[j]).len() <= cap_of(j, b),
        decreases sessions.len() - i,
    {
        let c = cap(&session_row(&sessions[i], &h, &u), budget);
        table.push(c);
        kinds_grid.push(Row::Session(i));
        i += 1;
        assert(kinds_grid@ =~= Seq::new(i as nat, |k: int| Row::Session(k as usize)));
    }
    let ghost top = kinds_grid@;
    let mut i: usize = 0;
    while i < projects.len()
        invariant
            i <= projects.len(),
            ps == projects@,
            ss == sessions@,
            h@ == home@,
            u@ == username@,
            b == budget as nat,
            cells_at == (|row: Row| capped(cells_of(row, ss, ps, home@, username@), b)),
            kinds_grid@ == top + project_kinds(ss, ps, i as int),
            table.len() == kinds_grid.len(),
            forall|k: int| 0 <= k < table.len() ==> text::views(#[trigger] table@[k]@) == cells_at(kinds_grid@[k]),
            forall|k: int| 0 <= k < table.len() ==> (#[trigger] table@[k]).len() == 6,
            forall|k: int, j: int| 0 <= k < table.len() && 0 <= j < 6 ==> (#[trigger] table@[k]@[j]).len() <= cap_of(j, b),
        decreases projects.len() - i,
    {
        let p = &projects[i];
        table.push(cap(&project_row(p, &h), budget));
        kinds_grid.push(Row::Project(i));
        let ghost with_project = kinds_grid@;
        let mut c: usize = 0;
        while c < p.worktrees.len()
            invariant
                c <= p.worktrees.len(),
                i < projects.len(),
                *p == projects@[i as int],
                ps == projects@,
                h@ == home@,
                u@ == username@,
                b == budget as nat,
                cells_at == (|row: Row| capped(cells_of(row, ss, ps, home@, username@), b)),
                ss == sessions@,
                kinds_grid@ == with_project + worktree_kinds(ss, ps, i as int, c as int),
                table.len() == kinds_grid.len(),
                forall|k: int| 0 <= k < table.len() ==> text::views(#[trigger] table@[k]@) == cells_at(kinds_grid@[k]),
                forall|k: int| 0 <= k < table.len() ==> (#[trigger] table@[k]).len() == 6,
                forall|k: int, j: int| 0 <= k < table.len() && 0 <= j < 6 ==> (#[trigger] table@[k]@[j]).len() <= cap_of(j, b),
            decreases p.worktrees.len() - c,
        {
            if !live_in(sessions, p.worktrees[c].path.as_str()) {
                table.push(cap(&worktree_row(&p.worktrees[c], &u), budget));
                kinds_grid.push(Row::Worktree(i, c));
            }
            c += 1;
            assert(kinds_grid@ =~= with_project + worktree_kinds(ss, ps, i as int, c as int));
        }
        i += 1;
        assert(kinds_grid@ =~= top + project_kinds(ss, ps, i as int));
    }
    assert(kinds_grid@ == grid_kinds(ss, ps));
    proof {
        lemma_project_kinds_cells(ss, ps, ps.len() as int);
        assert forall|j: int| 0 <= j < kinds_grid.len() implies has_cells(#[trigger] kinds_grid@[j]) by {
            if j >= top.len() {
                assert(kinds_grid@[j] == project_kinds(ss, ps, ps.len() as int)[j - top.len()]);
            }
        }
    }
    assert(grid_view(table@) =~= grid(ss, ps, home@, username@, b));
    let widths = widths_of(&table, budget);
    let w = fit(widths, budget);
    assert(nats(w@) == settled(ss, ps, home@, username@, b));
    let mut r: Vec<(Row, String)> = Vec::new();
    let mut k: usize = 0;
    while k < table.len()
        invariant
            k <= table.len(),
            table.len() == kinds_grid.len(),
            kinds_grid@ == grid_kinds(ss, ps),
            w.len() == 6,
            nats(w@) == settled(ss, ps, home@, username@, b),
            b == budget as nat,
            cells_at == (|row: Row| capped(cells_of(row, ss, ps, home@, username@), b)),
            forall|j: int| 0 <= j < table.len() ==> text::views(#[trigger] table@[j]@) == cells_at(kinds_grid@[j]),
            forall|j: int| 0 <= j < table.len() ==> (#[trigger] table@[j]).len() == 6,
            r.len() == k,
            forall|j: int| 0 <= j < kinds_grid.len() ==> has_cells(#[trigger] kinds_grid@[j]),
            forall|j: int| 0 <= j < k ==> (#[trigger] r@[j]).0 == kinds_grid@[j],
            forall|j: int| 0 <= j < k ==> (#[trigger] r@[j]).1@ == label(kinds_grid@[j], ss, ps, home@, username@, b),
        decreases table.len() - k,
    {
        let text_row = grid_row(&table[k], &w);
        assert(has_cells(kinds_grid@[k as int]));
        r.push((kinds_grid[k], label_string(text_row, budget)));
        k += 1;
    }
    let ghost grid_rows = r@;
    // The separator goes after the sessions, the add row last.
    let n = sessions.len();
    let mut out: Vec<(Row, String)> = Vec::new();
    let mut k: usize = 0;
    while k < r.len()
        invariant
            k <= r.len(),
            r@ == grid_rows,
            n == ss.len(),
            n <= r.len(),
            out.len() == (if n > 0 && k >= n { k + 1 } else { k as int }),
            forall|j: int| 0 <= j < k && j < n ==> #[trigger] out@[j] == grid_rows[j],
            forall|j: int| n <= j < k ==> #[trigger] grid_rows[j] == out@[if n > 0 { j + 1 } else { j }],
            n > 0 && k >= n ==> out@[n as int].0 == Row::Separator && out@[n as int].1@ == label(
                Row::Separator,
                ss,
                ps,
                home@,
                username@,
                b,
            ),
            w.len() == 6,
            nats(w@) == settled(ss, ps, home@, username@, b),
            b == budget as nat,
        decreases r.len() - k,
    {
        out.push((r[k].0, r[k].1.clone()));
        k += 1;
        if k == n {
            let total = line(&w);
            let width_of_rule: usize = if total < budget as u128 { total as usize } else { budget };
            let mut line_chars: Vec<char> = Vec::new();
            while line_chars.len() < width_of_rule
                invariant
                    line_chars.len() <= width_of_rule,
                    line_chars@ == Seq::new(line_chars.len() as nat, |i: int| '─'),
                decreases width_of_rule - line_chars.len(),
            {
                line_chars.push('─');
                assert(line_chars@ =~= Seq::new(line_chars.len() as nat, |i: int| '─'));
            }
            assert(line_chars@ =~= rule(nats(w@), b));
            out.push((Row::Separator, label_string(line_chars, budget)));
        }
    }
    let add = text::chars("✚  add a project by path");
    out.push((Row::AddManually, label_string(add, budget)));
    proof {
        let below = project_kinds(ss, ps, ps.len() as int);
        let topk = Seq::new(ss.len(), |i: int| Row::Session(i as usize));
        assert(grid_kinds(ss, ps) == topk + below);
        let ks = kinds(ss, ps);
        assert(out.len() == ks.len());
        assert forall|i: int| 0 <= i < out.len() implies (#[trigger] out@[i]).0 == ks[i] && out@[i].1@ == label(
            ks[i],
            ss,
            ps,
            home@,
            username@,
            b,
        ) by {
            if i < n {
                assert(out@[i] == grid_rows[i]);
                assert(ks[i] == topk[i]);
            } else if n > 0 && i == n {
            } else if i < out.len() - 1 {
                let j = if n > 0 { i - 1 } else { i };
                assert(grid_rows[j] == out@[i]);
                assert(grid_kinds(ss, ps)[j] == below[j - n]);
                assert(ks[i] == below[j - n]);
            }
        }
    }
    out
}


/// How many rows of one kind: sessions, or else projects.
pub open spec fn counted(rows: Seq<(Row, String)>, sessions: bool) -> nat
    decreases rows.len(),
{
    if rows.len() == 0 {
        0
    } else {
        let here: nat = if (sessions && rows.last().0 is Session) || (!sessions && rows.last().0 is Project) {
            1
        } else {
            0
        };
        counted(rows.drop_last(), sessions) + here
    }
}

/// The prompt line, the one line that never scrolls away: what the list is
/// made of. A worktree credits its project, as it does everywhere else.
pub open spec fn title_text(running: nat, projects: nat) -> Seq<char> {
    let listed = if projects == 1 {
        "1 project"@
    } else {
        decimal(projects) + " projects"@
    };
    if running == 0 {
        "Open  "@ + listed
    } else {
        "Open  "@ + decimal(running) + " running · "@ + listed
    }
}

pub fn title(rows: &[(Row, String)]) -> (r: String)
    ensures
        r@ == title_text(counted(rows@, true), counted(rows@, false)),
{
    let mut running: usize = 0;
    let mut projects: usize = 0;
    let mut i: usize = 0;
    while i < rows.len()
        invariant
            i <= rows.len(),
            running == counted(rows@.take(i as int), true),
            projects == counted(rows@.take(i as int), false),
            running <= i,
            projects <= i,
        decreases rows.len() - i,
    {
        assert(rows@.take(i + 1).drop_last() == rows@.take(i as int));
        match rows[i].0 {
            Row::Session(_) => running += 1,
            Row::Project(_) => projects += 1,
            _ => {},
        }
        i += 1;
    }
    assert(rows@.take(i as int) == rows@);
    let mut r = String::from_str("Open  ");
    if running > 0 {
        text::push_decimal(&mut r, running as u64);
        text::push_str(&mut r, " running · ");
    }
    if projects == 1 {
        text::push_str(&mut r, "1 project");
    } else {
        text::push_decimal(&mut r, projects as u64);
        text::push_str(&mut r, " projects");
    }
    r
}

/// What → offers on a row, as its panel says it.
pub open spec fn offer_line(offered: Seq<Seq<char>>) -> Seq<char> {
    "→ "@ + text::joined(offered, " · "@)
}

/// A labelled line when there is something to say, else none.
pub open spec fn said(label: Seq<char>, value: Seq<char>) -> Seq<Seq<char>> {
    if value.len() > 0 {
        seq![label + value]
    } else {
        Seq::empty()
    }
}

/// The panel beside the picker for the row under the cursor: the row in full
/// where the grid cut it, what → offers, and a session's note. The separator
/// has nothing to show.
pub open spec fn previewed(row: Row, sessions: Seq<Session>, projects: Seq<Project>, home: Seq<char>, offered: Seq<Seq<char>>) -> Seq<Seq<char>> {
    match row {
        Row::Session(i) => {
            let s = sessions[i as int];
            seq![s.name@, "dir     "@ + abbreviated(s.path@, home)] + said("branch  "@, s.branch@) + said(
                "running "@,
                s.command@,
            ) + seq![Seq::empty(), offer_line(offered)] + (if s.note@.len() > 0 {
                seq![Seq::empty(), "Notes: "@ + s.note@]
            } else {
                Seq::empty()
            })
        },
        Row::Project(i) => {
            let p = projects[i as int];
            seq![p.name@, "dir     "@ + abbreviated(p.path@, home), Seq::empty(), offer_line(offered)]
        },
        Row::Worktree(i, c) => {
            let w = projects[i as int].worktrees[c as int];
            seq![base(w.path@), "dir     "@ + abbreviated(w.path@, home)] + said("branch  "@, w.branch@)
                + seq!["of      "@ + projects[i as int].name@, Seq::empty(), offer_line(offered)]
        },
        Row::Separator => Seq::empty(),
        Row::AddManually => seq!["add a repository that lives outside the projects directories"@],
    }
}

/// `label` then `value`, when there is a value.
fn say_line(out: &mut Vec<String>, label: &str, value: &str)
    ensures
        path::texts(final(out)@) == path::texts(old(out)@) + said(label@, value@),
{
    let ghost before = path::texts(out@);
    if text::chars(value).len() > 0 {
        out.push(text::concat(label, value));
        assert(path::texts(out@) =~= before + said(label@, value@));
    } else {
        assert(path::texts(out@) =~= before + said(label@, value@));
    }
}

fn push_line(out: &mut Vec<String>, line: String)
    ensures
        path::texts(final(out)@) == path::texts(old(out)@).push(line@),
{
    let ghost before = path::texts(out@);
    out.push(line);
    assert(path::texts(out@) =~= before.push(line@));
}

fn offers(offered: &[String]) -> (r: String)
    ensures
        r@ == offer_line(path::texts(offered@)),
{
    let mut parts: Vec<Vec<char>> = Vec::new();
    let mut i: usize = 0;
    while i < offered.len()
        invariant
            i <= offered.len(),
            text::views(parts@) == path::texts(offered@).take(i as int),
        decreases offered.len() - i,
    {
        let ghost p0 = text::views(parts@);
        let piece = text::chars(offered[i].as_str());
        let ghost pv = piece@;
        parts.push(piece);
        assert(pv == offered@[i as int]@);
        assert(text::views(parts@) =~= p0.push(pv));
        assert(path::texts(offered@).take(i + 1) =~= path::texts(offered@).take(i as int).push(offered@[i as int]@));
        i += 1;
    }
    assert(path::texts(offered@).take(i as int) == path::texts(offered@));
    let sep = text::chars(" · ");
    let joined_offers = text::join_pieces(&parts, 0, &sep);
    assert(text::views(parts@).skip(0) == text::views(parts@));
    let mut r = String::from_str("→ ");
    text::push_str(&mut r, text::string(&joined_offers).as_str());
    r
}

/// The panel for a row, `offered` being what its menu holds.
pub fn preview(row: Row, sessions: &[Session], projects: &[Project], home: &str, offered: &[String]) -> (r: Vec<String>)
    requires
        row matches Row::Session(i) ==> i < sessions.len(),
        row matches Row::Project(i) ==> i < projects.len(),
        row matches Row::Worktree(i, c) ==> i < projects.len() && c < projects@[i as int].worktrees.len(),
    ensures
        path::texts(r@) == previewed(row, sessions@, projects@, home@, path::texts(offered@)),
{
    let h = text::chars(home);
    let mut out: Vec<String> = Vec::new();
    match row {
        Row::Session(i) => {
            let s = &sessions[i];
            push_line(&mut out, s.name.clone());
            let mut dir = String::from_str("dir     ");
            text::push_str(&mut dir, text::string(&abbreviate(&text::chars(s.path.as_str()), &h)).as_str());
            push_line(&mut out, dir);
            say_line(&mut out, "branch  ", s.branch.as_str());
            say_line(&mut out, "running ", s.command.as_str());
            push_line(&mut out, String::new());
            push_line(&mut out, offers(offered));
            if text::chars(s.note.as_str()).len() > 0 {
                push_line(&mut out, String::new());
                push_line(&mut out, text::concat("Notes: ", s.note.as_str()));
            }
            assert(path::texts(out@) =~= previewed(row, sessions@, projects@, home@, path::texts(offered@)));
        },
        Row::Project(i) => {
            let p = &projects[i];
            push_line(&mut out, p.name.clone());
            let mut dir = String::from_str("dir     ");
            text::push_str(&mut dir, text::string(&abbreviate(&text::chars(p.path.as_str()), &h)).as_str());
            push_line(&mut out, dir);
            push_line(&mut out, String::new());
            push_line(&mut out, offers(offered));
            assert(path::texts(out@) =~= previewed(row, sessions@, projects@, home@, path::texts(offered@)));
        },
        Row::Worktree(i, c) => {
            let p = &projects[i];
            let w = &p.worktrees[c];
            push_line(&mut out, text::string(&base_of(w.path.as_str())));
            let mut dir = String::from_str("dir     ");
            text::push_str(&mut dir, text::string(&abbreviate(&text::chars(w.path.as_str()), &h)).as_str());
            push_line(&mut out, dir);
            say_line(&mut out, "branch  ", w.branch.as_str());
            push_line(&mut out, text::concat("of      ", p.name.as_str()));
            push_line(&mut out, String::new());
            push_line(&mut out, offers(offered));
            assert(path::texts(out@) =~= previewed(row, sessions@, projects@, home@, path::texts(offered@)));
        },
        Row::Separator => {
            assert(path::texts(out@) =~= previewed(row, sessions@, projects@, home@, path::texts(offered@)));
        },
        Row::AddManually => {
            push_line(&mut out, String::from_str("add a repository that lives outside the projects directories"));
            assert(path::texts(out@) =~= previewed(row, sessions@, projects@, home@, path::texts(offered@)));
        },
    }
    out
}

} // verus!
