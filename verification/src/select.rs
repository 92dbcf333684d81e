//! The measures of the window every list prompt is drawn in: how many rows a
//! page holds, where the page starts, how the terminal is shared between the
//! list and the panel previewing the row under the cursor, how a panel line
//! wraps, and the line of keys under the window.

use vstd::prelude::*;
use crate::host::Pick;
use crate::line::{self, applied, Code, Key, Line};
use crate::path::texts;
use crate::text::{self, is_space, trim_end};
use fuzzy_matcher::FuzzyMatcher;

verus! {

/// The gap before the panel, and its `│ ` and ` │`.
pub const PANEL_CHROME: usize = 6;

/// How many rows the list may show: the terminal less the window's five
/// lines — two rules, the question, the gap under it and the keys — and two
/// rows of margin. Floored at five: a very short terminal still needs enough
/// rows to be a list.
pub fn page_size(height: usize) -> (r: usize)
    ensures
        r == (if height >= 12 { height - 7 } else { 5 }),
{
    let rows: usize = if height > 7 { height - 7 } else { 0 };
    if rows > 5 {
        rows
    } else {
        5
    }
}

/// The first row on screen: the cursor held mid-page until an end of the
/// list is in view.
pub fn top(cursor: usize, len: usize, page: usize) -> (r: usize)
    ensures
        r == top_row(cursor as nat, len as nat, page as nat),
        r == (if cursor >= page / 2 { cursor - page / 2 } else { 0 }) as int || r == (if len
            >= page { len - page } else { 0 }) as int,
        r <= (if cursor >= page / 2 { cursor - page / 2 } else { 0 }),
        r <= (if len >= page { len - page } else { 0 }),
{
    let held: usize = if cursor >= page / 2 { cursor - page / 2 } else { 0 };
    let last: usize = if len >= page { len - page } else { 0 };
    if held < last {
        held
    } else {
        last
    }
}

/// A terminal `width` wide split into the list's width and the width of the
/// panel's text: a third of the terminal, up to 64 columns. Below 100
/// columns the grid needs every one and there is no panel.
pub fn split(width: usize) -> (r: (usize, usize))
    ensures
        width < 100 ==> r == (width, 0usize),
        width >= 100 ==> {
            let panel: int = if width / 3 < 64 { (width / 3) as int } else { 64 };
            r.0 == width - panel && r.1 == panel - 6
        },
{
    if width < 100 {
        return (width, 0);
    }
    let panel: usize = if width / 3 < 64 { width / 3 } else { 64 };
    (width - panel, panel - PANEL_CHROME)
}

/// The last space in `s` at or before `at`, and not at its very start.
pub open spec fn break_at(s: Seq<char>, at: int) -> Option<int>
    decreases at,
{
    if at <= 0 {
        None
    } else if s[at] == ' ' {
        Some(at)
    } else {
        break_at(s, at - 1)
    }
}

/// `s` with the spaces at its start removed.
pub open spec fn unspaced(s: Seq<char>) -> Seq<char>
    decreases s.len(),
{
    if s.len() > 0 && s[0] == ' ' {
        unspaced(s.drop_first())
    } else {
        s
    }
}

/// `text` in lines of at most `width` cells, broken at the last space that
/// fits, or mid-word when none does.
pub open spec fn wrapped(s: Seq<char>, width: nat) -> Seq<Seq<char>>
    decreases s.len(),
{
    let w: int = if width == 0 { 1 } else { width as int };
    if s.len() <= w {
        seq![s]
    } else {
        let at = match break_at(s, w) {
            Some(i) => i,
            None => w,
        };
        proof {
            lemma_break_at(s, w);
            lemma_unspaced_len(s.skip(at));
        }
        seq![trim_end(s.take(at))] + wrapped(unspaced(s.skip(at)), width)
    }
}

pub proof fn lemma_break_at(s: Seq<char>, at: int)
    requires
        0 <= at < s.len(),
    ensures
        match break_at(s, at) {
            Some(i) => 0 < i <= at && s[i] == ' ' && forall|j: int| i < j <= at ==> s[j] != ' ',
            None => forall|j: int| 0 < j <= at ==> s[j] != ' ',
        },
    decreases at,
{
    if at > 0 && s[at] != ' ' {
        lemma_break_at(s, at - 1);
    }
}

pub proof fn lemma_unspaced_len(s: Seq<char>)
    ensures
        unspaced(s).len() <= s.len(),
    decreases s.len(),
{
    if s.len() > 0 && s[0] == ' ' {
        lemma_unspaced_len(s.drop_first());
    }
}

proof fn lemma_unspaced(s: Seq<char>, k: int)
    requires
        0 <= k <= s.len(),
        forall|j: int| 0 <= j < k ==> s[j] == ' ',
        k < s.len() ==> s[k] != ' ',
    ensures
        unspaced(s) == s.skip(k),
        unspaced(s).len() <= s.len(),
    decreases k,
{
    if k > 0 {
        lemma_unspaced(s.drop_first(), k - 1);
        assert(s.drop_first().skip(k - 1) == s.skip(k));
    } else {
        assert(s.skip(0) == s);
    }
}

/// One line off the front of `rest`, and what is left after it.
fn wrap_step(rest: &Vec<char>, w: usize, width: usize) -> (r: (String, Vec<char>))
    requires
        w == (if width == 0 { 1 } else { width }),
        rest.len() > w,
    ensures
        wrapped(rest@, width as nat) == seq![r.0@] + wrapped(r.1@, width as nat),
        r.1.len() < rest.len(),
{
    let mut at: usize = w;
    while at > 0 && rest[at] != ' '
        invariant
            at <= w,
            w < rest.len(),
            break_at(rest@, w as int) == break_at(rest@, at as int),
        decreases at,
    {
        at -= 1;
    }
    if at == 0 {
        at = w;
    }
    assert(at == match break_at(rest@, w as int) {
        Some(i) => i,
        None => w as int,
    });
    proof {
        lemma_break_at(rest@, w as int);
    }
    let head = text::slice(rest, 0, at);
    assert(head@ == rest@.take(at as int));
    let line = text::string(&text::trimmed_end(&head));
    let mut k = at;
    while k < rest.len() && rest[k] == ' '
        invariant
            at <= k <= rest.len(),
            forall|j: int| at <= j < k ==> rest@[j] == ' ',
        decreases rest.len() - k,
    {
        k += 1;
    }
    proof {
        lemma_unspaced(rest@.skip(at as int), k - at);
        assert(rest@.skip(at as int).skip(k - at) == rest@.skip(k as int));
    }
    let next = text::slice(rest, k, rest.len());
    assert(next@ == unspaced(rest@.skip(at as int)));
    (line, next)
}

/// `text` in lines of at most `width`, broken at the last space that fits,
/// or mid-word when none does.
pub fn wrap(t: &str, width: usize) -> (r: Vec<String>)
    ensures
        crate::path::texts(r@) == wrapped(t@, width as nat),
{
    let w: usize = if width == 0 { 1 } else { width };
    let mut rest = text::chars(t);
    let mut lines: Vec<String> = Vec::new();
    while rest.len() > w
        invariant
            w == (if width == 0 { 1 } else { width }),
            crate::path::texts(lines@) + wrapped(rest@, width as nat) == wrapped(t@, width as nat),
        decreases rest.len(),
    {
        let (line, next) = wrap_step(&rest, w, width);
        let ghost l0 = crate::path::texts(lines@);
        let ghost before = rest@;
        lines.push(line);
        assert(crate::path::texts(lines@) + wrapped(next@, width as nat) =~= l0 + wrapped(
            before,
            width as nat,
        ));
        rest = next;
    }
    let ghost l0 = crate::path::texts(lines@);
    let last = text::string(&rest);
    lines.push(last);
    assert(crate::path::texts(lines@) =~= l0 + wrapped(rest@, width as nat));
    lines
}

/// The keys a list binds, in the line under it.
pub open spec fn footer_text(filter: bool, options: nat, keys: Seq<char>) -> Seq<char> {
    let n: nat = if options < 9 { options } else { 9 };
    let choose = if filter {
        "type to filter"@
    } else if n == 1 {
        "1 to choose"@
    } else {
        "1-"@ + text::decimal(n) + " to choose"@
    };
    "Enter to select · ↑/↓ to navigate · "@ + choose + (if keys.len() > 0 {
        " · "@ + keys
    } else {
        Seq::empty()
    }) + " · Esc to cancel"@
}

/// The line of keys under the window.
pub fn footer(filter: bool, options: usize, keys: &str) -> (r: String)
    ensures
        r@ == footer_text(filter, options as nat, keys@),
{
    let n: usize = if options < 9 { options } else { 9 };
    let mut r = String::from_str("Enter to select · ↑/↓ to navigate · ");
    if filter {
        text::push_str(&mut r, "type to filter");
    } else if n == 1 {
        text::push_str(&mut r, "1 to choose");
    } else {
        text::push_str(&mut r, "1-");
        text::push_decimal(&mut r, n as u64);
        text::push_str(&mut r, " to choose");
    }
    if text::chars(keys).len() > 0 {
        text::push_str(&mut r, " · ");
        text::push_str(&mut r, keys);
    }
    text::push_str(&mut r, " · Esc to cancel");
    r
}

/// The first `width` characters of `t`.
pub fn cut(t: &str, width: usize) -> (r: String)
    ensures
        r@ == (if t@.len() <= width { t@ } else { t@.take(width as int) }),
{
    let v = text::chars(t);
    if v.len() <= width {
        text::string(&v)
    } else {
        let head = text::slice(&v, 0, width);
        assert(head@ == t@.take(width as int));
        text::string(&head)
    }
}

/// How well `choice` matches `pattern` by skim's fuzzy scorer, ignoring case:
/// `None` when it does not match at all.
pub uninterp spec fn fuzzy_score(choice: Seq<char>, pattern: Seq<char>) -> Option<i64>;

/// skim's scorer, case ignored: `SkimMatcherV2::fuzzy_match`. An empty
/// pattern matches everything, equally.
#[verifier::external_body]
fn fuzzy_match(choice: &str, pattern: &str) -> (r: Option<i64>)
    ensures
        r == fuzzy_score(choice@, pattern@),
        pattern@.len() == 0 ==> r == Some(0i64),
{
    fuzzy_matcher::skim::SkimMatcherV2::default().ignore_case().fuzzy_match(choice, pattern)
}

/// A list, as the host asks for one.
pub struct Ask {
    pub message: String,
    pub options: Vec<String>,
    /// Beside the list, a panel for the option under the cursor. Empty for
    /// no panel, as is any one option's.
    pub previews: Vec<Vec<String>>,
    /// The keys this list binds beyond those every list does.
    pub keys: String,
    /// Typing filters and Tab chooses. Otherwise the options are numbered.
    pub filter: bool,
    /// ← and → choose.
    pub arrows: bool,
    /// The option the cursor starts on.
    pub cursor: usize,
}

/// The list as the keys have left it.
pub struct List {
    pub filter: Line,
    /// What the filter lets through, best match first, as indexes into the
    /// options.
    pub shown: Vec<usize>,
    /// Into `shown`.
    pub cursor: usize,
}

/// A list's state fits its options: the filter is a line, every shown index
/// is an option, the cursor is on a shown row or at 0 when none is.
pub open spec fn fits(list: List, options: nat) -> bool {
    &&& list.filter.wf()
    &&& forall|i: int| 0 <= i < list.shown.len() ==> #[trigger] list.shown@[i] < options
    &&& (list.cursor < list.shown.len() || (list.shown.len() == 0 && list.cursor == 0))
}

/// What a key did to the prompt, rather than to the list.
#[derive(Debug, Clone, Copy, PartialEq, Eq)]
pub enum Step {
    Continue,
    Chose(Pick),
    Cancel,
}

/// `x` placed in `sorted`, best first, after everything that scores as well.
pub open spec fn placed_by_score(sorted: Seq<(i64, usize)>, x: (i64, usize)) -> Seq<(i64, usize)>
    decreases sorted.len(),
{
    if sorted.len() == 0 {
        seq![x]
    } else if sorted.last().0 >= x.0 {
        sorted.push(x)
    } else {
        placed_by_score(sorted.drop_last(), x).push(sorted.last())
    }
}

/// A stable sort, best score first: ties keep list order.
pub open spec fn best_first(s: Seq<(i64, usize)>) -> Seq<(i64, usize)>
    decreases s.len(),
{
    if s.len() == 0 {
        Seq::empty()
    } else {
        placed_by_score(best_first(s.drop_last()), s.last())
    }
}

/// The first `n` options that match `typed`, with their scores, in list
/// order.
pub open spec fn matching(options: Seq<Seq<char>>, typed: Seq<char>, n: int) -> Seq<(i64, usize)>
    decreases n,
{
    if n <= 0 {
        Seq::empty()
    } else {
        let before = matching(options, typed, n - 1);
        match fuzzy_score(options[n - 1], typed) {
            Some(score) => before.push((score, (n - 1) as usize)),
            None => before,
        }
    }
}

/// What the filter lets through, best match first, ties in list order.
pub open spec fn filtered(options: Seq<Seq<char>>, typed: Seq<char>) -> Seq<usize> {
    best_first(matching(options, typed, options.len() as int)).map_values(|p: (i64, usize)| p.1)
}

proof fn lemma_placed_by_score(sorted: Seq<(i64, usize)>, x: (i64, usize), p: int)
    requires
        0 <= p <= sorted.len(),
        forall|j: int| p <= j < sorted.len() ==> #[trigger] sorted[j].0 < x.0,
        p > 0 ==> sorted[p - 1].0 >= x.0,
    ensures
        placed_by_score(sorted, x) == sorted.take(p).push(x) + sorted.skip(p),
    decreases sorted.len() - p,
{
    if sorted.len() == 0 {
        assert(sorted.take(p).push(x) + sorted.skip(p) =~= seq![x]);
    } else if p == sorted.len() {
        assert(sorted.take(p) == sorted);
        assert(sorted.take(p).push(x) + sorted.skip(p) =~= sorted.push(x));
    } else {
        let d = sorted.drop_last();
        lemma_placed_by_score(d, x, p);
        assert(d.take(p) == sorted.take(p));
        assert(sorted.take(p).push(x) + sorted.skip(p) =~= (d.take(p).push(x) + d.skip(p)).push(
            sorted.last(),
        ));
    }
}

/// No option index occurs twice among `s`.
pub open spec fn idx_distinct(s: Seq<(i64, usize)>) -> bool {
    forall|i: int, j: int| 0 <= i < j < s.len() ==> #[trigger] s[i].1 != #[trigger] s[j].1
}

/// The option index `k` occurs among `s`.
pub open spec fn has_idx(s: Seq<(i64, usize)>, k: usize) -> bool {
    exists|i: int| 0 <= i < s.len() && #[trigger] s[i].1 == k
}

proof fn lemma_placed_distinct(sorted: Seq<(i64, usize)>, x: (i64, usize))
    requires
        idx_distinct(sorted),
        !has_idx(sorted, x.1),
    ensures
        idx_distinct(placed_by_score(sorted, x)),
        forall|k: usize| #[trigger] has_idx(placed_by_score(sorted, x), k) <==> (has_idx(sorted, k) || k == x.1),
    decreases sorted.len(),
{
    let r = placed_by_score(sorted, x);
    if sorted.len() == 0 {
        assert forall|k: usize| #[trigger] has_idx(r, k) <==> (has_idx(sorted, k) || k == x.1) by {
            if k == x.1 {
                assert(r[0].1 == k);
            }
        }
    } else if sorted.last().0 >= x.0 {
        let n = sorted.len() as int;
        assert forall|k: usize| #[trigger] has_idx(r, k) <==> (has_idx(sorted, k) || k == x.1) by {
            if has_idx(sorted, k) {
                let i = choose|i: int| 0 <= i < sorted.len() && #[trigger] sorted[i].1 == k;
                assert(r[i].1 == k);
            }
            if k == x.1 {
                assert(r[n].1 == k);
            }
            if has_idx(r, k) {
                let i = choose|i: int| 0 <= i < r.len() && #[trigger] r[i].1 == k;
                if i < n {
                    assert(sorted[i].1 == k);
                }
            }
        }
        assert forall|i: int, j: int| 0 <= i < j < r.len() implies #[trigger] r[i].1 != #[trigger] r[j].1 by {
            if j == n {
                assert(r[i] == sorted[i]);
            } else {
                assert(r[i] == sorted[i] && r[j] == sorted[j]);
            }
        }
    } else {
        let d = sorted.drop_last();
        let last = sorted.last();
        let n = d.len() as int;
        assert(idx_distinct(d)) by {
            assert forall|i: int, j: int| 0 <= i < j < d.len() implies #[trigger] d[i].1 != #[trigger] d[j].1 by {
                assert(d[i] == sorted[i] && d[j] == sorted[j]);
            }
        }
        assert(!has_idx(d, x.1)) by {
            if has_idx(d, x.1) {
                let i = choose|i: int| 0 <= i < d.len() && #[trigger] d[i].1 == x.1;
                assert(sorted[i].1 == x.1);
            }
        }
        lemma_placed_distinct(d, x);
        let q = placed_by_score(d, x);
        assert(r == q.push(last));
        assert(!has_idx(d, last.1)) by {
            if has_idx(d, last.1) {
                let i = choose|i: int| 0 <= i < d.len() && #[trigger] d[i].1 == last.1;
                assert(sorted[i].1 == sorted[n].1);
            }
        }
        assert(last.1 != x.1) by {
            assert(sorted[n].1 == last.1);
        }
        assert(!has_idx(q, last.1));
        assert forall|i: int, j: int| 0 <= i < j < r.len() implies #[trigger] r[i].1 != #[trigger] r[j].1 by {
            if j == q.len() {
                assert(r[i] == q[i]);
                if q[i].1 == last.1 {
                    assert(has_idx(q, last.1));
                }
            } else {
                assert(r[i] == q[i] && r[j] == q[j]);
            }
        }
        assert forall|k: usize| #[trigger] has_idx(r, k) <==> (has_idx(sorted, k) || k == x.1) by {
            if has_idx(q, k) {
                let i = choose|i: int| 0 <= i < q.len() && #[trigger] q[i].1 == k;
                assert(r[i].1 == k);
            }
            if k == last.1 {
                assert(r[q.len() as int].1 == k);
                assert(sorted[n].1 == k);
            }
            if has_idx(d, k) {
                let i = choose|i: int| 0 <= i < d.len() && #[trigger] d[i].1 == k;
                assert(sorted[i].1 == k);
                assert(has_idx(q, k));
            }
            if has_idx(sorted, k) {
                let i = choose|i: int| 0 <= i < sorted.len() && #[trigger] sorted[i].1 == k;
                if i < n {
                    assert(d[i].1 == k);
                }
            }
            if has_idx(r, k) {
                let i = choose|i: int| 0 <= i < r.len() && #[trigger] r[i].1 == k;
                if i < q.len() {
                    assert(q[i].1 == k);
                }
            }
        }
    }
}

proof fn lemma_best_first_distinct(s: Seq<(i64, usize)>)
    requires
        idx_distinct(s),
    ensures
        idx_distinct(best_first(s)),
        forall|k: usize| #[trigger] has_idx(best_first(s), k) <==> has_idx(s, k),
    decreases s.len(),
{
    if s.len() > 0 {
        let d = s.drop_last();
        let n = d.len() as int;
        assert(idx_distinct(d)) by {
            assert forall|i: int, j: int| 0 <= i < j < d.len() implies #[trigger] d[i].1 != #[trigger] d[j].1 by {
                assert(d[i] == s[i] && d[j] == s[j]);
            }
        }
        lemma_best_first_distinct(d);
        assert(!has_idx(d, s.last().1)) by {
            if has_idx(d, s.last().1) {
                let i = choose|i: int| 0 <= i < d.len() && #[trigger] d[i].1 == s.last().1;
                assert(s[i].1 == s[n].1);
            }
        }
        assert(!has_idx(best_first(d), s.last().1));
        lemma_placed_distinct(best_first(d), s.last());
        assert forall|k: usize| #[trigger] has_idx(best_first(s), k) <==> has_idx(s, k) by {
            assert(has_idx(best_first(s), k) <==> (has_idx(best_first(d), k) || k == s.last().1));
            if has_idx(d, k) {
                let i = choose|i: int| 0 <= i < d.len() && #[trigger] d[i].1 == k;
                assert(s[i].1 == k);
            }
            if k == s.last().1 {
                assert(s[n].1 == k);
            }
            if has_idx(s, k) {
                let i = choose|i: int| 0 <= i < s.len() && #[trigger] s[i].1 == k;
                if i < n {
                    assert(d[i].1 == k);
                }
            }
        }
    }
}

proof fn lemma_matching_distinct(options: Seq<Seq<char>>, typed: Seq<char>, n: int)
    requires
        0 <= n <= options.len(),
        options.len() <= usize::MAX,
    ensures
        idx_distinct(matching(options, typed, n)),
    decreases n,
{
    if n > 0 {
        lemma_matching_distinct(options, typed, n - 1);
        lemma_matching_bounded(options, typed, n - 1);
        let before = matching(options, typed, n - 1);
        let now = matching(options, typed, n);
        assert forall|i: int, j: int| 0 <= i < j < now.len() implies #[trigger] now[i].1 != #[trigger] now[j].1 by {
            assert(now[i] == before[i]);
            if j < before.len() {
                assert(now[j] == before[j]);
            } else {
                assert(now[j].1 == (n - 1) as usize);
                assert(before[i].1 < n - 1);
            }
        }
    }
}

/// What the filter lets through holds each option once.
pub proof fn lemma_filtered_distinct(options: Seq<Seq<char>>, typed: Seq<char>)
    requires
        options.len() <= usize::MAX,
    ensures
        filtered(options, typed).no_duplicates(),
{
    let m = matching(options, typed, options.len() as int);
    lemma_matching_distinct(options, typed, options.len() as int);
    lemma_best_first_distinct(m);
    let b = best_first(m);
    let f = filtered(options, typed);
    assert forall|i: int, j: int| 0 <= i < f.len() && 0 <= j < f.len() && i != j implies f[i] != f[j] by {
        if i < j {
            assert(b[i].1 != b[j].1);
        } else {
            assert(b[j].1 != b[i].1);
        }
    }
}

/// Whatever key is pressed, a list that showed each option at most once
/// still does.
pub proof fn lemma_shown_stay_distinct(ask: Ask, before: List, after: List, key: Key, page: int, r: Step)
    requires
        ask.options.len() <= usize::MAX,
        keyed(ask, before, after, key, page, r),
        before.shown@.no_duplicates(),
    ensures
        after.shown@.no_duplicates(),
{
    if after.shown@ != before.shown@ {
        let edited = applied(before.filter.chars@, before.filter.cursor as int, key);
        lemma_filtered_distinct(texts(ask.options@), edited.0);
    }
}

fn place_by_score(v: &mut Vec<(i64, usize)>, x: (i64, usize))
    ensures
        final(v)@ == placed_by_score(old(v)@, x),
{
    let mut p = v.len();
    while p > 0 && v[p - 1].0 < x.0
        invariant
            p <= v.len(),
            v@ == old(v)@,
            forall|j: int| p <= j < v.len() ==> #[trigger] v@[j].0 < x.0,
        decreases p,
    {
        p -= 1;
    }
    proof {
        lemma_placed_by_score(v@, x, p as int);
    }
    let ghost before = v@;
    v.insert(p, x);
    assert(v@ =~= before.take(p as int).push(x) + before.skip(p as int));
}

proof fn lemma_matching_bounded(options: Seq<Seq<char>>, typed: Seq<char>, n: int)
    requires
        0 <= n <= options.len(),
        options.len() <= usize::MAX,
    ensures
        forall|i: int| 0 <= i < matching(options, typed, n).len() ==> #[trigger] matching(options, typed, n)[i].1 < n,
    decreases n,
{
    if n > 0 {
        lemma_matching_bounded(options, typed, n - 1);
        let before = matching(options, typed, n - 1);
        let now = matching(options, typed, n);
        assert forall|i: int| 0 <= i < now.len() implies #[trigger] now[i].1 < n by {
            if i < before.len() {
                assert(now[i] == before[i]);
            }
        }
    }
}

proof fn lemma_placed_keeps(sorted: Seq<(i64, usize)>, x: (i64, usize), bound: usize)
    requires
        forall|i: int| 0 <= i < sorted.len() ==> #[trigger] sorted[i].1 < bound,
        x.1 < bound,
    ensures
        forall|i: int| 0 <= i < placed_by_score(sorted, x).len() ==> #[trigger] placed_by_score(sorted, x)[i].1 < bound,
    decreases sorted.len(),
{
    if sorted.len() > 0 && sorted.last().0 < x.0 {
        lemma_placed_keeps(sorted.drop_last(), x, bound);
        let p = placed_by_score(sorted.drop_last(), x);
        assert forall|i: int| 0 <= i < p.push(sorted.last()).len() implies #[trigger] p.push(
            sorted.last(),
        )[i].1 < bound by {
            if i < p.len() {
                assert(p.push(sorted.last())[i] == p[i]);
            }
        }
    } else if sorted.len() > 0 {
        assert forall|i: int| 0 <= i < sorted.push(x).len() implies #[trigger] sorted.push(x)[i].1 < bound by {
            if i < sorted.len() {
                assert(sorted.push(x)[i] == sorted[i]);
            }
        }
    }
}

proof fn lemma_best_first_keeps(s: Seq<(i64, usize)>, bound: usize)
    requires
        forall|i: int| 0 <= i < s.len() ==> #[trigger] s[i].1 < bound,
    ensures
        forall|i: int| 0 <= i < best_first(s).len() ==> #[trigger] best_first(s)[i].1 < bound,
    decreases s.len(),
{
    if s.len() > 0 {
        lemma_best_first_keeps(s.drop_last(), bound);
        lemma_placed_keeps(best_first(s.drop_last()), s.last(), bound);
    }
}

/// Score every option against `typed`: what matches, best first, ties in
/// list order.
fn filter_options(options: &Vec<String>, typed: &str) -> (r: Vec<usize>)
    ensures
        r@ == filtered(texts(options@), typed@),
        forall|i: int| 0 <= i < r.len() ==> #[trigger] r@[i] < options.len(),
{
    let ghost opts = texts(options@);
    let mut sorted: Vec<(i64, usize)> = Vec::new();
    let mut i: usize = 0;
    while i < options.len()
        invariant
            i <= options.len(),
            opts == texts(options@),
            sorted@ == best_first(matching(opts, typed@, i as int)),
        decreases options.len() - i,
    {
        assert(opts[i as int] == options@[i as int]@);
        match fuzzy_match(options[i].as_str(), typed) {
            Some(score) => {
                place_by_score(&mut sorted, (score, i));
                assert(matching(opts, typed@, i + 1) == matching(opts, typed@, i as int).push((score, i)));
                assert(matching(opts, typed@, i + 1).drop_last() == matching(opts, typed@, i as int));
            },
            None => {},
        }
        i += 1;
    }
    proof {
        lemma_matching_bounded(opts, typed@, opts.len() as int);
        lemma_best_first_keeps(matching(opts, typed@, opts.len() as int), options.len());
    }
    let mut r: Vec<usize> = Vec::new();
    let mut k: usize = 0;
    while k < sorted.len()
        invariant
            k <= sorted.len(),
            r@ == sorted@.take(k as int).map_values(|p: (i64, usize)| p.1),
        decreases sorted.len() - k,
    {
        r.push(sorted[k].1);
        k += 1;
        assert(r@ =~= sorted@.take(k as int).map_values(|p: (i64, usize)| p.1));
    }
    assert(sorted@.take(k as int) == sorted@);
    r
}

/// A list over `ask`'s options, every one shown, the cursor on the one asked
/// for or on the last.
pub fn list_for(ask: &Ask) -> (r: List)
    ensures
        fits(r, ask.options.len() as nat),
        r.filter.chars@.len() == 0,
        r.shown@ == Seq::new(ask.options.len() as nat, |i: int| i as usize),
        r.cursor == (if ask.cursor < ask.options.len() {
            ask.cursor as int
        } else if ask.options.len() > 0 {
            ask.options.len() - 1
        } else {
            0
        }),
{
    let mut shown: Vec<usize> = Vec::new();
    let mut i: usize = 0;
    while i < ask.options.len()
        invariant
            i <= ask.options.len(),
            shown@ == Seq::new(i as nat, |k: int| k as usize),
        decreases ask.options.len() - i,
    {
        shown.push(i);
        i += 1;
        assert(shown@ =~= Seq::new(i as nat, |k: int| k as usize));
    }
    let n = ask.options.len();
    let cursor = if ask.cursor < n {
        ask.cursor
    } else if n > 0 {
        n - 1
    } else {
        0
    };
    List { filter: Line { chars: Vec::new(), cursor: 0 }, shown, cursor }
}

/// The option under the cursor, when the filter lets any through.
pub fn highlighted(list: &List) -> (r: Option<usize>)
    ensures
        r == (if list.cursor < list.shown.len() {
            Some(list.shown@[list.cursor as int])
        } else {
            None::<usize>
        }),
{
    if list.cursor < list.shown.len() {
        Some(list.shown[list.cursor])
    } else {
        None
    }
}

/// `pick` of the option under the cursor, or nothing when none is.
pub open spec fn chose(list: List, pick: spec_fn(usize) -> Pick) -> Step {
    if list.cursor < list.shown.len() {
        Step::Chose(pick(list.shown@[list.cursor as int]))
    } else {
        Step::Continue
    }
}

/// The cursor after a move: up and down wrap, a page and the ends do not.
pub open spec fn moved(cursor: int, len: int, key: Key, page: int) -> Option<int> {
    let last = if len > 0 { len - 1 } else { 0 };
    if (line::bare(key, Code::Up)) || line::chord(key, 'p') {
        Some(if cursor > 0 { cursor - 1 } else { last })
    } else if (line::bare(key, Code::Down)) || line::chord(key, 'n') {
        Some(if len > 0 { (cursor + 1) % len } else { 0 })
    } else if key.code == Code::PageUp {
        Some(if cursor > page { cursor - page } else { 0 })
    } else if key.code == Code::PageDown {
        Some(if cursor + page < last { cursor + page } else { last })
    } else if key.code == Code::Home {
        Some(0)
    } else if key.code == Code::End {
        Some(last)
    } else {
        None
    }
}

/// The lone shown option whose text starts with `letter`, either case.
pub open spec fn starts_with_letter(option: Seq<char>, letter: char) -> bool {
    option.len() > 0 && text::lower(option[0]) == text::lower(letter)
}

/// The positions among the shown options whose text starts with `letter`,
/// from `from` on.
pub open spec fn letter_hits(shown: Seq<usize>, options: Seq<Seq<char>>, letter: char, from: int) -> Seq<int>
    decreases shown.len() - from,
{
    if from >= shown.len() || from < 0 {
        Seq::empty()
    } else if starts_with_letter(options[shown[from] as int], letter) {
        seq![from] + letter_hits(shown, options, letter, from + 1)
    } else {
        letter_hits(shown, options, letter, from + 1)
    }
}

/// The digit `c` is, when it is one of `1` to `9`.
pub open spec fn digit_of(c: char) -> Option<int> {
    if '1' <= c && c <= '9' {
        Some((c as int) - ('1' as int))
    } else {
        None
    }
}

/// What a key does to a list: `after` from `before`, and the step taken.
/// Moving wraps up and down; ← and → choose when the list binds them; in
/// a filtered list Tab chooses and every other key edits the filter, which
/// is then applied again; a numbered list chooses by digit, and a letter
/// moves to the one option it starts.
pub open spec fn keyed(ask: Ask, before: List, after: List, key: Key, page: int, r: Step) -> bool {
    let unchanged = after.filter.chars@ == before.filter.chars@ && after.filter.cursor
        == before.filter.cursor && after.shown@ == before.shown@;
    let same = unchanged && after.cursor == before.cursor;
    let len = before.shown.len() as int;
    if !key.press {
        same && r == Step::Continue
    } else if moved(before.cursor as int, len, key, page) is Some {
        unchanged && after.cursor == moved(before.cursor as int, len, key, page)->Some_0 && r
            == Step::Continue
    } else if ask.arrows && line::bare(key, Code::Left) {
        same && r == Step::Chose(Pick::Left)
    } else if ask.arrows && line::bare(key, Code::Right) {
        same && r == chose(before, |i: usize| Pick::Right(i))
    } else if ask.filter && key.code == Code::Tab {
        same && r == chose(before, |i: usize| Pick::Tab(i))
    } else if ask.filter {
        let edited = applied(before.filter.chars@, before.filter.cursor as int, key);
        match edited.2 {
            line::Step::Submit => same && r == chose(before, |i: usize| Pick::Enter(i)),
            line::Step::Cancel => same && r == Step::Cancel,
            line::Step::Continue => {
                let shown = filtered(texts(ask.options@), edited.0);
                &&& after.filter.chars@ == edited.0
                &&& after.filter.cursor == edited.1
                &&& after.shown@ == shown
                &&& after.cursor == (if shown == before.shown@ { before.cursor } else { 0 })
                &&& r == Step::Continue
            },
        }
    } else if key.code == Code::Enter {
        same && r == chose(before, |i: usize| Pick::Enter(i))
    } else if key.code == Code::Esc || line::chord(key, 'c') || line::chord(key, 'g') {
        same && r == Step::Cancel
    } else if key.code is Char && !key.ctrl && !key.alt {
        let c = key.code->Char_0;
        match digit_of(c) {
            Some(at) => same && r == (if at < len {
                Step::Chose(Pick::Enter(before.shown@[at]))
            } else {
                Step::Continue
            }),
            None => {
                let hits = letter_hits(before.shown@, texts(ask.options@), c, 0);
                &&& unchanged
                &&& after.cursor == (if hits.len() == 1 { hits[0] } else { before.cursor as int })
                &&& r == Step::Continue
            },
        }
    } else {
        same && r == Step::Continue
    }
}

/// In a filtered list, a typed character that changes what is shown puts
/// the cursor on the first row, the best match for the filter as it now
/// reads, so Enter straight after it chooses that best match, whatever row
/// the cursor was on before.
pub proof fn lemma_typing_then_enter_chooses_the_best_match(
    ask: Ask,
    l0: List,
    l1: List,
    l2: List,
    c: char,
    page: int,
    r1: Step,
    r2: Step,
)
    requires
        ask.filter,
        keyed(ask, l0, l1, Key { code: Code::Char(c), ctrl: false, alt: false, press: true }, page, r1),
        l1.shown@ != l0.shown@,
        keyed(ask, l1, l2, Key { code: Code::Enter, ctrl: false, alt: false, press: true }, page, r2),
    ensures
        l1.filter.chars@ == l0.filter.chars@.insert(l0.filter.cursor as int, c),
        l1.shown@ == filtered(texts(ask.options@), l1.filter.chars@),
        l1.cursor == 0,
        r1 == Step::Continue,
        l1.shown.len() > 0 ==> r2 == Step::Chose(Pick::Enter(filtered(texts(ask.options@), l1.filter.chars@)[0])),
        l1.shown.len() == 0 ==> r2 == Step::Continue,
{
}

proof fn lemma_letter_hits(shown: Seq<usize>, options: Seq<Seq<char>>, letter: char, from: int)
    requires
        0 <= from <= shown.len(),
    ensures
        forall|k: int| 0 <= k < letter_hits(shown, options, letter, from).len() ==> from <= #[trigger] letter_hits(
            shown,
            options,
            letter,
            from,
        )[k] < shown.len(),
    decreases shown.len() - from,
{
    if from < shown.len() {
        lemma_letter_hits(shown, options, letter, from + 1);
        let rest = letter_hits(shown, options, letter, from + 1);
        let all = letter_hits(shown, options, letter, from);
        assert forall|k: int| 0 <= k < all.len() implies from <= #[trigger] all[k] < shown.len() by {
            if starts_with_letter(options[shown[from] as int], letter) {
                if k > 0 {
                    assert(all[k] == rest[k - 1]);
                }
            } else {
                assert(all[k] == rest[k]);
            }
        }
    }
}

/// The positions whose option starts with `letter`.
fn hits_of(shown: &Vec<usize>, options: &Vec<String>, letter: char) -> (r: Vec<usize>)
    requires
        forall|i: int| 0 <= i < shown.len() ==> #[trigger] shown@[i] < options.len(),
    ensures
        r@.map_values(|x: usize| x as int) == letter_hits(shown@, texts(options@), letter, 0),
{
    let mut r: Vec<usize> = Vec::new();
    let mut i = shown.len();
    proof {
        assert(letter_hits(shown@, texts(options@), letter, i as int) =~= Seq::<int>::empty());
    }
    while i > 0
        invariant
            i <= shown.len(),
            forall|k: int| 0 <= k < shown.len() ==> #[trigger] shown@[k] < options.len(),
            r@.map_values(|x: usize| x as int) == letter_hits(shown@, texts(options@), letter, i as int),
        decreases i,
    {
        i -= 1;
        let option = &options[shown[i]];
        let first = text::chars(option.as_str());
        assert(texts(options@)[shown@[i as int] as int] == first@);
        let hit = first.len() > 0 && text::to_lower(first[0]) == text::to_lower(letter);
        if hit {
            let ghost r0 = r@.map_values(|x: usize| x as int);
            r.insert(0, i);
            assert(r@.map_values(|x: usize| x as int) =~= seq![i as int] + r0);
        }
    }
    r
}

/// Whether the two lists of indexes are the same.
fn same_indexes(a: &Vec<usize>, b: &Vec<usize>) -> (r: bool)
    ensures
        r == (a@ == b@),
{
    if a.len() != b.len() {
        return false;
    }
    let mut i: usize = 0;
    while i < a.len()
        invariant
            i <= a.len() == b.len(),
            forall|k: int| 0 <= k < i ==> a@[k] == b@[k],
        decreases a.len() - i,
    {
        if a[i] != b[i] {
            return false;
        }
        i += 1;
    }
    assert(a@ =~= b@);
    true
}

fn chosen(list: &List, pick: u8) -> (r: Step)
    ensures
        pick == 0 ==> r == chose(*list, |i: usize| Pick::Enter(i)),
        pick == 1 ==> r == chose(*list, |i: usize| Pick::Right(i)),
        pick > 1 ==> r == chose(*list, |i: usize| Pick::Tab(i)),
{
    match highlighted(list) {
        Some(index) => Step::Chose(if pick == 0 {
            Pick::Enter(index)
        } else if pick == 1 {
            Pick::Right(index)
        } else {
            Pick::Tab(index)
        }),
        None => Step::Continue,
    }
}

/// Every binding of a list, and nothing else: no terminal, no I/O.
pub fn apply(list: &mut List, ask: &Ask, key: Key, page: usize) -> (r: Step)
    requires
        fits(*old(list), ask.options.len() as nat),
    ensures
        fits(*final(list), ask.options.len() as nat),
        keyed(*ask, *old(list), *final(list), key, page as int, r),
{
    let len = list.shown.len();
    let last: usize = if len > 0 { len - 1 } else { 0 };
    let code = key.code;
    let ctrl = key.ctrl;
    let alt = key.alt;
    if !key.press {
        return Step::Continue;
    }
    if (code == Code::Up && !ctrl && !alt) || (code == Code::Char('p') && ctrl && !alt) {
        list.cursor = if list.cursor > 0 { list.cursor - 1 } else { last };
        return Step::Continue;
    }
    if (code == Code::Down && !ctrl && !alt) || (code == Code::Char('n') && ctrl && !alt) {
        list.cursor = if len > 0 { (list.cursor + 1) % len } else { 0 };
        return Step::Continue;
    }
    if code == Code::PageUp {
        list.cursor = if list.cursor > page { list.cursor - page } else { 0 };
        return Step::Continue;
    }
    if code == Code::PageDown {
        list.cursor = if page < last && list.cursor < last - page { list.cursor + page } else { last };
        return Step::Continue;
    }
    if code == Code::Home {
        list.cursor = 0;
        return Step::Continue;
    }
    if code == Code::End {
        list.cursor = last;
        return Step::Continue;
    }
    if ask.arrows && code == Code::Left && !ctrl && !alt {
        return Step::Chose(Pick::Left);
    }
    if ask.arrows && code == Code::Right && !ctrl && !alt {
        return chosen(list, 1);
    }
    if ask.filter && code == Code::Tab {
        return chosen(list, 2);
    }
    if ask.filter {
        let ghost before = *list;
        return match line::apply(&mut list.filter, key) {
            line::Step::Submit => chosen(list, 0),
            line::Step::Cancel => Step::Cancel,
            line::Step::Continue => {
                let typed = text::string(&list.filter.chars);
                let shown = filter_options(&ask.options, typed.as_str());
                if !same_indexes(&shown, &list.shown) {
                    list.shown = shown;
                    list.cursor = 0;
                }
                Step::Continue
            },
        };
    }
    if code == Code::Enter {
        return chosen(list, 0);
    }
    if code == Code::Esc || (code == Code::Char('c') && ctrl && !alt) || (code == Code::Char('g') && ctrl && !alt) {
        return Step::Cancel;
    }
    match code {
        Code::Char(c) => {
            if !ctrl && !alt {
                if '1' <= c && c <= '9' {
                    let at = (c as u32 - '1' as u32) as usize;
                    if at < len {
                        return Step::Chose(Pick::Enter(list.shown[at]));
                    }
                    return Step::Continue;
                }
                let hits = hits_of(&list.shown, &ask.options, c);
                proof {
                    lemma_letter_hits(list.shown@, texts(ask.options@), c, 0);
                }
                if hits.len() == 1 {
                    assert(hits@.map_values(|x: usize| x as int)[0] == hits@[0] as int);
                    list.cursor = hits[0];
                }
            }
        },
        _ => {},
    }
    Step::Continue
}

/// Ties keep list order: options the filter scores alike stay as listed.
pub proof fn lemma_ties_keep_list_order(s: Seq<(i64, usize)>)
    requires
        forall|i: int, j: int| 0 <= i < s.len() && 0 <= j < s.len() ==> #[trigger] s[i].0 == #[trigger] s[j].0,
    ensures
        best_first(s) == s,
    decreases s.len(),
{
    if s.len() > 0 {
        let d = s.drop_last();
        assert forall|i: int, j: int| 0 <= i < d.len() && 0 <= j < d.len() implies #[trigger] d[i].0
            == #[trigger] d[j].0 by {
            assert(d[i] == s[i] && d[j] == s[j]);
        }
        lemma_ties_keep_list_order(d);
        assert(s.drop_last().push(s.last()) == s);
        if d.len() > 0 {
            assert(d.last() == s[s.len() - 2]);
        }
    }
}

/// How a span of the window is drawn.
#[derive(Debug, Clone, Copy, PartialEq, Eq, Structural)]
pub enum Shade {
    Plain,
    Dim,
    Bold,
    Cyan,
}

/// `n` copies of `c`.
fn repeat(c: char, n: usize) -> (r: String)
    ensures
        r@ == Seq::new(n as nat, |i: int| c),
{
    let mut r = String::new();
    let mut k: usize = 0;
    while k < n
        invariant
            k <= n,
            r@ == Seq::new(k as nat, |i: int| c),
        decreases n - k,
    {
        text::push_char(&mut r, c);
        k += 1;
        assert(r@ =~= Seq::new(k as nat, |i: int| c));
    }
    r
}

/// `t` with spaces after it out to `width` characters.
pub open spec fn padded(t: Seq<char>, width: nat) -> Seq<char> {
    t + Seq::new((if width > t.len() { width - t.len() } else { 0 }) as nat, |i: int| ' ')
}

fn padded_to(t: &str, width: usize) -> (r: String)
    ensures
        r@ == padded(t@, width as nat),
{
    let mut r = String::from_str(t);
    let n = text::chars(t).len();
    let mut k = n;
    while k < width
        invariant
            n == t@.len(),
            n <= k,
            k <= (if width > n { width } else { n }),
            r@ == t@ + Seq::new((k - n) as nat, |i: int| ' '),
        decreases width - k,
    {
        text::push_char(&mut r, ' ');
        k += 1;
        assert(r@ =~= t@ + Seq::new((k - n) as nat, |i: int| ' '));
    }
    r
}

/// The first `room` characters of `t`.
pub open spec fn clipped(t: Seq<char>, room: nat) -> Seq<char> {
    if t.len() <= room {
        t
    } else {
        t.take(room as int)
    }
}

/// Spans laid on a line with `room` cells left, each cut at the terminal's
/// edge, and the room left after them.
pub open spec fn laid(room: nat, ps: Seq<(Seq<char>, Shade)>) -> (Seq<(Seq<char>, Shade)>, nat)
    decreases ps.len(),
{
    if ps.len() == 0 {
        (Seq::empty(), room)
    } else {
        let (l, left) = laid(room, ps.drop_last());
        let c = clipped(ps.last().0, left);
        (l.push((c, ps.last().1)), (left - c.len()) as nat)
    }
}

/// A line's spans as text.
pub open spec fn spans(line: Seq<(String, Shade)>) -> Seq<(Seq<char>, Shade)> {
    line.map_values(|p: (String, Shade)| (p.0@, p.1))
}

/// A window's lines as text.
pub open spec fn window(lines: Seq<Vec<(String, Shade)>>) -> Seq<Seq<(Seq<char>, Shade)>> {
    lines.map_values(|l: Vec<(String, Shade)>| spans(l@))
}

/// One line being written, cut at the terminal's edge: a line that wrapped
/// would throw off the redraw.
fn push_span(line: &mut Vec<(String, Shade)>, room: &mut usize, t: &str, shade: Shade)
    ensures
        spans(final(line)@) == spans(old(line)@).push((clipped(t@, *old(room) as nat), shade)),
        *final(room) == *old(room) - clipped(t@, *old(room) as nat).len(),
{
    let piece = cut(t, *room);
    let n = text::chars(piece.as_str()).len();
    *room = if n <= *room { *room - n } else { 0 };
    let ghost before = spans(line@);
    line.push((piece, shade));
    assert(spans(line@) =~= before.push((clipped(t@, *old(room) as nat), shade)));
}

/// `pieces` laid on a line `room` wide.
fn lay(pieces: &Vec<(String, Shade)>, room: usize) -> (r: Vec<(String, Shade)>)
    ensures
        spans(r@) == laid(room as nat, spans(pieces@)).0,
{
    let mut line: Vec<(String, Shade)> = Vec::new();
    let mut left = room;
    let mut i: usize = 0;
    while i < pieces.len()
        invariant
            i <= pieces.len(),
            (spans(line@), left as nat) == laid(room as nat, spans(pieces@).take(i as int)),
        decreases pieces.len() - i,
    {
        assert(spans(pieces@).take(i + 1).drop_last() == spans(pieces@).take(i as int));
        assert(spans(pieces@).take(i + 1).last() == (pieces@[i as int].0@, pieces@[i as int].1));
        push_span(&mut line, &mut left, pieces[i].0.as_str(), pieces[i].1);
        i += 1;
    }
    assert(spans(pieces@).take(pieces.len() as int) == spans(pieces@));
    line
}

/// `width` cells of rule.
pub open spec fn rule(width: nat) -> Seq<char> {
    Seq::new(width, |i: int| '─')
}

/// Every line of a preview, the long ones wrapped to `inner`.
pub open spec fn preview_lines(preview: Seq<Seq<char>>, inner: nat) -> Seq<Seq<char>>
    decreases preview.len(),
{
    if preview.len() == 0 {
        Seq::empty()
    } else {
        preview_lines(preview.drop_last(), inner) + wrapped(preview.last(), inner)
    }
}

/// A line of the panel's text between its dim sides.
pub open spec fn boxed_line(t: Seq<char>, inner: nat) -> Seq<(Seq<char>, Shade)> {
    seq![("  │ "@, Shade::Dim), (padded(t, inner), Shade::Plain), (" │"@, Shade::Dim)]
}

/// The preview in a box `inner` wide: its top edge, as many of its wrapped
/// lines as the page leaves room for, and its bottom edge.
pub open spec fn boxed_lines(preview: Seq<Seq<char>>, inner: nat, page: nat) -> Seq<Seq<(Seq<char>, Shade)>> {
    let edge = rule(inner + 2);
    let body = preview_lines(preview, inner);
    let limit: nat = if page > 2 { (page - 2) as nat } else { 0 };
    let shown = if body.len() <= limit { body } else { body.take(limit as int) };
    seq![seq![("  ┌"@ + edge + "┐"@, Shade::Dim)]] + shown.map_values(|t: Seq<char>| boxed_line(t, inner))
        + seq![seq![("  └"@ + edge + "┘"@, Shade::Dim)]]
}

fn dim_line(t: String) -> (r: Vec<(String, Shade)>)
    ensures
        spans(r@) == seq![(t@, Shade::Dim)],
{
    let mut l: Vec<(String, Shade)> = Vec::new();
    l.push((t, Shade::Dim));
    assert(spans(l@) =~= seq![(t@, Shade::Dim)]);
    l
}

/// The preview in a box `inner` wide, cut to the page: its long lines
/// wrapped.
fn boxed(preview: &Vec<String>, inner: usize, page: usize) -> (r: Vec<Vec<(String, Shade)>>)
    requires
        inner < 1000000,
    ensures
        window(r@) == boxed_lines(crate::path::texts(preview@), inner as nat, page as nat),
{
    proof {
        reveal_strlit("  ┌");
        reveal_strlit("┐");
        reveal_strlit("  └");
        reveal_strlit("┘");
    }
    let ghost pv = crate::path::texts(preview@);
    let mut body: Vec<String> = Vec::new();
    let mut i: usize = 0;
    while i < preview.len()
        invariant
            i <= preview.len(),
            pv == crate::path::texts(preview@),
            crate::path::texts(body@) == preview_lines(pv.take(i as int), inner as nat),
        decreases preview.len() - i,
    {
        let mut more = wrap(preview[i].as_str(), inner);
        let ghost b0 = crate::path::texts(body@);
        let ghost m0 = crate::path::texts(more@);
        body.append(&mut more);
        assert(pv.take(i + 1).drop_last() == pv.take(i as int));
        assert(pv.take(i + 1).last() == preview@[i as int]@);
        assert(crate::path::texts(body@) =~= b0 + m0);
        i += 1;
    }
    assert(pv.take(preview.len() as int) == pv);
    let edge = repeat('─', inner + 2);
    let mut lines: Vec<Vec<(String, Shade)>> = Vec::new();
    let mut t = String::from_str("  ┌");
    text::push_str(&mut t, edge.as_str());
    text::push_str(&mut t, "┐");
    lines.push(dim_line(t));
    let limit: usize = if page > 2 { page - 2 } else { 0 };
    let count: usize = if body.len() <= limit { body.len() } else { limit };
    let ghost all = crate::path::texts(body@);
    let ghost shown = if all.len() <= limit { all } else { all.take(limit as int) };
    assert(shown.len() == count);
    let mut k: usize = 0;
    while k < count
        invariant
            k <= count,
            count <= body.len(),
            all == crate::path::texts(body@),
            shown.len() == count,
            forall|j: int| 0 <= j < count ==> shown[j] == all[j],
            window(lines@) == seq![seq![("  ┌"@ + rule(inner as nat + 2) + "┐"@, Shade::Dim)]]
                + shown.take(k as int).map_values(|t: Seq<char>| boxed_line(t, inner as nat)),
        decreases count - k,
    {
        let mut l: Vec<(String, Shade)> = Vec::new();
        l.push((String::from_str("  │ "), Shade::Dim));
        l.push((padded_to(body[k].as_str(), inner), Shade::Plain));
        l.push((String::from_str(" │"), Shade::Dim));
        assert(all[k as int] == body@[k as int]@);
        assert(spans(l@) =~= boxed_line(shown[k as int], inner as nat)) by {
            reveal_strlit("  │ ");
            reveal_strlit(" │");
        }
        let ghost w0 = window(lines@);
        lines.push(l);
        assert(shown.take(k + 1).map_values(|t: Seq<char>| boxed_line(t, inner as nat)) =~= shown.take(
            k as int,
        ).map_values(|t: Seq<char>| boxed_line(t, inner as nat)).push(boxed_line(shown[k as int], inner as nat)));
        assert(window(lines@) =~= w0.push(spans(l@)));
        k += 1;
    }
    assert(shown.take(count as int) == shown);
    let mut b = String::from_str("  └");
    text::push_str(&mut b, edge.as_str());
    text::push_str(&mut b, "┘");
    let ghost w1 = window(lines@);
    lines.push(dim_line(b));
    assert(window(lines@) =~= w1.push(seq![("  └"@ + rule(inner as nat + 2) + "┘"@, Shade::Dim)]));
    lines
}

/// The first row on screen: the cursor held mid-page until an end of the
/// list is in view.
pub open spec fn top_row(cursor: nat, len: nat, page: nat) -> nat {
    let held: nat = if cursor >= page / 2 { (cursor - page / 2) as nat } else { 0 };
    let last: nat = if len >= page { (len - page) as nat } else { 0 };
    if held < last {
        held
    } else {
        last
    }
}

/// The list's width and the panel's inner width for a terminal `width` wide.
pub open spec fn widths(width: nat, no_previews: bool) -> (nat, nat) {
    if no_previews || width < 100 {
        (width, 0)
    } else {
        let panel: nat = if width / 3 < 64 { width / 3 } else { 64 };
        ((width - panel) as nat, (panel - 6) as nat)
    }
}

/// The panel beside the rows: the highlighted option's preview in its box,
/// or nothing when there is no room, no preview, or nothing highlighted.
pub open spec fn panel_of(list: List, ask: Ask, inner: nat, page: nat) -> Seq<Seq<(Seq<char>, Shade)>> {
    if list.cursor < list.shown.len() {
        let index = list.shown@[list.cursor as int];
        if index < ask.previews.len() && inner > 0 && ask.previews@[index as int].len() > 0 {
            boxed_lines(crate::path::texts(ask.previews@[index as int]@), inner, page)
        } else {
            Seq::empty()
        }
    } else {
        Seq::empty()
    }
}

/// `❯` on the cursor's row; `^` and `v` where the list goes on past the page.
pub open spec fn marker(here: bool, at: int, top: int, count: int, more_below: bool) -> Seq<char> {
    if here {
        "❯"@
    } else if at == 0 && top > 0 {
        "^"@
    } else if at + 1 == count && more_below {
        "v"@
    } else {
        " "@
    }
}

/// The text of the row `at` places below the top of the page.
pub open spec fn row_text(list: List, ask: Ask, top: int, at: int, count: int, more_below: bool) -> Seq<char> {
    let index = list.shown@[top + at];
    let here = top + at == list.cursor;
    marker(here, at, top, count, more_below) + seq![' '] + (if ask.filter {
        Seq::empty()
    } else {
        text::decimal((index + 1) as nat) + ". "@
    }) + ask.options@[index as int]@
}

/// The line `at` places below the top of the page: its row, when the page
/// has one there, and beside it the panel's line, when the panel has one.
pub open spec fn row_line(
    list: List,
    ask: Ask,
    width: nat,
    top: int,
    at: int,
    count: int,
    more_below: bool,
    left: nat,
    panel: Seq<Seq<(Seq<char>, Shade)>>,
) -> Seq<(Seq<char>, Shade)> {
    let here = at < count && top + at == list.cursor;
    let t = if at < count {
        row_text(list, ask, top, at, count, more_below)
    } else {
        Seq::empty()
    };
    let shade = if here {
        Shade::Cyan
    } else {
        Shade::Plain
    };
    if at < panel.len() {
        laid(width, seq![(padded(clipped(t, left), left), shade)] + panel[at]).0
    } else {
        laid(width, seq![(t, shade)]).0
    }
}

/// The question line's spans: the message, and when typing filters, what
/// was typed or the hint to type.
pub open spec fn question_pieces(list: List, ask: Ask) -> Seq<(Seq<char>, Shade)> {
    let head = seq![("│ "@, Shade::Dim), (ask.message@, Shade::Bold)];
    if ask.filter {
        head + seq![
            ("  "@, Shade::Plain),
            if list.filter.chars@.len() == 0 {
                ("type to filter"@, Shade::Dim)
            } else {
                (list.filter.chars@, Shade::Plain)
            },
        ]
    } else {
        head
    }
}

/// How many lines the page shows: its rows, or the panel's, whichever is
/// more.
pub open spec fn page_height(list: List, ask: Ask, width: nat, page: nat) -> nat {
    let len = list.shown.len() as nat;
    let top = top_row(list.cursor as nat, len, page);
    let end = if page <= len - top { top + page } else { len };
    let count = (end - top) as nat;
    let panel = panel_of(list, ask, widths(width, ask.previews.len() == 0).1, page);
    if count > panel.len() {
        count
    } else {
        panel.len()
    }
}

/// Every line of the window: a rule, the question, a gap, the page, a rule,
/// and the keys.
pub open spec fn frame_lines(list: List, ask: Ask, width: nat, page: nat) -> Seq<Seq<(Seq<char>, Shade)>> {
    let len = list.shown.len() as nat;
    let top = top_row(list.cursor as nat, len, page);
    let end = if page <= len - top { top + page } else { len };
    let count = end - top;
    let (left, inner) = widths(width, ask.previews.len() == 0);
    let panel = panel_of(list, ask, inner, page);
    let rule_line = seq![(rule(width), Shade::Dim)];
    let room: nat = if width > 0 { (width - 1) as nat } else { 0 };
    seq![rule_line, laid(room, question_pieces(list, ask)).0, Seq::empty()] + page_rows(
        list,
        ask,
        width,
        top as int,
        count as int,
        end < len,
        left,
        panel,
        page_height(list, ask, width, page),
    ) + seq![
        rule_line,
        laid(width, seq![(footer_text(ask.filter, ask.options.len() as nat, ask.keys@), Shade::Dim)]).0,
    ]
}

/// How many cells a line's spans take.
pub open spec fn cells(l: Seq<(Seq<char>, Shade)>) -> nat
    decreases l.len(),
{
    if l.len() == 0 {
        0
    } else {
        cells(l.drop_last()) + l.last().0.len()
    }
}

proof fn lemma_laid_fits(room: nat, ps: Seq<(Seq<char>, Shade)>)
    ensures
        cells(laid(room, ps).0) + laid(room, ps).1 == room,
    decreases ps.len(),
{
    if ps.len() > 0 {
        lemma_laid_fits(room, ps.drop_last());
        let (l, left) = laid(room, ps.drop_last());
        let c = clipped(ps.last().0, left);
        assert(c.len() <= left);
        assert(l.push((c, ps.last().1)).drop_last() == l);
    }
}

/// The window's shape: a rule as wide as the terminal, the question, an
/// empty line, the page of rows beside the panel, the same rule again, and
/// the keys: five lines more than the page; and neither the question nor
/// the keys take more cells than the terminal is wide.
pub proof fn lemma_frame_shape(list: List, ask: Ask, width: nat, page: nat)
    ensures
        frame_lines(list, ask, width, page).len() == 5 + page_height(list, ask, width, page),
        frame_lines(list, ask, width, page)[0] == seq![(rule(width), Shade::Dim)],
        frame_lines(list, ask, width, page)[frame_lines(list, ask, width, page).len() - 2] == seq![
            (rule(width), Shade::Dim),
        ],
        rule(width).len() == width,
        frame_lines(list, ask, width, page)[2].len() == 0,
        cells(frame_lines(list, ask, width, page)[1]) <= width,
        cells(frame_lines(list, ask, width, page)[frame_lines(list, ask, width, page).len() - 1]) <= width,
{
    let room: nat = if width > 0 { (width - 1) as nat } else { 0 };
    lemma_laid_fits(room, question_pieces(list, ask));
    lemma_laid_fits(
        width,
        seq![(footer_text(ask.filter, ask.options.len() as nat, ask.keys@), Shade::Dim)],
    );
}

/// The column the cursor sits at on the question line, when typing filters.
pub open spec fn cursor_column(list: List, ask: Ask, width: nat) -> Option<nat> {
    if ask.filter {
        let at = 4 + ask.message@.len() + list.filter.cursor;
        let edge: nat = if width > 0 { (width - 1) as nat } else { 0 };
        Some(if at < edge { at as nat } else { edge })
    } else {
        None
    }
}

fn row_of(list: &List, ask: &Ask, top_row: usize, at: usize, count: usize, more_below: bool) -> (r: String)
    requires
        fits(*list, ask.options.len() as nat),
        at < count,
        top_row + count <= list.shown.len(),
    ensures
        r@ == row_text(*list, *ask, top_row as int, at as int, count as int, more_below),
{
    proof {
        reveal_strlit("❯");
        reveal_strlit("^");
        reveal_strlit("v");
        reveal_strlit(" ");
        reveal_strlit(". ");
    }
    let index = list.shown[top_row + at];
    let here = top_row + at == list.cursor;
    let marker = if here {
        "❯"
    } else if at == 0 && top_row > 0 {
        "^"
    } else if at + 1 == count && more_below {
        "v"
    } else {
        " "
    };
    let mut t = String::from_str(marker);
    text::push_char(&mut t, ' ');
    if !ask.filter {
        text::push_decimal(&mut t, (index + 1) as u64);
        text::push_str(&mut t, ". ");
    }
    text::push_str(&mut t, ask.options[index].as_str());
    t
}

fn page_line(
    list: &List,
    ask: &Ask,
    width: usize,
    top_row: usize,
    at: usize,
    count: usize,
    more_below: bool,
    left: usize,
    panel: &Vec<Vec<(String, Shade)>>,
) -> (r: Vec<(String, Shade)>)
    requires
        fits(*list, ask.options.len() as nat),
        top_row + count <= list.shown.len(),
    ensures
        spans(r@) == row_line(*list, *ask, width as nat, top_row as int, at as int, count as int, more_below, left as nat, window(panel@)),
{
    let here = at < count && top_row + at == list.cursor;
    let row_text = if at < count {
        row_of(list, ask, top_row, at, count, more_below)
    } else {
        String::new()
    };
    let shade = if here { Shade::Cyan } else { Shade::Plain };
    let mut pieces: Vec<(String, Shade)> = Vec::new();
    if at < panel.len() {
        pieces.push((padded_to(cut(row_text.as_str(), left).as_str(), left), shade));
        let ghost p0 = spans(pieces@);
        assert(p0 =~= seq![(padded(clipped(row_text@, left as nat), left as nat), shade)]);
        let beside = &panel[at];
        let mut k: usize = 0;
        while k < beside.len()
            invariant
                k <= beside.len(),
                spans(pieces@) == p0 + spans(beside@).take(k as int),
            decreases beside.len() - k,
        {
            let ghost q0 = spans(pieces@);
            let piece = text::string(&text::chars(beside[k].0.as_str()));
            pieces.push((piece, beside[k].1));
            assert(spans(pieces@) =~= q0.push((beside@[k as int].0@, beside@[k as int].1)));
            assert(spans(beside@).take(k + 1) =~= spans(beside@).take(k as int).push(
                (beside@[k as int].0@, beside@[k as int].1),
            ));
            k += 1;
        }
        assert(spans(beside@).take(beside.len() as int) == spans(beside@));
        assert(spans(beside@) == window(panel@)[at as int]);
    } else {
        pieces.push((row_text, shade));
        assert(spans(pieces@) =~= seq![(row_text@, shade)]);
    }
    lay(&pieces, width)
}

/// The rows of the page, `height` lines of them.
pub open spec fn page_rows(
    list: List,
    ask: Ask,
    width: nat,
    top: int,
    count: int,
    more_below: bool,
    left: nat,
    panel: Seq<Seq<(Seq<char>, Shade)>>,
    height: nat,
) -> Seq<Seq<(Seq<char>, Shade)>> {
    Seq::new(height, |at: int| row_line(list, ask, width, top, at, count, more_below, left, panel))
}

fn rows_of(
    list: &List,
    ask: &Ask,
    width: usize,
    top_row: usize,
    count: usize,
    more_below: bool,
    left: usize,
    panel: &Vec<Vec<(String, Shade)>>,
    height: usize,
) -> (r: Vec<Vec<(String, Shade)>>)
    requires
        fits(*list, ask.options.len() as nat),
        top_row + count <= list.shown.len(),
    ensures
        window(r@) == page_rows(*list, *ask, width as nat, top_row as int, count as int, more_below, left as nat, window(panel@), height as nat),
{
    let ghost wp = window(panel@);
    let mut lines: Vec<Vec<(String, Shade)>> = Vec::new();
    let mut at: usize = 0;
    while at < height
        invariant
            at <= height,
            top_row + count <= list.shown.len(),
            fits(*list, ask.options.len() as nat),
            wp == window(panel@),
            window(lines@) == page_rows(*list, *ask, width as nat, top_row as int, count as int, more_below, left as nat, wp, at as nat),
        decreases height - at,
    {
        let line = page_line(list, ask, width, top_row, at, count, more_below, left, panel);
        let ghost w0 = window(lines@);
        lines.push(line);
        assert(window(lines@) =~= w0.push(spans(line@)));
        assert(page_rows(*list, *ask, width as nat, top_row as int, count as int, more_below, left as nat, wp, (at + 1) as nat)
            =~= page_rows(*list, *ask, width as nat, top_row as int, count as int, more_below, left as nat, wp, at as nat).push(
            row_line(*list, *ask, width as nat, top_row as int, at as int, count as int, more_below, left as nat, wp),
        ));
        at += 1;
    }
    lines
}

fn question_line(list: &List, ask: &Ask, width: usize) -> (r: (Vec<(String, Shade)>, Option<usize>))
    requires
        fits(*list, ask.options.len() as nat),
    ensures
        spans(r.0@) == laid((if width > 0 { width - 1 } else { 0 }) as nat, question_pieces(*list, *ask)).0,
        r.1 == (match cursor_column(*list, *ask, width as nat) {
            Some(c) => Some(c as usize),
            None => None::<usize>,
        }),
{
    proof {
        reveal_strlit("│ ");
        reveal_strlit("  ");
        reveal_strlit("type to filter");
    }
    let mut question: Vec<(String, Shade)> = Vec::new();
    question.push((String::from_str("│ "), Shade::Dim));
    question.push((ask.message.clone(), Shade::Bold));
    let message_len = text::chars(ask.message.as_str()).len();
    let mut column: Option<usize> = None;
    if ask.filter {
        question.push((String::from_str("  "), Shade::Plain));
        if list.filter.chars.len() == 0 {
            question.push((String::from_str("type to filter"), Shade::Dim));
        } else {
            question.push((text::string(&list.filter.chars), Shade::Plain));
        }
        let at: usize = if list.filter.cursor <= usize::MAX - 4 && message_len <= usize::MAX - 4 - list.filter.cursor {
            4 + message_len + list.filter.cursor
        } else {
            usize::MAX
        };
        let edge: usize = if width > 0 { width - 1 } else { 0 };
        column = Some(if at < edge { at } else { edge });
    }
    assert(spans(question@) =~= question_pieces(*list, *ask));
    let room: usize = if width > 0 { width - 1 } else { 0 };
    (lay(&question, room), column)
}

/// Every line of the window — a rule, the question, a gap, the rows with the
/// panel beside them, a rule, and the keys — and the column the cursor sits
/// at on the question line, when it shows at all.
#[verifier::rlimit(100)]
pub fn frame(list: &List, ask: &Ask, width: usize, page: usize) -> (r: (Vec<Vec<(String, Shade)>>, Option<usize>))
    requires
        fits(*list, ask.options.len() as nat),
    ensures
        window(r.0@) == frame_lines(*list, *ask, width as nat, page as nat),
        r.1 == (match cursor_column(*list, *ask, width as nat) {
            Some(c) => Some(c as usize),
            None => None::<usize>,
        }),
{
    let rule_text = repeat('─', width);
    let (question, column) = question_line(list, ask, width);
    let room: usize = if width > 0 { width - 1 } else { 0 };
    let mut lines: Vec<Vec<(String, Shade)>> = Vec::new();
    lines.push(dim_line(rule_text.clone()));
    let ghost w0 = window(lines@);
    lines.push(question);
    let ghost w1 = window(lines@);
    lines.push(Vec::new());
    let ghost head = seq![
        seq![(rule(width as nat), Shade::Dim)],
        laid(room as nat, question_pieces(*list, *ask)).0,
        Seq::<(Seq<char>, Shade)>::empty(),
    ];
    proof {
        assert(w0 =~= seq![seq![(rule(width as nat), Shade::Dim)]]);
        assert(w1 =~= w0.push(laid(room as nat, question_pieces(*list, *ask)).0));
        assert(window(lines@) =~= w1.push(spans(Seq::<(String, Shade)>::empty())));
        assert(spans(Seq::<(String, Shade)>::empty()) =~= Seq::<(Seq<char>, Shade)>::empty());
        assert(window(lines@) =~= head);
    }

    let len = list.shown.len();
    let top_at = top(list.cursor, len, page);
    let end: usize = if page <= len - top_at { top_at + page } else { len };
    let more_below = end < len;
    let (left, inner) = if ask.previews.len() == 0 { (width, 0) } else { split(width) };
    let panel: Vec<Vec<(String, Shade)>> = match highlighted(list) {
        Some(index) => if index < ask.previews.len() && inner > 0 && ask.previews[index].len() > 0 {
            boxed(&ask.previews[index], inner, page)
        } else {
            Vec::new()
        },
        None => Vec::new(),
    };
    let ghost spanel = panel_of(*list, *ask, inner as nat, page as nat);
    assert(top_at == top_row(list.cursor as nat, len as nat, page as nat));
    assert((left as nat, inner as nat) == widths(width as nat, ask.previews.len() == 0));
    assert(window(panel@) =~= spanel);
    let count = end - top_at;
    let height = if count > panel.len() { count } else { panel.len() };
    assert(height == page_height(*list, *ask, width as nat, page as nat));
    let mut page_lines = rows_of(list, ask, width, top_at, count, more_below, left, &panel, height);
    let ghost w1 = window(lines@);
    let ghost wp = window(page_lines@);
    lines.append(&mut page_lines);
    assert(window(lines@) =~= w1 + wp);
    let ghost w2 = window(lines@);
    lines.push(dim_line(rule_text));
    let line_of_keys = footer(ask.filter, ask.options.len(), ask.keys.as_str());
    let mut keys: Vec<(String, Shade)> = Vec::new();
    keys.push((line_of_keys, Shade::Dim));
    assert(spans(keys@) =~= seq![(footer_text(ask.filter, ask.options.len() as nat, ask.keys@), Shade::Dim)]);
    let ghost w3 = window(lines@);
    lines.push(lay(&keys, width));
    proof {
        assert(w3 =~= w2.push(seq![(rule(width as nat), Shade::Dim)]));
        assert(window(lines@) =~= w3.push(laid(width as nat, seq![(footer_text(ask.filter, ask.options.len() as nat, ask.keys@), Shade::Dim)]).0));
        assert(window(lines@) =~= frame_lines(*list, *ask, width as nat, page as nat));
    }
    (lines, column)
}

} // verus!
