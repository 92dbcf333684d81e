//! POSIX paths, held as plain strings: the few things the library asks of a
//! path — its last component, its parent, whether it lies inside another —
//! stated over its characters.

use vstd::prelude::*;
use crate::text::{self, starts_with, trim_start_char};

verus! {

/// Where the last `/` of `p` is.
pub open spec fn last_slash(p: Seq<char>) -> Option<int>
    decreases p.len(),
{
    if p.len() == 0 {
        None
    } else if p.last() == '/' {
        Some(p.len() - 1)
    } else {
        last_slash(p.drop_last())
    }
}

/// The text after the last `/`, or all of it when there is none.
pub open spec fn tail(p: Seq<char>) -> Seq<char> {
    match last_slash(p) {
        Some(i) => p.skip(i + 1),
        None => p,
    }
}

/// `p` without the separators it ends with, as `Path` reads it: a path of
/// separators alone keeps one.
pub open spec fn unslashed(p: Seq<char>) -> Seq<char>
    decreases p.len(),
{
    if p.len() > 1 && p.last() == '/' {
        unslashed(p.drop_last())
    } else {
        p
    }
}

/// `Path::file_name`: the last component, when there is one that names
/// something; separators at the end do not count.
pub open spec fn file_name(p: Seq<char>) -> Option<Seq<char>> {
    let t = tail(unslashed(p));
    if t.len() == 0 || t == seq!['.', '.'] {
        None
    } else {
        Some(t)
    }
}

/// The last component, or nothing: `file_name(..).unwrap_or_default()`.
pub open spec fn base_name(p: Seq<char>) -> Seq<char> {
    match file_name(p) {
        Some(n) => n,
        None => Seq::empty(),
    }
}

/// `Path::parent`.
pub open spec fn parent(p: Seq<char>) -> Option<Seq<char>> {
    if p.len() == 0 {
        None
    } else {
        match last_slash(p) {
            None => Some(Seq::empty()),
            Some(i) => if i == 0 {
                if p.len() == 1 {
                    None
                } else {
                    Some(seq!['/'])
                }
            } else {
                Some(p.take(i))
            },
        }
    }
}

/// `Path::join`: an absolute `rest` replaces `base`.
pub open spec fn join(base: Seq<char>, rest: Seq<char>) -> Seq<char> {
    if rest.len() > 0 && rest[0] == '/' {
        rest
    } else if base.len() == 0 || base.last() == '/' {
        base + rest
    } else {
        base + seq!['/'] + rest
    }
}

/// `Path::with_file_name`: the last component replaced, or `name` added
/// when there is none.
pub open spec fn with_file_name(p: Seq<char>, name: Seq<char>) -> Seq<char> {
    let dir = match (file_name(p), parent(p)) {
        (Some(_), Some(up)) => up,
        _ => p,
    };
    join(dir, name)
}

/// `Path::starts_with`: `base` is `p` or one of the directories above it,
/// whole components only; separators at the end of either do not count.
pub open spec fn within(p: Seq<char>, base: Seq<char>) -> bool {
    contained(unslashed(p), unslashed(base))
}

/// `base` is `p` or a directory above it, both without separators at the
/// end.
pub open spec fn contained(p: Seq<char>, base: Seq<char>) -> bool {
    starts_with(p, base) && (p.len() == base.len() || base.len() == 0 || base.last() == '/'
        || p[base.len() as int] == '/')
}

/// `Path::strip_prefix`: what is left of `p` below `base`.
pub open spec fn below(p: Seq<char>, base: Seq<char>) -> Option<Seq<char>> {
    if within(p, base) {
        Some(trim_start_char(unslashed(p).skip(unslashed(base).len() as int), '/'))
    } else {
        None
    }
}

/// How many components a path has.
pub open spec fn depth(p: Seq<char>) -> nat
    decreases p.len(),
{
    if p.len() == 0 {
        0
    } else {
        let n = depth(p.drop_last());
        if p.last() != '/' && (p.len() == 1 || p[p.len() - 2] == '/') {
            n + 1
        } else {
            n
        }
    }
}

/// Where a character sorts in a path: the separator before everything, so
/// that comparing the text compares component by component.
pub open spec fn rank(c: char) -> int {
    if c == '/' {
        0
    } else {
        c as int + 1
    }
}

/// Path order, as `PathBuf`'s `Ord` has it for these paths.
pub open spec fn before(a: Seq<char>, b: Seq<char>) -> bool
    decreases a.len(),
{
    if a.len() == 0 {
        b.len() > 0
    } else if b.len() == 0 {
        false
    } else if rank(a[0]) != rank(b[0]) {
        rank(a[0]) < rank(b[0])
    } else {
        before(a.drop_first(), b.drop_first())
    }
}

fn find_last_slash(p: &[char]) -> (r: Option<usize>)
    ensures
        match r {
            Some(i) => last_slash(p@) == Some(i as int) && i < p.len(),
            None => last_slash(p@) is None,
        },
{
    let mut i = p.len();
    assert(p@.take(p.len() as int) == p@);
    while i > 0
        invariant
            i <= p.len(),
            last_slash(p@) == last_slash(p@.take(i as int)),
        decreases i,
    {
        assert(p@.take(i as int).drop_last() == p@.take(i - 1));
        if p[i - 1] == '/' {
            return Some(i - 1);
        }
        i -= 1;
    }
    None
}

fn unslashed_chars(p: &str) -> (r: Vec<char>)
    ensures
        r@ == unslashed(p@),
{
    let v = text::chars(p);
    let mut k = v.len();
    assert(v@.take(k as int) == v@);
    while k > 1 && v[k - 1] == '/'
        invariant
            k <= v.len(),
            unslashed(v@) == unslashed(v@.take(k as int)),
        decreases k,
    {
        assert(v@.take(k as int).drop_last() == v@.take(k - 1));
        k -= 1;
    }
    let r = text::slice(&v, 0, k);
    assert(r@ == v@.take(k as int));
    r
}

pub fn file_name_of(p: &str) -> (r: Option<String>)
    ensures
        match r {
            Some(n) => file_name(p@) == Some(n@),
            None => file_name(p@) is None,
        },
{
    let v = unslashed_chars(p);
    let t = match find_last_slash(&v) {
        Some(i) => text::slice(&v, i + 1, v.len()),
        None => v.clone(),
    };
    proof {
        if let Some(i) = last_slash(v@) {
            assert(t@ == v@.skip(i + 1));
        }
    }
    if t.len() == 0 || (t.len() == 2 && t[0] == '.' && t[1] == '.') {
        proof {
            if t.len() == 2 {
                assert(t@ == seq!['.', '.']);
            }
        }
        None
    } else {
        proof {
            if t@ == seq!['.', '.'] {
                assert(t@[0] == '.' && t@[1] == '.');
            }
        }
        Some(text::string(&t))
    }
}

/// The last component, or nothing.
pub fn base_name_of(p: &str) -> (r: String)
    ensures
        r@ == base_name(p@),
{
    match file_name_of(p) {
        Some(n) => n,
        None => String::new(),
    }
}

pub fn parent_of(p: &str) -> (r: Option<String>)
    ensures
        match r {
            Some(up) => parent(p@) == Some(up@),
            None => parent(p@) is None,
        },
{
    let v = text::chars(p);
    if v.len() == 0 {
        return None;
    }
    match find_last_slash(&v) {
        None => Some(String::new()),
        Some(i) => {
            if i == 0 {
                if v.len() == 1 {
                    None
                } else {
                    let mut s = String::new();
                    text::push_char(&mut s, '/');
                    Some(s)
                }
            } else {
                let up = text::slice(&v, 0, i);
                assert(up@ == v@.take(i as int));
                Some(text::string(&up))
            }
        },
    }
}

pub fn join_paths(base: &str, rest: &str) -> (r: String)
    ensures
        r@ == join(base@, rest@),
{
    let b = text::chars(base);
    let t = text::chars(rest);
    if t.len() > 0 && t[0] == '/' {
        return rest.to_owned();
    }
    let mut r = base.to_owned();
    if !(b.len() == 0 || b[b.len() - 1] == '/') {
        text::push_char(&mut r, '/');
    }
    text::push_str(&mut r, rest);
    r
}

pub fn with_file_name_of(p: &str, name: &str) -> (r: String)
    ensures
        r@ == with_file_name(p@, name@),
{
    let named = file_name_of(p);
    let up = parent_of(p);
    let dir = match (named, up) {
        (Some(_), Some(up)) => up,
        _ => p.to_owned(),
    };
    join_paths(dir.as_str(), name)
}

pub fn is_within(p: &str, base: &str) -> (r: bool)
    ensures
        r == within(p@, base@),
{
    let v = unslashed_chars(p);
    let b = unslashed_chars(base);
    if !text::has_prefix(&v, &b) {
        return false;
    }
    v.len() == b.len() || b.len() == 0 || b[b.len() - 1] == '/' || v[b.len()] == '/'
}

pub fn below_of(p: &str, base: &str) -> (r: Option<String>)
    ensures
        match r {
            Some(rest) => below(p@, base@) == Some(rest@),
            None => below(p@, base@) is None,
        },
{
    if !is_within(p, base) {
        return None;
    }
    let v = unslashed_chars(p);
    let b = unslashed_chars(base);
    let rest = text::slice(&v, b.len(), v.len());
    assert(rest@ == v@.skip(b.len() as int));
    let mut start: usize = 0;
    assert(rest@.skip(0) == rest@);
    while start < rest.len() && rest[start] == '/'
        invariant
            start <= rest.len(),
            trim_start_char(rest@, '/') == trim_start_char(rest@.skip(start as int), '/'),
        decreases rest.len() - start,
    {
        assert(rest@.skip(start as int).drop_first() == rest@.skip(start + 1));
        start += 1;
    }
    let left = text::slice(&rest, start, rest.len());
    assert(left@ == rest@.skip(start as int));
    assert(trim_start_char(left@, '/') == left@);
    Some(text::string(&left))
}

pub fn depth_of(p: &str) -> (r: usize)
    ensures
        r as nat == depth(p@),
{
    let v = text::chars(p);
    let mut n: usize = 0;
    let mut i: usize = 0;
    while i < v.len()
        invariant
            i <= v.len(),
            n as nat == depth(v@.take(i as int)),
            n <= i,
        decreases v.len() - i,
    {
        let ghost t = v@.take(i + 1);
        assert(t.drop_last() == v@.take(i as int));
        if v[i] != '/' && (i == 0 || v[i - 1] == '/') {
            n += 1;
        }
        i += 1;
    }
    assert(v@.take(v.len() as int) == v@);
    n
}

fn rank_of(c: char) -> (r: u64)
    ensures
        r as int == rank(c),
{
    if c == '/' {
        0
    } else {
        let n: u32 = c as u32;
        assert(n as int == c as int);
        n as u64 + 1
    }
}

/// Whether `a` sorts strictly before `b`.
pub fn is_before(a: &[char], b: &[char]) -> (r: bool)
    ensures
        r == before(a@, b@),
{
    let mut i: usize = 0;
    assert(a@.skip(0) == a@);
    assert(b@.skip(0) == b@);
    while i < a.len() && i < b.len()
        invariant
            i <= a.len(),
            i <= b.len(),
            before(a@, b@) == before(a@.skip(i as int), b@.skip(i as int)),
        decreases a.len() - i,
    {
        let x = a[i];
        let y = b[i];
        let rx = rank_of(x);
        let ry = rank_of(y);
        if rx != ry {
            return rx < ry;
        }
        assert(a@.skip(i as int).drop_first() == a@.skip(i + 1));
        assert(b@.skip(i as int).drop_first() == b@.skip(i + 1));
        i += 1;
    }
    i >= a.len() && i < b.len()
}

} // verus!

verus! {

pub proof fn lemma_rank_injective(a: char, b: char)
    ensures
        rank(a) == rank(b) ==> a == b,
{
}

pub proof fn lemma_before_irreflexive(a: Seq<char>)
    ensures
        !before(a, a),
    decreases a.len(),
{
    if a.len() > 0 {
        lemma_before_irreflexive(a.drop_first());
    }
}

pub proof fn lemma_before_asymmetric(a: Seq<char>, b: Seq<char>)
    ensures
        before(a, b) ==> !before(b, a),
    decreases a.len(),
{
    if a.len() > 0 && b.len() > 0 && rank(a[0]) == rank(b[0]) {
        lemma_before_asymmetric(a.drop_first(), b.drop_first());
    }
}

pub proof fn lemma_before_transitive(a: Seq<char>, b: Seq<char>, c: Seq<char>)
    ensures
        before(a, b) && before(b, c) ==> before(a, c),
    decreases a.len(),
{
    if a.len() > 0 && b.len() > 0 && c.len() > 0 {
        lemma_before_transitive(a.drop_first(), b.drop_first(), c.drop_first());
    }
}

pub proof fn lemma_before_total(a: Seq<char>, b: Seq<char>)
    ensures
        a != b ==> before(a, b) || before(b, a),
    decreases a.len(),
{
    if a.len() > 0 && b.len() > 0 {
        lemma_rank_injective(a[0], b[0]);
        lemma_before_total(a.drop_first(), b.drop_first());
        if rank(a[0]) == rank(b[0]) && a.drop_first() == b.drop_first() {
            assert(a == seq![a[0]] + a.drop_first());
            assert(b == seq![b[0]] + b.drop_first());
        }
    } else if a.len() == 0 && b.len() == 0 {
        assert(a == b);
    }
}

/// Whether `a` sorts strictly before `b`.
pub fn path_before(a: &str, b: &str) -> (r: bool)
    ensures
        r == before(a@, b@),
{
    is_before(&text::chars(a), &text::chars(b))
}

/// The text of each of these strings.
pub open spec fn texts(s: Seq<String>) -> Seq<Seq<char>> {
    s.map_values(|x: String| x@)
}

/// In path order, each strictly before the next: no path twice.
pub open spec fn ordered(s: Seq<Seq<char>>) -> bool {
    forall|i: int, j: int| 0 <= i < j < s.len() ==> before(#[trigger] s[i], #[trigger] s[j])
}

/// Put `p` in its place in `v`, unless it is there already.
pub fn insert_ordered(v: &mut Vec<String>, p: String)
    requires
        ordered(texts(old(v)@)),
    ensures
        ordered(texts(final(v)@)),
        forall|x: Seq<char>| texts(final(v)@).contains(x) <==> (texts(old(v)@).contains(x) || x == p@),
{
    let key = text::chars(p.as_str());
    let mut i: usize = 0;
    while i < v.len() && path_before(v[i].as_str(), p.as_str())
        invariant
            i <= v.len(),
            v@ == old(v)@,
            key@ == p@,
            ordered(texts(v@)),
            forall|j: int| 0 <= j < i ==> before(#[trigger] texts(v@)[j], p@),
        decreases v.len() - i,
    {
        i += 1;
    }
    let ghost t = texts(v@);
    if i < v.len() {
        let here = text::chars(v[i].as_str());
        if text::same_chars(&here, &key) {
            proof {
                assert(t[i as int] == p@);
            }
            return;
        }
        proof {
            lemma_before_total(t[i as int], p@);
            assert(before(p@, t[i as int]));
            assert forall|j: int| i <= j < t.len() implies before(p@, #[trigger] t[j]) by {
                if j > i {
                    lemma_before_transitive(p@, t[i as int], t[j]);
                }
            }
        }
    }
    proof {
        assert forall|j: int| i <= j < t.len() implies before(p@, #[trigger] t[j]) by {
        }
    }
    v.insert(i, p);
    proof {
        let n = texts(v@);
        assert(n == t.take(i as int).push(p@) + t.skip(i as int));
        assert forall|a: int, b: int| 0 <= a < b < n.len() implies before(#[trigger] n[a], #[trigger] n[b]) by {
            if a < i && b > i {
                lemma_before_transitive(n[a], p@, n[b]);
            }
        }
        assert forall|x: Seq<char>| n.contains(x) <==> (t.contains(x) || x == p@) by {
            if n.contains(x) {
                let k = choose|k: int| 0 <= k < n.len() && n[k] == x;
                if k < i {
                    assert(t[k] == x);
                } else if k > i {
                    assert(t[k - 1] == x);
                }
            }
            if t.contains(x) {
                let k = choose|k: int| 0 <= k < t.len() && t[k] == x;
                if k < i {
                    assert(n[k] == x);
                } else {
                    assert(n[k + 1] == x);
                }
            }
            if x == p@ {
                assert(n[i as int] == x);
            }
        }
    }
}

} // verus!
