//! Characters and strings: what the rest of the library says about text, and
//! the handful of operations it builds everything else from.

use vstd::prelude::*;
use crate::path::texts;

verus! {

/// ASCII letters and digits.
pub open spec fn is_alnum(c: char) -> bool {
    ('0' <= c && c <= '9') || ('a' <= c && c <= 'z') || ('A' <= c && c <= 'Z')
}

pub open spec fn is_upper(c: char) -> bool {
    'A' <= c && c <= 'Z'
}

pub open spec fn is_digit(c: char) -> bool {
    '0' <= c && c <= '9'
}

/// ASCII lowercasing; every other character is itself.
pub open spec fn lower(c: char) -> char {
    if is_upper(c) {
        ((c as u32) + 32) as char
    } else {
        c
    }
}

/// Unicode `White_Space`, the characters `str::trim` and `char::is_whitespace`
/// treat as space.
pub open spec fn is_space(c: char) -> bool {
    let n = c as u32;
    (0x9 <= n && n <= 0xd) || n == 0x20 || n == 0x85 || n == 0xa0 || n == 0x1680 || (0x2000 <= n
        && n <= 0x200a) || n == 0x2028 || n == 0x2029 || n == 0x202f || n == 0x205f || n == 0x3000
}

/// Unicode alphanumerics, as `char::is_alphanumeric` decides them.
pub uninterp spec fn alphanumeric(c: char) -> bool;

pub fn is_alnum_char(c: char) -> (r: bool)
    ensures
        r == is_alnum(c),
{
    ('0' <= c && c <= '9') || ('a' <= c && c <= 'z') || ('A' <= c && c <= 'Z')
}

pub fn is_upper_char(c: char) -> (r: bool)
    ensures
        r == is_upper(c),
{
    'A' <= c && c <= 'Z'
}

pub fn is_digit_char(c: char) -> (r: bool)
    ensures
        r == is_digit(c),
{
    '0' <= c && c <= '9'
}

pub fn to_lower(c: char) -> (r: char)
    ensures
        r == lower(c),
{
    if 'A' <= c && c <= 'Z' {
        let b: u8 = c as u8;
        assert(b as u32 == c as u32);
        (b + 32) as char
    } else {
        c
    }
}

pub fn is_space_char(c: char) -> (r: bool)
    ensures
        r == is_space(c),
{
    let n = c as u32;
    (0x9 <= n && n <= 0xd) || n == 0x20 || n == 0x85 || n == 0xa0 || n == 0x1680 || (0x2000 <= n
        && n <= 0x200a) || n == 0x2028 || n == 0x2029 || n == 0x202f || n == 0x205f || n == 0x3000
}

/// `char::is_alphanumeric`.
#[verifier::external_body]
pub(crate) fn is_alphanumeric_char(c: char) -> (r: bool)
    ensures
        r == alphanumeric(c),
{
    c.is_alphanumeric()
}

/// `String::push`: the character is appended.
#[verifier::external_body]
pub(crate) fn push_char(s: &mut String, c: char)
    ensures
        final(s)@ == old(s)@.push(c),
{
    s.push(c);
}

/// The characters of `s`, in order.
pub fn chars(s: &str) -> (v: Vec<char>)
    ensures
        v@ == s@,
{
    let mut v: Vec<char> = Vec::new();
    for c in it: s.chars()
        invariant
            v@ == it.seq().take(it.index()),
    {
        v.push(c);
    }
    v
}

/// The string of these characters.
pub fn string(v: &[char]) -> (s: String)
    ensures
        s@ == v@,
{
    let mut s = String::new();
    let mut i: usize = 0;
    while i < v.len()
        invariant
            i <= v.len(),
            s@ == v@.take(i as int),
        decreases v.len() - i,
    {
        push_char(&mut s, v[i]);
        i += 1;
        assert(s@ == v@.take(i as int));
    }
    assert(v@.take(v.len() as int) == v@);
    s
}

/// `s` followed by `t`.
pub fn concat(s: &str, t: &str) -> (r: String)
    ensures
        r@ == s@ + t@,
{
    let mut r = s.to_owned();
    push_str(&mut r, t);
    r
}

pub fn push_str(s: &mut String, t: &str)
    ensures
        final(s)@ == old(s)@ + t@,
{
    let v = chars(t);
    let mut i: usize = 0;
    while i < v.len()
        invariant
            i <= v.len(),
            v@ == t@,
            s@ == old(s)@ + v@.take(i as int),
        decreases v.len() - i,
    {
        push_char(s, v[i]);
        i += 1;
        assert(s@ == old(s)@ + v@.take(i as int));
    }
    assert(v@.take(v.len() as int) == v@);
}

/// Character-by-character equality.
pub fn same(a: &str, b: &str) -> (r: bool)
    ensures
        r == (a@ == b@),
{
    let x = chars(a);
    let y = chars(b);
    same_chars(&x, &y)
}

pub fn same_chars(x: &[char], y: &[char]) -> (r: bool)
    ensures
        r == (x@ == y@),
{
    if x.len() != y.len() {
        return false;
    }
    let mut i: usize = 0;
    while i < x.len()
        invariant
            i <= x.len(),
            x.len() == y.len(),
            x@.take(i as int) == y@.take(i as int),
        decreases x.len() - i,
    {
        if x[i] != y[i] {
            assert(x@[i as int] != y@[i as int]);
            return false;
        }
        assert(x@.take(i + 1) == x@.take(i as int).push(x@[i as int]));
        assert(y@.take(i + 1) == y@.take(i as int).push(y@[i as int]));
        i += 1;
    }
    assert(x@.take(x.len() as int) == x@);
    assert(y@.take(y.len() as int) == y@);
    true
}

/// A copy of these characters.
pub fn copy(v: &[char]) -> (r: Vec<char>)
    ensures
        r@ == v@,
{
    let r = slice(v, 0, v.len());
    assert(v@.subrange(0, v.len() as int) == v@);
    r
}

/// `p` is where `s` starts.
pub open spec fn starts_with(s: Seq<char>, p: Seq<char>) -> bool {
    p.len() <= s.len() && s.take(p.len() as int) == p
}

pub fn has_prefix(s: &[char], p: &[char]) -> (r: bool)
    ensures
        r == starts_with(s@, p@),
{
    if p.len() > s.len() {
        return false;
    }
    let mut i: usize = 0;
    while i < p.len()
        invariant
            i <= p.len(),
            p.len() <= s.len(),
            s@.take(i as int) == p@.take(i as int),
        decreases p.len() - i,
    {
        if s[i] != p[i] {
            assert(s@.take(p.len() as int)[i as int] != p@[i as int]);
            return false;
        }
        assert(s@.take(i + 1) == s@.take(i as int).push(s@[i as int]));
        assert(p@.take(i + 1) == p@.take(i as int).push(p@[i as int]));
        i += 1;
    }
    assert(p@.take(p.len() as int) == p@);
    true
}

/// The characters of `v` from `from` to `to`.
pub fn slice(v: &[char], from: usize, to: usize) -> (r: Vec<char>)
    requires
        from <= to <= v.len(),
    ensures
        r@ == v@.subrange(from as int, to as int),
{
    let mut r: Vec<char> = Vec::new();
    let mut i = from;
    while i < to
        invariant
            from <= i <= to <= v.len(),
            r@ == v@.subrange(from as int, i as int),
        decreases to - i,
    {
        r.push(v[i]);
        i += 1;
        assert(r@ == v@.subrange(from as int, i as int));
    }
    r
}

/// `s` without the white space at its start.
pub open spec fn trim_start(s: Seq<char>) -> Seq<char>
    decreases s.len(),
{
    if s.len() > 0 && is_space(s[0]) {
        trim_start(s.drop_first())
    } else {
        s
    }
}

/// `s` without the white space at its end.
pub open spec fn trim_end(s: Seq<char>) -> Seq<char>
    decreases s.len(),
{
    if s.len() > 0 && is_space(s.last()) {
        trim_end(s.drop_last())
    } else {
        s
    }
}

/// `str::trim`.
pub open spec fn trim(s: Seq<char>) -> Seq<char> {
    trim_end(trim_start(s))
}

/// `s` without any run of `c` at its end.
pub open spec fn trim_end_char(s: Seq<char>, c: char) -> Seq<char>
    decreases s.len(),
{
    if s.len() > 0 && s.last() == c {
        trim_end_char(s.drop_last(), c)
    } else {
        s
    }
}

/// `s` without any run of `c` at its start.
pub open spec fn trim_start_char(s: Seq<char>, c: char) -> Seq<char>
    decreases s.len(),
{
    if s.len() > 0 && s[0] == c {
        trim_start_char(s.drop_first(), c)
    } else {
        s
    }
}

proof fn lemma_trim_start_skip(s: Seq<char>, i: int)
    requires
        0 <= i <= s.len(),
        forall|j: int| 0 <= j < i ==> is_space(#[trigger] s[j]),
    ensures
        trim_start(s) == trim_start(s.skip(i)),
    decreases i,
{
    if i > 0 {
        assert(s.drop_first().skip(i - 1) == s.skip(i));
        lemma_trim_start_skip(s.drop_first(), i - 1);
    } else {
        assert(s.skip(0) == s);
    }
}

proof fn lemma_trim_end_take(s: Seq<char>, i: int)
    requires
        0 <= i <= s.len(),
        forall|j: int| i <= j < s.len() ==> is_space(#[trigger] s[j]),
    ensures
        trim_end(s) == trim_end(s.take(i)),
    decreases s.len() - i,
{
    if i < s.len() {
        assert(s.drop_last().take(i) == s.take(i));
        lemma_trim_end_take(s.drop_last(), i);
    } else {
        assert(s.take(i) == s);
    }
}

proof fn lemma_trim_end_char_take(s: Seq<char>, c: char, i: int)
    requires
        0 <= i <= s.len(),
        forall|j: int| i <= j < s.len() ==> #[trigger] s[j] == c,
    ensures
        trim_end_char(s, c) == trim_end_char(s.take(i), c),
    decreases s.len() - i,
{
    if i < s.len() {
        assert(s.drop_last().take(i) == s.take(i));
        lemma_trim_end_char_take(s.drop_last(), c, i);
    } else {
        assert(s.take(i) == s);
    }
}

proof fn lemma_trim_start_char_skip(s: Seq<char>, c: char, i: int)
    requires
        0 <= i <= s.len(),
        forall|j: int| 0 <= j < i ==> #[trigger] s[j] == c,
    ensures
        trim_start_char(s, c) == trim_start_char(s.skip(i), c),
    decreases i,
{
    if i > 0 {
        assert(s.drop_first().skip(i - 1) == s.skip(i));
        lemma_trim_start_char_skip(s.drop_first(), c, i - 1);
    } else {
        assert(s.skip(0) == s);
    }
}

/// `str::trim`.
pub fn trimmed(v: &[char]) -> (r: Vec<char>)
    ensures
        r@ == trim(v@),
{
    let mut start: usize = 0;
    while start < v.len() && is_space_char(v[start])
        invariant
            start <= v.len(),
            forall|j: int| 0 <= j < start ==> is_space(#[trigger] v@[j]),
        decreases v.len() - start,
    {
        start += 1;
    }
    proof {
        lemma_trim_start_skip(v@, start as int);
    }
    let mut end: usize = v.len();
    while end > start && is_space_char(v[end - 1])
        invariant
            start <= end <= v.len(),
            forall|j: int| end <= j < v.len() ==> is_space(#[trigger] v@[j]),
        decreases end,
    {
        end -= 1;
    }
    let r = slice(v, start, end);
    proof {
        let t = v@.skip(start as int);
        assert(trim_start(t) == t);
        lemma_trim_end_take(t, end - start);
        assert(t.take(end - start) == r@);
        assert(trim_end(r@) == r@);
    }
    r
}

/// `str::trim_end_matches` for one character.
pub fn trimmed_end_char(v: &[char], c: char) -> (r: Vec<char>)
    ensures
        r@ == trim_end_char(v@, c),
{
    let mut end: usize = v.len();
    while end > 0 && v[end - 1] == c
        invariant
            end <= v.len(),
            forall|j: int| end <= j < v.len() ==> #[trigger] v@[j] == c,
        decreases end,
    {
        end -= 1;
    }
    let r = slice(v, 0, end);
    proof {
        lemma_trim_end_char_take(v@, c, end as int);
        assert(v@.take(end as int) == r@);
    }
    r
}

/// `str::trim_start_matches` for one character.
pub fn trimmed_start_char(v: &[char], c: char) -> (r: Vec<char>)
    ensures
        r@ == trim_start_char(v@, c),
{
    let mut start: usize = 0;
    while start < v.len() && v[start] == c
        invariant
            start <= v.len(),
            forall|j: int| 0 <= j < start ==> #[trigger] v@[j] == c,
        decreases v.len() - start,
    {
        start += 1;
    }
    proof {
        lemma_trim_start_char_skip(v@, c, start as int);
    }
    slice(v, start, v.len())
}

/// `str::trim_end`.
pub fn trimmed_end(v: &[char]) -> (r: Vec<char>)
    ensures
        r@ == trim_end(v@),
{
    let mut end: usize = v.len();
    while end > 0 && is_space_char(v[end - 1])
        invariant
            end <= v.len(),
            forall|j: int| end <= j < v.len() ==> is_space(#[trigger] v@[j]),
        decreases end,
    {
        end -= 1;
    }
    let r = slice(v, 0, end);
    proof {
        lemma_trim_end_take(v@, end as int);
        assert(v@.take(end as int) == r@);
        assert(trim_end(r@) == r@);
    }
    r
}

/// `str::trim_matches` for one character: off both ends.
pub open spec fn trim_char(s: Seq<char>, c: char) -> Seq<char> {
    trim_end_char(trim_start_char(s, c), c)
}

pub fn trimmed_char(v: &[char], c: char) -> (r: Vec<char>)
    ensures
        r@ == trim_char(v@, c),
{
    let mut start: usize = 0;
    while start < v.len() && v[start] == c
        invariant
            start <= v.len(),
            forall|j: int| 0 <= j < start ==> #[trigger] v@[j] == c,
        decreases v.len() - start,
    {
        start += 1;
    }
    proof {
        lemma_trim_start_char_skip(v@, c, start as int);
    }
    let rest = slice(v, start, v.len());
    proof {
        assert(rest@ == v@.skip(start as int));
    }
    trimmed_end_char(&rest, c)
}

/// Where `c` first occurs in `s`.
pub open spec fn first_of(s: Seq<char>, c: char) -> Option<int>
    decreases s.len(),
{
    if s.len() == 0 {
        None
    } else if s[0] == c {
        Some(0)
    } else {
        match first_of(s.skip(1), c) {
            Some(i) => Some(i + 1),
            None => None,
        }
    }
}

/// `first_of` is the position before which `c` does not occur.
pub proof fn lemma_first_of(s: Seq<char>, c: char, i: int)
    requires
        0 <= i <= s.len(),
        forall|k: int| 0 <= k < i ==> s[k] != c,
        i < s.len() ==> s[i] == c,
    ensures
        first_of(s, c) == (if i < s.len() { Some(i) } else { None::<int> }),
    decreases i,
{
    if i > 0 {
        lemma_first_of(s.skip(1), c, i - 1);
    }
}

/// Where `c` first occurs in `v`.
pub fn find_char(v: &[char], c: char) -> (r: Option<usize>)
    ensures
        match r {
            Some(i) => i < v.len() && first_of(v@, c) == Some(i as int),
            None => first_of(v@, c) is None,
        },
{
    let mut i: usize = 0;
    while i < v.len()
        invariant
            i <= v.len(),
            forall|k: int| 0 <= k < i ==> v@[k] != c,
        decreases v.len() - i,
    {
        if v[i] == c {
            proof {
                lemma_first_of(v@, c, i as int);
            }
            return Some(i);
        }
        i += 1;
    }
    proof {
        lemma_first_of(v@, c, i as int);
    }
    None
}

/// `str::splitn(n, sep)`: at most `n` pieces, the last holding the rest,
/// separators and all.
pub open spec fn fields(s: Seq<char>, n: nat, sep: char) -> Seq<Seq<char>>
    decreases n,
{
    if n <= 1 {
        seq![s]
    } else {
        match first_of(s, sep) {
            None => seq![s],
            Some(i) => seq![s.take(i)] + fields(s.skip(i + 1), (n - 1) as nat, sep),
        }
    }
}

/// The pieces of `v` as `str::splitn(n, sep)` gives them.
pub fn fields_of(v: &[char], n: usize, sep: char) -> (r: Vec<Vec<char>>)
    ensures
        views(r@) == fields(v@, n as nat, sep),
    decreases n,
{
    if n <= 1 {
        let mut r: Vec<Vec<char>> = Vec::new();
        r.push(copy(v));
        assert(views(r@) =~= seq![v@]);
        return r;
    }
    match find_char(v, sep) {
        None => {
            let mut r: Vec<Vec<char>> = Vec::new();
            r.push(copy(v));
            assert(views(r@) =~= seq![v@]);
            r
        },
        Some(i) => {
            let head = slice(v, 0, i);
            let rest = slice(v, i + 1, v.len());
            let mut tail = fields_of(&rest, n - 1, sep);
            let mut r: Vec<Vec<char>> = Vec::new();
            r.push(head);
            let ghost h = r@;
            r.append(&mut tail);
            assert(v@.subrange(0, i as int) == v@.take(i as int));
            assert(rest@ == v@.skip(i + 1));
            assert(views(r@) =~= seq![v@.take(i as int)] + fields(v@.skip(i + 1), (n - 1) as nat, sep));
            r
        },
    }
}

/// A run of ASCII digits, at least one.
pub open spec fn is_digits(s: Seq<char>) -> bool {
    s.len() > 0 && forall|i: int| 0 <= i < s.len() ==> is_digit(#[trigger] s[i])
}

/// The number ASCII digits write in decimal.
pub open spec fn value(s: Seq<char>) -> nat
    decreases s.len(),
{
    if s.len() == 0 {
        0
    } else {
        (value(s.drop_last()) * 10 + ((s.last() as int) - 48)) as nat
    }
}

/// What `str::parse::<u64>` gives: digits, after an optional `+`, whose
/// number fits.
pub open spec fn parsed_u64(s: Seq<char>) -> Option<u64> {
    let d = if s.len() > 0 && s[0] == '+' {
        s.skip(1)
    } else {
        s
    };
    if is_digits(d) && value(d) <= u64::MAX {
        Some(value(d) as u64)
    } else {
        None
    }
}

/// A longer run of digits writes no smaller a number.
pub proof fn lemma_value_grows(s: Seq<char>, j: int)
    requires
        0 <= j <= s.len(),
        forall|i: int| 0 <= i < s.len() ==> is_digit(#[trigger] s[i]),
    ensures
        value(s.take(j)) <= value(s),
    decreases s.len() - j,
{
    if j < s.len() {
        lemma_value_grows(s, j + 1);
        assert(s.take(j + 1).drop_last() == s.take(j));
        assert(s.take(j + 1).last() == s[j]);
        assert(is_digit(s[j]));
        assert(value(s.take(j + 1)) >= value(s.take(j)));
    } else {
        assert(s.take(j) == s);
    }
}

/// `str::parse::<u64>`.
pub fn parse_u64(v: &[char]) -> (r: Option<u64>)
    ensures
        r == parsed_u64(v@),
{
    let start: usize = if v.len() > 0 && v[0] == '+' { 1 } else { 0 };
    let ghost d = if v@.len() > 0 && v@[0] == '+' { v@.skip(1) } else { v@ };
    assert(d == v@.skip(start as int));
    if start == v.len() {
        return None;
    }
    let mut acc: u64 = 0;
    let mut i: usize = start;
    while i < v.len()
        invariant
            start <= i <= v.len(),
            d == v@.skip(start as int),
            d == (if v@.len() > 0 && v@[0] == '+' { v@.skip(1) } else { v@ }),
            forall|k: int| 0 <= k < i - start ==> is_digit(#[trigger] d[k]),
            acc == value(d.take(i - start)),
        decreases v.len() - i,
    {
        let c = v[i];
        if !is_digit_char(c) {
            assert(d[i - start] == c);
            assert(!is_digit(d[i - start]));
            assert(!is_digits(d));
            return None;
        }
        assert(d.take(i - start + 1).drop_last() == d.take(i - start));
        let digit_value = (c as u32 - 48) as u64;
        let more = match acc.checked_mul(10) {
            Some(m) => m.checked_add(digit_value),
            None => None,
        };
        assert(d.take(i - start + 1).last() == c);
        assert(value(d.take(i - start + 1)) == acc * 10 + digit_value);
        match more {
            Some(m) => {
                acc = m;
            },
            None => {
                assert(acc * 10 + digit_value > u64::MAX);
                proof {
                    if is_digits(d) {
                        lemma_value_grows(d, i - start + 1);
                    }
                }
                return None;
            },
        }
        i += 1;
    }
    assert(d.take(i - start) == d);
    Some(acc)
}

/// The pieces joined with `sep` between each two.
pub open spec fn joined(s: Seq<Seq<char>>, sep: Seq<char>) -> Seq<char>
    decreases s.len(),
{
    if s.len() == 0 {
        Seq::empty()
    } else if s.len() == 1 {
        s[0]
    } else {
        joined(s.drop_last(), sep) + sep + s.last()
    }
}

pub fn join_pieces(s: &Vec<Vec<char>>, from: usize, sep: &[char]) -> (r: Vec<char>)
    requires
        from <= s.len(),
    ensures
        r@ == joined(views(s@).skip(from as int), sep@),
{
    let mut r: Vec<char> = Vec::new();
    let mut i = from;
    while i < s.len()
        invariant
            from <= i <= s.len(),
            r@ == joined(views(s@).subrange(from as int, i as int), sep@),
        decreases s.len() - i,
    {
        let ghost before = views(s@).subrange(from as int, i as int);
        assert(views(s@).subrange(from as int, i + 1).drop_last() == before);
        assert(views(s@).subrange(from as int, i + 1).last() == s@[i as int]@);
        if i > from {
            r.extend_from_slice(sep);
        }
        r.extend_from_slice(s[i].as_slice());
        i += 1;
    }
    assert(views(s@).subrange(from as int, s.len() as int) == views(s@).skip(
        from as int,
    ));
    r
}

/// The runs of non-space characters, as `str::split_whitespace` gives them.
pub open spec fn tokens(s: Seq<char>) -> Seq<Seq<char>>
    decreases s.len(),
{
    if s.len() == 0 {
        Seq::empty()
    } else {
        let t = tokens(s.drop_last());
        let c = s.last();
        if is_space(c) {
            t
        } else if s.len() > 1 && !is_space(s[s.len() - 2]) {
            t.update(t.len() - 1, t.last().push(c))
        } else {
            t.push(seq![c])
        }
    }
}

/// `str::split_whitespace`.
pub fn tokens_of(s: &str) -> (r: Vec<String>)
    ensures
        texts(r@) == tokens(s@),
{
    let v = chars(s);
    let mut done: Vec<Vec<char>> = Vec::new();
    let mut current: Vec<char> = Vec::new();
    let mut in_token = false;
    let mut i: usize = 0;
    while i < v.len()
        invariant
            i <= v.len(),
            v@ == s@,
            in_token == (i > 0 && !is_space(v@[i - 1])),
            tokens(v@.take(i as int)) == (if in_token {
                views(done@).push(current@)
            } else {
                views(done@)
            }),
        decreases v.len() - i,
    {
        let c = v[i];
        assert(v@.take(i + 1).drop_last() == v@.take(i as int));
        assert(v@.take(i + 1).last() == c);
        let ghost d0 = views(done@);
        if is_space_char(c) {
            if in_token {
                done.push(current);
                current = Vec::new();
                assert(views(done@) == d0.push(tokens(v@.take(i as int)).last()));
            }
            in_token = false;
        } else if in_token {
            assert(v@.take(i + 1)[i - 1] == v@[i - 1]);
            current.push(c);
        } else {
            current = Vec::new();
            current.push(c);
            assert(current@ =~= seq![c]);
            in_token = true;
        }
        i += 1;
    }
    if in_token {
        let ghost d0 = views(done@);
        done.push(current);
        assert(views(done@) == d0.push(current@));
    }
    assert(v@.take(i as int) == v@);
    let r = strings(&done);
    assert(texts(r@) =~= views(done@));
    r
}

/// The tokens of `s`, one space between each two: one line, however it
/// was typed.
pub fn squeezed(s: &str) -> (r: String)
    ensures
        r@ == joined(tokens(s@), seq![' ']),
{
    let toks = tokens_of(s);
    let mut parts: Vec<Vec<char>> = Vec::new();
    let mut i: usize = 0;
    while i < toks.len()
        invariant
            i <= toks.len(),
            views(parts@) == texts(toks@).take(i as int),
        decreases toks.len() - i,
    {
        let ghost p0 = views(parts@);
        let piece = chars(toks[i].as_str());
        let ghost pv = piece@;
        parts.push(piece);
        assert(views(parts@) =~= p0.push(pv));
        assert(texts(toks@).take(i + 1) =~= texts(toks@).take(i as int).push(toks@[i as int]@));
        i += 1;
    }
    assert(texts(toks@).take(i as int) == texts(toks@));
    let space = [' '];
    assert(space@ =~= seq![' ']);
    let j = join_pieces(&parts, 0, &space);
    assert(views(parts@).skip(0) == views(parts@));
    string(&j)
}

/// `s` split at every `sep`: the pieces between them, empty ones included.
pub open spec fn split(s: Seq<char>, sep: char) -> Seq<Seq<char>>
    decreases s.len(),
{
    if s.len() == 0 {
        seq![Seq::empty()]
    } else if s.last() == sep {
        split(s.drop_last(), sep).push(Seq::empty())
    } else {
        let p = split(s.drop_last(), sep);
        p.update(p.len() - 1, p.last().push(s.last()))
    }
}

pub proof fn lemma_split_len(s: Seq<char>, sep: char)
    ensures
        split(s, sep).len() >= 1,
    decreases s.len(),
{
    if s.len() > 0 {
        lemma_split_len(s.drop_last(), sep);
    }
}

/// A line as `str::lines` yields it: a `\r` that ended it is not part of it.
pub open spec fn strip_cr(l: Seq<char>) -> Seq<char> {
    if l.len() > 0 && l.last() == '\r' {
        l.drop_last()
    } else {
        l
    }
}

/// `str::lines`: the pieces between newlines, each terminated one without a
/// trailing `\r`, and an empty last piece left out.
pub open spec fn lines(s: Seq<char>) -> Seq<Seq<char>> {
    let p = split(s, '\n');
    let ended = p.drop_last().map_values(|l: Seq<char>| strip_cr(l));
    if p.last().len() == 0 {
        ended
    } else {
        ended.push(p.last())
    }
}

/// The contents of each of these vectors.
pub open spec fn views(v: Seq<Vec<char>>) -> Seq<Seq<char>> {
    v.map_values(|x: Vec<char>| x@)
}

/// The pieces of `v` between every `sep`.
pub fn split_chars(v: &[char], sep: char) -> (r: Vec<Vec<char>>)
    ensures
        views(r@) == split(v@, sep),
{
    let mut done: Vec<Vec<char>> = Vec::new();
    let mut current: Vec<char> = Vec::new();
    let mut i: usize = 0;
    while i < v.len()
        invariant
            i <= v.len(),
            split(v@.take(i as int), sep) == views(done@).push(current@),
        decreases v.len() - i,
    {
        let c = v[i];
        let ghost d0 = views(done@);
        let ghost c0 = current@;
        assert(v@.take(i + 1).drop_last() == v@.take(i as int));
        assert(v@.take(i + 1).last() == c);
        if c == sep {
            done.push(current);
            current = Vec::new();
            assert(views(done@) == d0.push(c0));
        } else {
            current.push(c);
            assert(d0.push(c0).update(d0.len() as int, c0.push(c)) == d0.push(current@));
        }
        i += 1;
        assert(split(v@.take(i as int), sep) == views(done@).push(current@));
    }
    assert(v@.take(v.len() as int) == v@);
    let ghost d0 = views(done@);
    done.push(current);
    assert(views(done@) == d0.push(current@));
    done
}

pub fn strip_cr_chars(l: Vec<char>) -> (r: Vec<char>)
    ensures
        r@ == strip_cr(l@),
{
    let mut l = l;
    if l.len() > 0 && l[l.len() - 1] == '\r' {
        l.pop();
    }
    l
}

/// `str::lines`.
pub fn lines_of(s: &str) -> (r: Vec<Vec<char>>)
    ensures
        views(r@) == lines(s@),
{
    let v = chars(s);
    let pieces = split_chars(&v, '\n');
    proof {
        lemma_split_len(v@, '\n');
    }
    let n = pieces.len();
    let mut r: Vec<Vec<char>> = Vec::new();
    let mut i: usize = 0;
    while i + 1 < n
        invariant
            n == pieces.len(),
            n >= 1,
            i + 1 <= n,
            views(pieces@) == split(s@, '\n'),
            views(r@) == views(pieces@).take(i as int).map_values(|l: Seq<char>| strip_cr(l)),
        decreases n - i,
    {
        let ghost r0 = views(r@);
        let l = strip_cr_chars(pieces[i].clone());
        r.push(l);
        i += 1;
        assert(views(r@) == r0.push(l@));
        assert(views(pieces@).take(i as int) == views(pieces@).take(i - 1).push(views(pieces@)[i - 1]));
        assert(views(r@) == views(pieces@).take(i as int).map_values(|l: Seq<char>| strip_cr(l)));
    }
    assert(views(pieces@).take(i as int) == views(pieces@).drop_last());
    if pieces[n - 1].len() > 0 {
        let ghost r0 = views(r@);
        r.push(pieces[n - 1].clone());
        assert(views(r@) == r0.push(pieces[n - 1]@));
    }
    r
}

/// A digit's character.
pub open spec fn digit(n: nat) -> char
    recommends
        n < 10,
{
    ((n as u32) + 48) as char
}

/// `n` in decimal, as `to_string` writes it.
pub open spec fn decimal(n: nat) -> Seq<char>
    decreases n,
{
    if n < 10 {
        seq![digit(n)]
    } else {
        decimal(n / 10).push(digit(n % 10))
    }
}

/// Append `n` in decimal.
pub fn push_decimal(s: &mut String, n: u64)
    ensures
        final(s)@ == old(s)@ + decimal(n as nat),
    decreases n,
{
    if n >= 10 {
        push_decimal(s, n / 10);
    }
    let d: u8 = (n % 10) as u8;
    let c = (d + 48) as char;
    assert(c == digit((n % 10) as nat));
    push_char(s, c);
}

/// `n` in decimal.
pub fn decimal_string(n: u64) -> (s: String)
    ensures
        s@ == decimal(n as nat),
{
    let mut s = String::new();
    push_decimal(&mut s, n);
    s
}

/// The strings of these characters.
pub fn strings(v: &Vec<Vec<char>>) -> (r: Vec<String>)
    ensures
        r.len() == v.len(),
        forall|i: int| 0 <= i < v.len() ==> #[trigger] r[i]@ == v[i]@,
{
    let mut r: Vec<String> = Vec::new();
    let mut i: usize = 0;
    while i < v.len()
        invariant
            i <= v.len(),
            r.len() == i,
            forall|j: int| 0 <= j < i ==> #[trigger] r[j]@ == v[j]@,
        decreases v.len() - i,
    {
        r.push(string(&v[i]));
        i += 1;
    }
    r
}

} // verus!

verus! {

/// The words of `s` joined by single spaces, as `argv.join(" ")` does.
pub open spec fn words(s: Seq<Seq<char>>) -> Seq<char>
    decreases s.len(),
{
    if s.len() == 0 {
        Seq::empty()
    } else if s.len() == 1 {
        s[0]
    } else {
        words(s.drop_last()) + seq![' '] + s.last()
    }
}

/// The text of each of these string slices.
pub open spec fn strs(s: Seq<&str>) -> Seq<Seq<char>> {
    s.map_values(|x: &str| x@)
}

/// `argv.join(" ")`.
pub fn join_words(argv: &[&str]) -> (r: String)
    ensures
        r@ == words(strs(argv@)),
{
    let mut r = String::new();
    let mut i: usize = 0;
    while i < argv.len()
        invariant
            i <= argv.len(),
            r@ == words(strs(argv@).take(i as int)),
        decreases argv.len() - i,
    {
        assert(strs(argv@).take(i + 1).drop_last() == strs(argv@).take(i as int));
        if i > 0 {
            push_char(&mut r, ' ');
        }
        push_str(&mut r, argv[i]);
        i += 1;
    }
    assert(strs(argv@).take(argv.len() as int) == strs(argv@));
    r
}

/// A copy of these strings.
pub fn copy_strings(v: &[String]) -> (r: Vec<String>)
    ensures
        r@ == v@,
{
    let mut r: Vec<String> = Vec::new();
    let mut i: usize = 0;
    while i < v.len()
        invariant
            i <= v.len(),
            r@ == v@.take(i as int),
        decreases v.len() - i,
    {
        r.push(v[i].clone());
        i += 1;
        assert(r@ == v@.take(i as int));
    }
    assert(v@.take(v.len() as int) == v@);
    r
}

} // verus!

verus! {

pub proof fn lemma_push_contains<A>(s: Seq<A>, e: A, x: A)
    ensures
        s.push(e).contains(x) <==> (s.contains(x) || x == e),
{
    if s.push(e).contains(x) {
        let k = choose|k: int| 0 <= k < s.push(e).len() && s.push(e)[k] == x;
        if k < s.len() {
            assert(s[k] == x);
        }
    }
    if s.contains(x) {
        let k = choose|k: int| 0 <= k < s.len() && s[k] == x;
        assert(s.push(e)[k] == x);
    }
    if x == e {
        assert(s.push(e)[s.len() as int] == x);
    }
}

} // verus!
