//! Turning what the developer says into a name they will recognise later:
//! `VBSN-1 initialize the project` becomes `ada/VBSN-1-initialize-the-project`.

use vstd::prelude::*;
use crate::path;
use crate::text::{self, is_alnum, is_digit, is_space, is_upper, lower, starts_with, trim, trim_char};

verus! {

/// tmux forbids `.` and `:` in session names; each becomes `-`.
pub open spec fn sanitized(s: Seq<char>) -> Seq<char> {
    s.map_values(|c: char| if c == '.' || c == ':' { '-' } else { c })
}

/// The slug before its ends are trimmed: each alphanumeric lowercased, every
/// run of anything else one hyphen.
pub open spec fn slug_run(s: Seq<char>) -> Seq<char>
    decreases s.len(),
{
    if s.len() == 0 {
        Seq::empty()
    } else {
        let p = slug_run(s.drop_last());
        let c = s.last();
        if is_alnum(c) {
            p.push(lower(c))
        } else if p.len() > 0 && p.last() == '-' {
            p
        } else {
            p.push('-')
        }
    }
}

/// Lowercase, alphanumerics and hyphens, runs of hyphens collapsed, none at
/// either end.
pub open spec fn slug(s: Seq<char>) -> Seq<char> {
    trim_char(slug_run(s), '-')
}

/// Ticket-shaped: uppercase letters, a hyphen, digits.
pub open spec fn is_ticket(t: Seq<char>) -> bool {
    exists|i: int|
        #![trigger t[i]]
        0 < i < t.len() - 1 && t[i] == '-' && (forall|j: int| 0 <= j < i ==> is_upper(#[trigger] t[j]))
            && (forall|j: int| i < j < t.len() ==> is_digit(#[trigger] t[j]))
}

/// Where the first white space in `s` is.
pub open spec fn first_space(s: Seq<char>, i: int) -> bool {
    0 <= i < s.len() && is_space(s[i]) && forall|j: int| 0 <= j < i ==> !is_space(#[trigger] s[j])
}

/// A leading ticket and the rest, or no ticket and the whole line.
pub open spec fn split_ticket(s: Seq<char>) -> (Option<Seq<char>>, Seq<char>) {
    if exists|i: int| first_space(s, i) {
        let i = choose|i: int| first_space(s, i);
        if is_ticket(s.take(i)) {
            (Some(s.take(i)), s.skip(i + 1))
        } else {
            (None, s)
        }
    } else if is_ticket(s) {
        (Some(s), Seq::empty())
    } else {
        (None, s)
    }
}

/// Where the last hyphen in `s` is.
pub open spec fn last_hyphen(s: Seq<char>, i: int) -> bool {
    0 <= i < s.len() && s[i] == '-' && forall|j: int| i < j < s.len() ==> #[trigger] s[j] != '-'
}

/// At most `limit` characters, cut back to the last whole word when cut.
pub open spec fn truncated(s: Seq<char>, limit: nat) -> Seq<char> {
    if s.len() <= limit {
        s
    } else {
        let cut = s.take(limit as int);
        if exists|i: int| last_hyphen(cut, i) {
            cut.take(choose|i: int| last_hyphen(cut, i))
        } else {
            cut
        }
    }
}

/// `username/`.
pub open spec fn prefix(username: Seq<char>) -> Seq<char> {
    username.push('/')
}

/// The name for work that already has a branch.
pub open spec fn named_from_branch(username: Seq<char>, branch: Seq<char>) -> Seq<char> {
    if username.len() == 0 || starts_with(branch, prefix(username)) {
        sanitized(branch)
    } else {
        sanitized(prefix(username) + branch)
    }
}

/// The name suggested from one line of prompt input.
pub open spec fn suggested(username: Seq<char>, said: Seq<char>) -> Seq<char> {
    let (ticket, description) = split_ticket(trim(said));
    let s = truncated(slug(description), 50);
    let branch = match ticket {
        Some(t) => if s.len() == 0 {
            t
        } else {
            t + seq!['-'] + s
        },
        None => s,
    };
    if branch.len() == 0 {
        sanitized(username)
    } else {
        named_from_branch(username, branch)
    }
}

/// The branch with the `username/` prefix taken off, when it has it.
pub open spec fn unprefixed(username: Seq<char>, branch: Seq<char>) -> Seq<char> {
    if username.len() > 0 && starts_with(branch, prefix(username)) {
        branch.skip(username.len() as int + 1)
    } else {
        branch
    }
}

/// Every `/` as `-`.
pub open spec fn hyphenated(s: Seq<char>) -> Seq<char> {
    s.map_values(|c: char| if c == '/' { '-' } else { c })
}

/// The sibling directory a worktree for `branch` lands in.
pub open spec fn worktree_path(main: Seq<char>, username: Seq<char>, branch: Seq<char>) -> Seq<char> {
    path::with_file_name(
        main,
        path::base_name(main) + seq!['-'] + hyphenated(unprefixed(username, branch)),
    )
}

/// No character that tmux refuses in a session name.
pub open spec fn tmux_clean(s: Seq<char>) -> bool {
    forall|i: int| 0 <= i < s.len() ==> #[trigger] s[i] != '.' && s[i] != ':'
}

/// A sanitised name holds neither `.` nor `:`, and sanitising it again
/// changes nothing.
pub proof fn lemma_sanitized_clean(s: Seq<char>)
    ensures
        tmux_clean(sanitized(s)),
        sanitized(sanitized(s)) == sanitized(s),
{
    assert(sanitized(sanitized(s)) =~= sanitized(s));
}

proof fn lemma_sanitized_prefix(p: Seq<char>, s: Seq<char>)
    requires
        tmux_clean(p),
    ensures
        sanitized(p + s) == p + sanitized(s),
{
    assert(sanitized(p + s) =~= p + sanitized(s));
}

proof fn lemma_sanitized_keeps_clean_prefix(p: Seq<char>, s: Seq<char>)
    requires
        tmux_clean(p),
        starts_with(s, p),
    ensures
        starts_with(sanitized(s), p),
{
    assert(sanitized(s).take(p.len() as int) =~= p);
}

/// A name made from a branch carries the `username/` prefix once: making a
/// name from it again gives it back unchanged, for every username that holds
/// no character tmux refuses.
pub proof fn lemma_from_branch_prefixed_once(username: Seq<char>, branch: Seq<char>)
    requires
        tmux_clean(username),
    ensures
        named_from_branch(username, named_from_branch(username, branch)) == named_from_branch(
            username,
            branch,
        ),
        username.len() > 0 ==> starts_with(named_from_branch(username, branch), prefix(username)),
        tmux_clean(named_from_branch(username, branch)),
{
    let p = prefix(username);
    assert(tmux_clean(p)) by {
        assert forall|i: int| 0 <= i < p.len() implies #[trigger] p[i] != '.' && p[i] != ':' by {
            if i < username.len() {
                assert(p[i] == username[i]);
            }
        }
    }
    let n = named_from_branch(username, branch);
    if username.len() == 0 || starts_with(branch, p) {
        lemma_sanitized_clean(branch);
        if username.len() > 0 {
            lemma_sanitized_keeps_clean_prefix(p, branch);
        }
    } else {
        lemma_sanitized_prefix(p, branch);
        lemma_sanitized_clean(p + branch);
        assert((p + sanitized(branch)).take(p.len() as int) =~= p);
    }
}

/// No `/` anywhere in `s`.
pub open spec fn slashless(s: Seq<char>) -> bool {
    forall|i: int| 0 <= i < s.len() ==> #[trigger] s[i] != '/'
}

proof fn lemma_last_slash_append(a: Seq<char>, n: Seq<char>)
    requires
        slashless(n),
    ensures
        path::last_slash(a + n) == path::last_slash(a),
    decreases n.len(),
{
    if n.len() == 0 {
        assert(a + n =~= a);
    } else {
        assert((a + n).drop_last() =~= a + n.drop_last());
        assert((a + n).last() == n.last());
        lemma_last_slash_append(a, n.drop_last());
    }
}

proof fn lemma_last_slash_after(p: Seq<char>, j: int)
    requires
        0 <= j < p.len(),
        match path::last_slash(p) {
            Some(i) => i < j,
            None => true,
        },
    ensures
        p[j] != '/',
    decreases p.len(),
{
    if p.last() != '/' && j < p.len() - 1 {
        assert(p.drop_last()[j] == p[j]);
        lemma_last_slash_after(p.drop_last(), j);
    }
}

proof fn lemma_tail_slashless(p: Seq<char>)
    ensures
        slashless(path::tail(p)),
{
    assert forall|k: int| 0 <= k < path::tail(p).len() implies #[trigger] path::tail(p)[k] != '/' by {
        match path::last_slash(p) {
            Some(i) => {
                lemma_last_slash_bound(p);
                lemma_last_slash_after(p, i + 1 + k);
            },
            None => {
                lemma_last_slash_after(p, k);
            },
        }
    }
}

proof fn lemma_last_slash_bound(p: Seq<char>)
    ensures
        match path::last_slash(p) {
            Some(i) => 0 <= i < p.len() && p[i] == '/',
            None => true,
        },
    decreases p.len(),
{
    if p.len() > 0 && p.last() != '/' {
        lemma_last_slash_bound(p.drop_last());
    }
}

/// A worktree lands beside the main checkout: its directory is in the one
/// the main checkout is in, whatever the branch, for every main checkout
/// that names a directory, written without a trailing `/`, whose parent is
/// written without one either.
pub proof fn lemma_worktree_is_a_sibling(main: Seq<char>, username: Seq<char>, branch: Seq<char>)
    requires
        path::unslashed(main) == main,
        path::file_name(main) is Some,
        path::parent(main) is Some,
        path::parent(main)->Some_0 == seq!['/'] || path::parent(main)->Some_0.len() == 0
            || path::parent(main)->Some_0.last() != '/',
    ensures
        path::parent(worktree_path(main, username, branch)) == path::parent(main),
{
    let up = path::parent(main)->Some_0;
    let name = path::base_name(main) + seq!['-'] + hyphenated(unprefixed(username, branch));
    lemma_tail_slashless(main);
    assert(slashless(name)) by {
        assert forall|k: int| 0 <= k < name.len() implies #[trigger] name[k] != '/' by {
            if k < path::base_name(main).len() {
                assert(name[k] == path::tail(main)[k]);
            }
        }
    }
    assert(name.len() > 0);
    assert(path::with_file_name(main, name) == path::join(up, name));
    if up.len() == 0 {
        assert(path::join(up, name) =~= name);
        lemma_last_slash_append(Seq::empty(), name);
        assert(Seq::<char>::empty() + name =~= name);
    } else if up.last() == '/' {
        assert(up == seq!['/']);
        assert(path::join(up, name) == up + name);
        lemma_last_slash_append(up, name);
        assert(path::last_slash(up) == Some(0int));
    } else {
        let p = up + seq!['/'] + name;
        assert(path::join(up, name) == p);
        lemma_last_slash_append(up + seq!['/'], name);
        assert((up + seq!['/']).last() == '/');
        assert(p.take(up.len() as int) =~= up);
    }
}

fn sanitize_chars(v: &[char]) -> (r: Vec<char>)
    ensures
        r@ == sanitized(v@),
{
    let mut r: Vec<char> = Vec::new();
    let mut i: usize = 0;
    while i < v.len()
        invariant
            i <= v.len(),
            r@ == sanitized(v@.take(i as int)),
        decreases v.len() - i,
    {
        let c = v[i];
        r.push(if c == '.' || c == ':' { '-' } else { c });
        i += 1;
        assert(r@ == sanitized(v@.take(i as int)));
    }
    assert(v@.take(v.len() as int) == v@);
    r
}

/// tmux forbids `.` and `:` in session names. Slashes it permits, and they
/// carry the `username/` convention, so they stay.
pub fn sanitize(name: &str) -> (r: String)
    ensures
        r@ == sanitized(name@),
{
    let v = text::chars(name);
    text::string(&sanitize_chars(&v))
}

fn slug_chars(v: &[char]) -> (r: Vec<char>)
    ensures
        r@ == slug(v@),
{
    let mut s: Vec<char> = Vec::new();
    let mut i: usize = 0;
    while i < v.len()
        invariant
            i <= v.len(),
            s@ == slug_run(v@.take(i as int)),
        decreases v.len() - i,
    {
        let c = v[i];
        assert(v@.take(i + 1).drop_last() == v@.take(i as int));
        if text::is_alnum_char(c) {
            s.push(text::to_lower(c));
        } else if !(s.len() > 0 && s[s.len() - 1] == '-') {
            s.push('-');
        }
        i += 1;
    }
    assert(v@.take(v.len() as int) == v@);
    text::trimmed_char(&s, '-')
}

/// Lowercase, alphanumerics and hyphens, runs of hyphens collapsed.
pub fn slugify(words: &str) -> (r: String)
    ensures
        r@ == slug(words@),
{
    let v = text::chars(words);
    text::string(&slug_chars(&v))
}

/// Ticket-shaped: uppercase letters, a hyphen, digits.
fn ticket(t: &[char]) -> (r: bool)
    ensures
        r == is_ticket(t@),
{
    let mut i: usize = 0;
    while i < t.len() && text::is_upper_char(t[i])
        invariant
            i <= t.len(),
            forall|j: int| 0 <= j < i ==> is_upper(#[trigger] t@[j]),
        decreases t.len() - i,
    {
        i += 1;
    }
    if i == 0 || i >= t.len() || t.len() - i < 2 || t[i] != '-' {
        proof {
            if is_ticket(t@) {
                let k = choose|k: int|
                    #![trigger t@[k]]
                    0 < k < t@.len() - 1 && t@[k] == '-' && (forall|j: int|
                        0 <= j < k ==> is_upper(#[trigger] t@[j])) && (forall|j: int|
                        k < j < t@.len() ==> is_digit(#[trigger] t@[j]));
                if k < i {
                    assert(is_upper(t@[k]));
                } else if k > i {
                    assert(is_upper(t@[i as int]));
                }
            }
        }
        return false;
    }
    let mut j: usize = i + 1;
    while j < t.len()
        invariant
            i + 1 <= j <= t.len(),
            0 < i < t.len(),
            t@[i as int] == '-',
            forall|k: int| 0 <= k < i ==> is_upper(#[trigger] t@[k]),
            forall|k: int| i < k < j ==> is_digit(#[trigger] t@[k]),
        decreases t.len() - j,
    {
        if !text::is_digit_char(t[j]) {
            proof {
                if is_ticket(t@) {
                    let k = choose|k: int|
                        #![trigger t@[k]]
                        0 < k < t@.len() - 1 && t@[k] == '-' && (forall|m: int|
                            0 <= m < k ==> is_upper(#[trigger] t@[m])) && (forall|m: int|
                            k < m < t@.len() ==> is_digit(#[trigger] t@[m]));
                    if k < i {
                        assert(is_upper(t@[k]));
                    } else if k > i {
                        assert(is_upper(t@[i as int]));
                    }
                    assert(k == i);
                    assert(k < j);
                    assert(is_digit(t@[j as int]));
                }
            }
            return false;
        }
        j += 1;
    }
    assert(t@[i as int] == '-');
    true
}

/// A ticket leads the line or there is no ticket: `VBSN-1 fix the parser`
/// splits, `fix VBSN-1 later` is all description.
fn split_ticket_chars(s: &[char]) -> (r: (Option<Vec<char>>, Vec<char>))
    ensures
        (match r.0 {
            Some(t) => Some(t@),
            None => None,
        }, r.1@) == split_ticket(s@),
{
    let mut i: usize = 0;
    while i < s.len() && !text::is_space_char(s[i])
        invariant
            i <= s.len(),
            forall|j: int| 0 <= j < i ==> !is_space(#[trigger] s@[j]),
        decreases s.len() - i,
    {
        i += 1;
    }
    if i < s.len() {
        assert(first_space(s@, i as int));
        proof {
            let k = choose|k: int| first_space(s@, k);
            if k < i {
                assert(is_space(s@[k]));
            } else if k > i {
                assert(!is_space(s@[i as int]));
            }
        }
        let first = text::slice(s, 0, i);
        assert(first@ == s@.take(i as int));
        if ticket(&first) {
            let rest = text::slice(s, i + 1, s.len());
            assert(rest@ == s@.skip(i + 1));
            (Some(first), rest)
        } else {
            (None, text::copy(s))
        }
    } else {
        assert(!exists|k: int| first_space(s@, k));
        if ticket(s) {
            (Some(text::copy(s)), Vec::new())
        } else {
            (None, text::copy(s))
        }
    }
}

/// Roughly `limit` characters, cut back to the last whole word rather than
/// leaving half of one.
fn truncate_chars(s: &[char], limit: usize) -> (r: Vec<char>)
    ensures
        r@ == truncated(s@, limit as nat),
{
    if s.len() <= limit {
        return text::copy(s);
    }
    let cut = text::slice(s, 0, limit);
    assert(cut@ == s@.take(limit as int));
    let mut i = cut.len();
    while i > 0 && cut[i - 1] != '-'
        invariant
            i <= cut.len(),
            forall|j: int| i <= j < cut.len() ==> #[trigger] cut@[j] != '-',
        decreases i,
    {
        i -= 1;
    }
    if i > 0 {
        assert(last_hyphen(cut@, i - 1));
        proof {
            let k = choose|k: int| last_hyphen(cut@, k);
            if k < i - 1 {
                assert(cut@[i - 1] != '-');
            } else if k > i - 1 {
                assert(cut@[k] != '-');
            }
        }
        let whole = text::slice(&cut, 0, i - 1);
        assert(whole@ == cut@.take(i - 1));
        whole
    } else {
        assert(!exists|k: int| last_hyphen(cut@, k));
        cut
    }
}

fn prefix_chars(username: &[char]) -> (r: Vec<char>)
    ensures
        r@ == prefix(username@),
{
    let mut p = text::copy(username);
    p.push('/');
    p
}

fn from_branch_chars(username: &[char], branch: &[char]) -> (r: Vec<char>)
    ensures
        r@ == named_from_branch(username@, branch@),
{
    let p = prefix_chars(username);
    if username.len() == 0 || text::has_prefix(branch, &p) {
        sanitize_chars(branch)
    } else {
        let mut whole = p.clone();
        let mut rest = text::copy(branch);
        whole.append(&mut rest);
        sanitize_chars(&whole)
    }
}

/// The name for work that already has a branch: `username/<branch>`, without a
/// second prefix when the branch already carries one — branches this tool cuts
/// are `ada/VBSN-1-init` already.
pub fn from_branch(username: &str, branch: &str) -> (r: String)
    ensures
        r@ == named_from_branch(username@, branch@),
{
    let u = text::chars(username);
    let b = text::chars(branch);
    text::string(&from_branch_chars(&u, &b))
}

/// The name suggested from a single line of prompt input. A leading
/// ticket-shaped token is kept as it was typed; everything after it — or the
/// whole line, when there is no ticket — becomes the slug.
pub fn suggest(username: &str, said: &str) -> (r: String)
    ensures
        r@ == suggested(username@, said@),
{
    let u = text::chars(username);
    let line = text::trimmed(&text::chars(said));
    let (ticket, description) = split_ticket_chars(&line);
    let s = truncate_chars(&slug_chars(&description), 50);
    let ghost spec_ticket = match &ticket {
        Some(t) => Some(t@),
        None => None,
    };
    assert((spec_ticket, description@) == split_ticket(trim(said@)));
    let branch = match ticket {
        Some(t) => if s.len() == 0 {
            t
        } else {
            let mut b = t.clone();
            b.push('-');
            let mut rest = s.clone();
            b.append(&mut rest);
            assert(b@ == t@ + seq!['-'] + s@);
            b
        },
        None => s,
    };
    assert(branch@ == (match spec_ticket {
        Some(t) => if s@.len() == 0 {
            t
        } else {
            t + seq!['-'] + s@
        },
        None => s@,
    }));
    if branch.len() == 0 {
        text::string(&sanitize_chars(&u))
    } else {
        text::string(&from_branch_chars(&u, &branch))
    }
}

fn hyphenate_chars(v: &[char]) -> (r: Vec<char>)
    ensures
        r@ == hyphenated(v@),
{
    let mut r: Vec<char> = Vec::new();
    let mut i: usize = 0;
    while i < v.len()
        invariant
            i <= v.len(),
            r@ == hyphenated(v@.take(i as int)),
        decreases v.len() - i,
    {
        let c = v[i];
        r.push(if c == '/' { '-' } else { c });
        i += 1;
        assert(r@ == hyphenated(v@.take(i as int)));
    }
    assert(v@.take(v.len() as int) == v@);
    r
}

/// Where a worktree for `branch` lands: a sibling of the main checkout, named
/// for it and the branch with the `username/` prefix stripped and any
/// remaining slashes hyphenated — `vibestation` and `ada/VBSN-1-init` give
/// `vibestation-VBSN-1-init`.
pub fn worktree_dir(main: &str, username: &str, branch: &str) -> (r: String)
    ensures
        r@ == worktree_path(main@, username@, branch@),
{
    let u = text::chars(username);
    let b = text::chars(branch);
    let p = prefix_chars(&u);
    let stripped = if u.len() > 0 && text::has_prefix(&b, &p) {
        assert(p@.len() == u@.len() + 1);
        assert(starts_with(b@, p@));
        assert(p@.len() <= b@.len());
        text::slice(&b, p.len(), b.len())
    } else {
        b.clone()
    };
    let mut name = path::base_name_of(main);
    text::push_char(&mut name, '-');
    let tail = text::string(&hyphenate_chars(&stripped));
    text::push_str(&mut name, tail.as_str());
    path::with_file_name_of(main, name.as_str())
}

/// No character a path or tmux gives a meaning to: `/`, `.`, `:`.
pub open spec fn plain(s: Seq<char>) -> bool {
    forall|i: int| 0 <= i < s.len() ==> #[trigger] s[i] != '/' && s[i] != '.' && s[i] != ':'
}

proof fn lemma_slug_run_plain(s: Seq<char>)
    ensures
        plain(slug_run(s)),
    decreases s.len(),
{
    if s.len() > 0 {
        lemma_slug_run_plain(s.drop_last());
        let p = slug_run(s.drop_last());
        let c = s.last();
        if is_alnum(c) {
            let l = lower(c);
            if is_upper(c) {
                assert(l as u32 == (c as u32) + 32);
            }
            assert(l != '/' && l != '.' && l != ':');
            assert forall|i: int| 0 <= i < p.push(l).len() implies #[trigger] p.push(l)[i] != '/'
                && p.push(l)[i] != '.' && p.push(l)[i] != ':' by {
                if i < p.len() {
                    assert(p.push(l)[i] == p[i]);
                }
            }
        } else if !(p.len() > 0 && p.last() == '-') {
            assert forall|i: int| 0 <= i < p.push('-').len() implies #[trigger] p.push('-')[i] != '/'
                && p.push('-')[i] != '.' && p.push('-')[i] != ':' by {
                if i < p.len() {
                    assert(p.push('-')[i] == p[i]);
                }
            }
        }
    }
}

proof fn lemma_trim_start_char_plain(s: Seq<char>, c: char)
    requires
        plain(s),
    ensures
        plain(text::trim_start_char(s, c)),
    decreases s.len(),
{
    if s.len() > 0 && s[0] == c {
        assert forall|i: int| 0 <= i < s.drop_first().len() implies #[trigger] s.drop_first()[i] != '/'
            && s.drop_first()[i] != '.' && s.drop_first()[i] != ':' by {
            assert(s.drop_first()[i] == s[i + 1]);
        }
        lemma_trim_start_char_plain(s.drop_first(), c);
    }
}

proof fn lemma_trim_end_char_plain(s: Seq<char>, c: char)
    requires
        plain(s),
    ensures
        plain(text::trim_end_char(s, c)),
    decreases s.len(),
{
    if s.len() > 0 && s.last() == c {
        assert forall|i: int| 0 <= i < s.drop_last().len() implies #[trigger] s.drop_last()[i] != '/'
            && s.drop_last()[i] != '.' && s.drop_last()[i] != ':' by {
            assert(s.drop_last()[i] == s[i]);
        }
        lemma_trim_end_char_plain(s.drop_last(), c);
    }
}

/// A slug holds no `/`, `.` or `:`.
pub proof fn lemma_slug_plain(s: Seq<char>)
    ensures
        plain(slug(s)),
{
    lemma_slug_run_plain(s);
    lemma_trim_start_char_plain(slug_run(s), '-');
    lemma_trim_end_char_plain(text::trim_start_char(slug_run(s), '-'), '-');
}

/// A line that opens with a ticket (uppercase letters, a hyphen and digits,
/// as many digits as it has) and a space keeps that ticket as it was typed
/// at the front of the name, and the description after it becomes the slug:
/// `VBSN-1234 fix login` for `ada` is `ada/VBSN-1234-fix-login`. Without a
/// username the name is the branch alone.
pub proof fn lemma_suggest_keeps_the_ticket(
    username: Seq<char>,
    letters: Seq<char>,
    digits: Seq<char>,
    description: Seq<char>,
)
    requires
        tmux_clean(username),
        letters.len() > 0,
        forall|i: int| 0 <= i < letters.len() ==> is_upper(#[trigger] letters[i]),
        digits.len() > 0,
        forall|i: int| 0 <= i < digits.len() ==> is_digit(#[trigger] digits[i]),
        description.len() > 0,
        !is_space(description.last()),
        0 < slug(description).len() <= 50,
    ensures
        suggested(username, letters + seq!['-'] + digits + seq![' '] + description) == (if username.len()
            > 0 {
            username.push('/')
        } else {
            Seq::empty()
        }) + letters + seq!['-'] + digits + seq!['-'] + slug(description),
{
    let ticket = letters + seq!['-'] + digits;
    let said = ticket + seq![' '] + description;
    let at = ticket.len() as int;
    assert(said[0] == letters[0]);
    assert(!is_space(said[0]));
    assert(text::trim_start(said) == said);
    assert(said.last() == description.last());
    assert(text::trim_end(said) == said);
    assert(trim(said) == said);
    assert forall|j: int| 0 <= j < ticket.len() implies !is_space(#[trigger] ticket[j]) by {
        if j < letters.len() {
            assert(ticket[j] == letters[j]);
        } else if j > letters.len() {
            assert(ticket[j] == digits[j - letters.len() - 1]);
        }
    }
    assert(said[at] == ' ');
    assert forall|j: int| 0 <= j < at implies !is_space(#[trigger] said[j]) by {
        assert(said[j] == ticket[j]);
    }
    assert(first_space(said, at));
    let k = choose|i: int| first_space(said, i);
    assert(first_space(said, k));
    if k < at {
        assert(said[k] == ticket[k]);
    }
    assert(k == at);
    assert(said.take(at) =~= ticket);
    assert(said.skip(at + 1) =~= description);
    let l = letters.len() as int;
    assert(ticket[l] == '-');
    assert forall|j: int| 0 <= j < l implies is_upper(#[trigger] ticket[j]) by {
        assert(ticket[j] == letters[j]);
    }
    assert forall|j: int| l < j < ticket.len() implies is_digit(#[trigger] ticket[j]) by {
        assert(ticket[j] == digits[j - l - 1]);
    }
    assert(is_ticket(ticket));
    assert(split_ticket(said) == (Some(ticket), description));
    let sl = slug(description);
    assert(truncated(sl, 50) == sl);
    let branch = ticket + seq!['-'] + sl;
    lemma_slug_plain(description);
    assert(plain(branch)) by {
        assert forall|j: int| 0 <= j < branch.len() implies #[trigger] branch[j] != '/' && branch[j] != '.'
            && branch[j] != ':' by {
            if j < l {
                assert(branch[j] == letters[j]);
            } else if j == l {
                assert(branch[j] == '-');
            } else if j < at {
                assert(branch[j] == digits[j - l - 1]);
            } else if j == at {
                assert(branch[j] == '-');
            } else {
                assert(branch[j] == sl[j - at - 1]);
            }
        }
    }
    assert(sanitized(branch) =~= branch);
    let p = prefix(username);
    if username.len() > 0 {
        if starts_with(branch, p) {
            assert(branch.take(p.len() as int)[username.len() as int] == p[username.len() as int]);
            assert(branch[username.len() as int] == '/');
        }
        assert(tmux_clean(p)) by {
            assert forall|i: int| 0 <= i < p.len() implies #[trigger] p[i] != '.' && p[i] != ':' by {
                if i < username.len() {
                    assert(p[i] == username[i]);
                }
            }
        }
        lemma_sanitized_prefix(p, branch);
        assert(p + branch =~= username.push('/') + letters + seq!['-'] + digits + seq!['-'] + sl);
    } else {
        assert(Seq::<char>::empty() + letters + seq!['-'] + digits + seq!['-'] + sl =~= branch);
    }
}

} // verus!
