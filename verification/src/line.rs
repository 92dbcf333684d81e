//! The text prompt: one line, edited with the keys a shell taught you. The
//! picker's filter is one too.
//!
//! [`apply`] holds every binding and no I/O: the loop around it only reads
//! keys and redraws.

use vstd::prelude::*;
use crate::text::{self, alphanumeric};

verus! {

/// A key, as the terminal reports it.
#[derive(Debug, Clone, Copy, PartialEq, Eq, Structural)]
pub enum Code {
    Char(char),
    Enter,
    Esc,
    Tab,
    Backspace,
    Delete,
    Left,
    Right,
    Up,
    Down,
    Home,
    End,
    PageUp,
    PageDown,
    /// Anything no list or line binds.
    Other,
}

/// A key with its modifiers, and whether it was pressed rather than released
/// or repeated.
#[derive(Debug, Clone, Copy, PartialEq, Eq, Structural)]
pub struct Key {
    pub code: Code,
    pub ctrl: bool,
    pub alt: bool,
    pub press: bool,
}

impl Key {
    /// The key pressed alone.
    pub fn plain(code: Code) -> (r: Key)
        ensures
            r == (Key { code, ctrl: false, alt: false, press: true }),
    {
        Key { code, ctrl: false, alt: false, press: true }
    }

    /// `C-c`.
    pub fn ctrl(c: char) -> (r: Key)
        ensures
            r == (Key { code: Code::Char(c), ctrl: true, alt: false, press: true }),
    {
        Key { code: Code::Char(c), ctrl: true, alt: false, press: true }
    }

    /// `M-c`.
    pub fn alt(c: char) -> (r: Key)
        ensures
            r == (Key { code: Code::Char(c), ctrl: false, alt: true, press: true }),
    {
        Key { code: Code::Char(c), ctrl: false, alt: true, press: true }
    }
}

/// The line being edited, the cursor an index into it, `0..=len`.
pub struct Line {
    pub chars: Vec<char>,
    pub cursor: usize,
}

impl Line {
    pub open spec fn wf(&self) -> bool {
        self.cursor <= self.chars.len()
    }

    /// A line holding `text`, the cursor at its end.
    pub fn new(t: &str) -> (r: Line)
        ensures
            r.wf(),
            r.chars@ == t@,
            r.cursor == t@.len(),
    {
        let chars = text::chars(t);
        let cursor = chars.len();
        Line { chars, cursor }
    }

    /// What the line holds.
    pub fn text(&self) -> (r: String)
        ensures
            r@ == self.chars@,
    {
        text::string(&self.chars)
    }
}

/// What a key did to the prompt, rather than to the line.
#[derive(Debug, Clone, Copy, PartialEq, Eq, Structural)]
pub enum Step {
    Continue,
    Submit,
    Cancel,
}

/// Past the run of characters left of `at` that are (`word`) or are not
/// alphanumeric.
pub open spec fn skip_left(s: Seq<char>, at: int, word: bool) -> int
    decreases at,
{
    if at > 0 && at <= s.len() && alphanumeric(s[at - 1]) == word {
        skip_left(s, at - 1, word)
    } else {
        at
    }
}

/// Past the run of characters right of `at` that are (`word`) or are not
/// alphanumeric.
pub open spec fn skip_right(s: Seq<char>, at: int, word: bool) -> int
    decreases s.len() - at,
{
    if 0 <= at < s.len() && alphanumeric(s[at]) == word {
        skip_right(s, at + 1, word)
    } else {
        at
    }
}

/// The start of the word left of `at`: the separators, then the word. A
/// word is a run of alphanumerics.
pub open spec fn word_start(s: Seq<char>, at: int) -> int {
    skip_left(s, skip_left(s, at, false), true)
}

/// The end of the word right of `at`, the mirror of [`word_start`].
pub open spec fn word_end(s: Seq<char>, at: int) -> int {
    skip_right(s, skip_right(s, at, false), true)
}

proof fn lemma_skip_left(s: Seq<char>, at: int, word: bool)
    requires
        0 <= at <= s.len(),
    ensures
        0 <= skip_left(s, at, word) <= at,
    decreases at,
{
    if at > 0 && alphanumeric(s[at - 1]) == word {
        lemma_skip_left(s, at - 1, word);
    }
}

proof fn lemma_skip_right(s: Seq<char>, at: int, word: bool)
    requires
        0 <= at <= s.len(),
    ensures
        at <= skip_right(s, at, word) <= s.len(),
    decreases s.len() - at,
{
    if at < s.len() && alphanumeric(s[at]) == word {
        lemma_skip_right(s, at + 1, word);
    }
}

fn skipped_left(s: &Vec<char>, at: usize, word: bool) -> (r: usize)
    requires
        at <= s.len(),
    ensures
        r == skip_left(s@, at as int, word),
        r <= at,
{
    let mut i = at;
    while i > 0 && text::is_alphanumeric_char(s[i - 1]) == word
        invariant
            i <= at <= s.len(),
            skip_left(s@, at as int, word) == skip_left(s@, i as int, word),
        decreases i,
    {
        i -= 1;
    }
    i
}

fn skipped_right(s: &Vec<char>, at: usize, word: bool) -> (r: usize)
    requires
        at <= s.len(),
    ensures
        r == skip_right(s@, at as int, word),
        at <= r <= s.len(),
{
    let mut i = at;
    while i < s.len() && text::is_alphanumeric_char(s[i]) == word
        invariant
            at <= i <= s.len(),
            skip_right(s@, at as int, word) == skip_right(s@, i as int, word),
        decreases s.len() - i,
    {
        i += 1;
    }
    i
}

/// The start of the word left of `at`.
pub fn word_left(s: &Vec<char>, at: usize) -> (r: usize)
    requires
        at <= s.len(),
    ensures
        r == word_start(s@, at as int),
        r <= at,
{
    let i = skipped_left(s, at, false);
    skipped_left(s, i, true)
}

/// The end of the word right of `at`.
pub fn word_right(s: &Vec<char>, at: usize) -> (r: usize)
    requires
        at <= s.len(),
    ensures
        r == word_end(s@, at as int),
        at <= r <= s.len(),
{
    let i = skipped_right(s, at, false);
    skipped_right(s, i, true)
}

/// A key with neither modifier.
pub open spec fn bare(k: Key, c: Code) -> bool {
    k.code == c && !k.ctrl && !k.alt
}

/// `C-c`.
pub open spec fn chord(k: Key, c: char) -> bool {
    k.code == Code::Char(c) && k.ctrl && !k.alt
}

/// `M-c`.
pub open spec fn meta(k: Key, c: char) -> bool {
    k.code == Code::Char(c) && !k.ctrl && k.alt
}

/// The line, its cursor, and what the prompt does, after `key`: every
/// binding. A release or a repeat does nothing, and an unbound chord is never
/// typed as text.
pub open spec fn applied(s: Seq<char>, at: int, key: Key) -> (Seq<char>, int, Step) {
    let end = s.len() as int;
    if !key.press {
        (s, at, Step::Continue)
    } else if key.code == Code::Enter {
        (s, at, Step::Submit)
    } else if key.code == Code::Esc || chord(key, 'c') || chord(key, 'g') {
        (s, at, Step::Cancel)
    } else if chord(key, 'd') && s.len() == 0 {
        // End of input, as in every shell.
        (s, at, Step::Cancel)
    } else if key.code == Code::Home || chord(key, 'a') {
        (s, 0, Step::Continue)
    } else if key.code == Code::End || chord(key, 'e') {
        (s, end, Step::Continue)
    } else if bare(key, Code::Left) || chord(key, 'b') {
        (s, if at > 0 { at - 1 } else { 0 }, Step::Continue)
    } else if bare(key, Code::Right) || chord(key, 'f') {
        (s, if at < end { at + 1 } else { end }, Step::Continue)
    } else if (key.code == Code::Left && key.ctrl && !key.alt) || meta(key, 'b') {
        (s, word_start(s, at), Step::Continue)
    } else if (key.code == Code::Right && key.ctrl && !key.alt) || meta(key, 'f') {
        (s, word_end(s, at), Step::Continue)
    } else if bare(key, Code::Backspace) || chord(key, 'h') {
        if at > 0 {
            (s.remove(at - 1), at - 1, Step::Continue)
        } else {
            (s, at, Step::Continue)
        }
    } else if key.code == Code::Delete || chord(key, 'd') {
        if at < end {
            (s.remove(at), at, Step::Continue)
        } else {
            (s, at, Step::Continue)
        }
    } else if (key.code == Code::Backspace && !key.ctrl && key.alt) || chord(key, 'w') {
        let start = word_start(s, at);
        (s.take(start) + s.skip(at), start, Step::Continue)
    } else if meta(key, 'd') {
        let stop = word_end(s, at);
        (s.take(at) + s.skip(stop), at, Step::Continue)
    } else if chord(key, 'k') {
        (s.take(at), at, Step::Continue)
    } else if chord(key, 'u') {
        (s.skip(at), 0, Step::Continue)
    } else if key.code is Char && !key.ctrl && !key.alt {
        (s.insert(at, key.code->Char_0), at + 1, Step::Continue)
    } else {
        (s, at, Step::Continue)
    }
}

/// The characters of `v` from `from` to `to`, spliced out.
fn cut_out(v: &mut Vec<char>, from: usize, to: usize)
    requires
        from <= to <= old(v).len(),
    ensures
        final(v)@ == old(v)@.take(from as int) + old(v)@.skip(to as int),
{
    let head = text::slice(v, 0, from);
    let tail = text::slice(v, to, v.len());
    let mut joined = head;
    joined.extend_from_slice(tail.as_slice());
    assert(joined@ =~= old(v)@.take(from as int) + old(v)@.skip(to as int));
    *v = joined;
}

/// Every binding, and nothing else: no terminal, no I/O.
pub fn apply(line: &mut Line, key: Key) -> (r: Step)
    requires
        old(line).wf(),
    ensures
        final(line).wf(),
        (final(line).chars@, final(line).cursor as int, r) == applied(old(line).chars@, old(line).cursor as int, key),
{
    let end = line.chars.len();
    let code = key.code;
    let ctrl = key.ctrl;
    let alt = key.alt;
    if !key.press {
        return Step::Continue;
    }
    if code == Code::Enter {
        return Step::Submit;
    }
    if code == Code::Esc || (code == Code::Char('c') && ctrl && !alt) || (code == Code::Char('g') && ctrl && !alt) {
        return Step::Cancel;
    }
    if code == Code::Char('d') && ctrl && !alt && end == 0 {
        return Step::Cancel;
    }
    if code == Code::Home || (code == Code::Char('a') && ctrl && !alt) {
        line.cursor = 0;
    } else if code == Code::End || (code == Code::Char('e') && ctrl && !alt) {
        line.cursor = end;
    } else if (code == Code::Left && !ctrl && !alt) || (code == Code::Char('b') && ctrl && !alt) {
        if line.cursor > 0 {
            line.cursor = line.cursor - 1;
        }
    } else if (code == Code::Right && !ctrl && !alt) || (code == Code::Char('f') && ctrl && !alt) {
        if line.cursor < end {
            line.cursor = line.cursor + 1;
        }
    } else if (code == Code::Left && ctrl && !alt) || (code == Code::Char('b') && !ctrl && alt) {
        line.cursor = word_left(&line.chars, line.cursor);
    } else if (code == Code::Right && ctrl && !alt) || (code == Code::Char('f') && !ctrl && alt) {
        line.cursor = word_right(&line.chars, line.cursor);
    } else if (code == Code::Backspace && !ctrl && !alt) || (code == Code::Char('h') && ctrl && !alt) {
        if line.cursor > 0 {
            line.cursor = line.cursor - 1;
            line.chars.remove(line.cursor);
        }
    } else if code == Code::Delete || (code == Code::Char('d') && ctrl && !alt) {
        if line.cursor < end {
            line.chars.remove(line.cursor);
        }
    } else if (code == Code::Backspace && !ctrl && alt) || (code == Code::Char('w') && ctrl && !alt) {
        let start = word_left(&line.chars, line.cursor);
        let at = line.cursor;
        cut_out(&mut line.chars, start, at);
        line.cursor = start;
    } else if code == Code::Char('d') && !ctrl && alt {
        let stop = word_right(&line.chars, line.cursor);
        let at = line.cursor;
        cut_out(&mut line.chars, at, stop);
    } else if code == Code::Char('k') && ctrl && !alt {
        let at = line.cursor;
        cut_out(&mut line.chars, at, end);
        assert(line.chars@ =~= old(line).chars@.take(at as int));
    } else if code == Code::Char('u') && ctrl && !alt {
        let at = line.cursor;
        cut_out(&mut line.chars, 0, at);
        assert(line.chars@ =~= old(line).chars@.skip(at as int));
        line.cursor = 0;
    } else {
        match code {
            Code::Char(c) => {
                if !ctrl && !alt {
                    line.chars.insert(line.cursor, c);
                    assert(line.cursor < line.chars.len());
                    line.cursor = line.cursor + 1;
                }
            },
            _ => {},
        }
    }
    Step::Continue
}

/// Typing a character and then Backspace gives the line back as it was.
pub proof fn lemma_type_then_backspace(s: Seq<char>, at: int, c: char)
    requires
        0 <= at <= s.len(),
        !(c == 'c' || c == 'g'),
    ensures
        ({
            let typed = applied(s, at, Key { code: Code::Char(c), ctrl: false, alt: false, press: true });
            let back = applied(typed.0, typed.1, Key { code: Code::Backspace, ctrl: false, alt: false, press: true });
            back.0 == s && back.1 == at && typed.2 == Step::Continue && back.2 == Step::Continue
        }),
{
    let typed = applied(s, at, Key { code: Code::Char(c), ctrl: false, alt: false, press: true });
    assert(typed.0 == s.insert(at, c));
    assert(s.insert(at, c).remove(at) =~= s);
}

/// No key moves the cursor off the line.
pub proof fn lemma_cursor_stays_on_the_line(s: Seq<char>, at: int, key: Key)
    requires
        0 <= at <= s.len(),
    ensures
        0 <= applied(s, at, key).1 <= applied(s, at, key).0.len(),
{
    lemma_skip_left(s, at, false);
    lemma_skip_left(s, skip_left(s, at, false), true);
    lemma_skip_right(s, at, false);
    lemma_skip_right(s, skip_right(s, at, false), true);
}

/// Delete (or `C-d` on a line that is not empty) takes out exactly the
/// character under the cursor: what stood before it stays in place, what
/// stood after it moves one to the left, and the cursor does not move. At the
/// end of the line it changes nothing.
pub proof fn lemma_delete_takes_the_character_under_the_cursor(s: Seq<char>, at: int, key: Key)
    requires
        0 <= at <= s.len(),
        key.press,
        key.code == Code::Delete || (chord(key, 'd') && s.len() > 0),
    ensures
        ({
            let r = applied(s, at, key);
            &&& r.1 == at
            &&& r.2 == Step::Continue
            &&& at < s.len() ==> {
                &&& r.0.len() == s.len() - 1
                &&& forall|j: int| 0 <= j < at ==> r.0[j] == s[j]
                &&& forall|j: int| at <= j < s.len() - 1 ==> r.0[j] == s[j + 1]
            }
            &&& at == s.len() ==> r.0 == s
        }),
{
}

/// Typing a character, stepping back over it with Left and deleting it gives
/// the line and the cursor back as they were.
pub proof fn lemma_type_left_delete(s: Seq<char>, at: int, c: char)
    requires
        0 <= at <= s.len(),
        !(c == 'c' || c == 'g'),
    ensures
        ({
            let typed = applied(s, at, Key { code: Code::Char(c), ctrl: false, alt: false, press: true });
            let back = applied(typed.0, typed.1, Key { code: Code::Left, ctrl: false, alt: false, press: true });
            let gone = applied(back.0, back.1, Key { code: Code::Delete, ctrl: false, alt: false, press: true });
            gone.0 == s && gone.1 == at && gone.2 == Step::Continue
        }),
{
    let typed = applied(s, at, Key { code: Code::Char(c), ctrl: false, alt: false, press: true });
    assert(typed.0 == s.insert(at, c));
    assert(s.insert(at, c).remove(at) =~= s);
}

} // verus!
