//! The one test fake, and with it the whole testing convention: script a
//! virtual filesystem, a map of commands to their output and a queue of
//! answers, run the application, then read the command log and the file
//! writes. Those two are the tool's entire observable effect on the world.

use vstd::prelude::*;
use crate::host::{dir_of, panels, Error, Event, Host, Output, Pick};
use crate::path::{self, below, depth, ordered, texts};
use crate::text::{self, strs, words};

verus! {

/// One scripted answer to a prompt. The variant must match the prompt the
/// application reaches, or the prompt fails naming the mismatch.
#[derive(Debug, Clone, PartialEq, Eq)]
pub enum Answer {
    /// Enter on an option: an index into what [`Host::select`] or
    /// [`Host::pick`] offered.
    Select(usize),
    Text(String),
    Confirm(bool),
    /// → on an option of [`Host::pick`].
    Right(usize),
    /// Tab on an option of [`Host::pick`].
    Tab(usize),
    /// ← at [`Host::pick`].
    Left,
    /// Esc or Ctrl-C at any prompt.
    Abort,
}

impl Answer {
    pub fn text(s: &str) -> (r: Self)
        ensures
            r matches Answer::Text(t) && t@ == s@,
    {
        Answer::Text(s.to_owned())
    }
}

/// The key a command is scripted under: `"git status"`, or
/// `"/repo $ git status"` when run in a working directory.
pub open spec fn command_key(argv: Seq<Seq<char>>, cwd: Option<Seq<char>>) -> Seq<char> {
    match cwd {
        Some(dir) => dir + seq![' ', '$', ' '] + words(argv),
        None => words(argv),
    }
}

/// The last entry scripted under `key`.
pub open spec fn scripted(commands: Seq<(String, Output)>, key: Seq<char>) -> Option<Output>
    decreases commands.len(),
{
    if commands.len() == 0 {
        None
    } else if commands.last().0@ == key {
        Some(commands.last().1)
    } else {
        scripted(commands.drop_last(), key)
    }
}

/// The contents last given to the file at `p`.
pub open spec fn contents(files: Seq<(String, String)>, p: Seq<char>) -> Option<Seq<char>>
    decreases files.len(),
{
    if files.len() == 0 {
        None
    } else if files.last().0@ == p {
        Some(files.last().1@)
    } else {
        contents(files.drop_last(), p)
    }
}

/// `d` is a directory above the file `f`.
pub open spec fn above(f: Seq<char>, d: Seq<char>) -> bool {
    (0 < d.len() < f.len() && f.take(d.len() as int) == d && f[d.len() as int] == '/') || (d
        == seq!['/'] && f.len() > 1 && f[0] == '/')
}

/// A directory the files imply: one of them lies below it.
pub open spec fn implied(files: Seq<(String, String)>, d: Seq<char>) -> bool {
    exists|i: int| 0 <= i < files.len() && above(#[trigger] files[i].0@, d)
}

/// A file, or a directory the files imply.
pub open spec fn present(files: Seq<(String, String)>, p: Seq<char>) -> bool {
    contents(files, p) is Some || implied(files, p)
}

/// Within `max_depth` components below `root`.
pub open spec fn reach(root: Seq<char>, max_depth: nat, d: Seq<char>) -> bool {
    match below(d, root) {
        Some(rest) => depth(rest) <= max_depth,
        None => false,
    }
}

/// How `confirm` shows its default.
pub open spec fn yes_no(default: bool) -> Seq<char> {
    if default {
        seq![' ', '[', 'Y', '/', 'n', ']']
    } else {
        seq![' ', '[', 'y', '/', 'N', ']']
    }
}

pub struct FakeHost {
    files: Vec<(String, String)>,
    commands: Vec<(String, Output)>,
    answers: Vec<Answer>,
    clock: u64,
    home_dir: String,
    inside: bool,
    size: (usize, usize),
    editor_line: String,
    logged: Vec<String>,
    written: Vec<(String, String)>,
    asked: Vec<String>,
    offered: Vec<String>,
    previewed: Vec<Vec<String>>,
    said: Vec<String>,
    told: Vec<String>,
    history: Ghost<Seq<Event>>,
}

impl FakeHost {
    pub closed spec fn files(&self) -> Seq<(String, String)> {
        self.files@
    }

    pub closed spec fn commands(&self) -> Seq<(String, Output)> {
        self.commands@
    }

    /// The answers not yet given.
    pub closed spec fn pending(&self) -> Seq<Answer> {
        self.answers@
    }

    pub closed spec fn clock(&self) -> u64 {
        self.clock
    }

    pub closed spec fn home_dir(&self) -> Seq<char> {
        self.home_dir@
    }

    pub closed spec fn inside(&self) -> bool {
        self.inside
    }

    pub closed spec fn size(&self) -> (usize, usize) {
        self.size
    }

    pub closed spec fn editor_line(&self) -> Seq<char> {
        self.editor_line@
    }

    pub closed spec fn logged(&self) -> Seq<Seq<char>> {
        texts(self.logged@)
    }

    pub closed spec fn written(&self) -> Seq<(Seq<char>, Seq<char>)> {
        self.written@.map_values(|w: (String, String)| (w.0@, w.1@))
    }

    pub closed spec fn asked(&self) -> Seq<Seq<char>> {
        texts(self.asked@)
    }

    pub closed spec fn offered(&self) -> Seq<Seq<char>> {
        texts(self.offered@)
    }

    pub closed spec fn previewed(&self) -> Seq<Seq<Seq<char>>> {
        self.previewed@.map_values(|p: Vec<String>| texts(p@))
    }

    pub closed spec fn told_lines(&self) -> Seq<Seq<char>> {
        texts(self.told@)
    }

    pub closed spec fn said(&self) -> Seq<Seq<char>> {
        texts(self.said@)
    }

    /// Everything but the files and the record of what was done.
    pub closed spec fn same_script(&self, other: &FakeHost) -> bool {
        &&& self.commands@ == other.commands@
        &&& self.clock == other.clock
        &&& self.home_dir@ == other.home_dir@
        &&& self.inside == other.inside
        &&& self.size == other.size
        &&& self.editor_line@ == other.editor_line@
    }

    /// Nothing scripted, nothing on disk, nothing done yet; the clock at
    /// 1 700 000 000, home at `/home/dev`, outside tmux, an 80×24 terminal and
    /// `vi` for an editor.
    pub fn new() -> (r: Self)
        ensures
            r.files().len() == 0,
            r.commands().len() == 0,
            r.pending().len() == 0,
            r.clock() == 1_700_000_000,
            r.home_dir() == seq!['/', 'h', 'o', 'm', 'e', '/', 'd', 'e', 'v'],
            !r.inside(),
            r.size() == (80usize, 24usize),
            r.editor_line() == seq!['v', 'i'],
            r.logged().len() == 0,
            r.written().len() == 0,
            r.asked().len() == 0,
            r.offered().len() == 0,
            r.said().len() == 0,
            r.events().len() == 0,
    {
        let home = String::from_str("/home/dev");
        let vi = String::from_str("vi");
        proof {
            reveal_strlit("/home/dev");
            reveal_strlit("vi");
        }
        let r = FakeHost {
            files: Vec::new(),
            commands: Vec::new(),
            answers: Vec::new(),
            clock: 1_700_000_000,
            home_dir: home,
            inside: false,
            size: (80, 24),
            editor_line: vi,
            logged: Vec::new(),
            written: Vec::new(),
            asked: Vec::new(),
            offered: Vec::new(),
            previewed: Vec::new(),
            said: Vec::new(),
            told: Vec::new(),
            history: Ghost(Seq::empty()),
        };
        assert(r.written@.map_values(|w: (String, String)| (w.0@, w.1@)).len() == 0);
        r
    }

    /// A file present in the virtual filesystem. Its parent directories are
    /// implied, which is also how [`Host::walk`] and [`Host::path_exists`]
    /// learn about directories.
    pub fn file(self, path: &str, contents: &str) -> (r: Self)
        ensures
            r.files().len() == self.files().len() + 1,
            r.files().last().0@ == path@,
            r.files().last().1@ == contents@,
            r.files().drop_last() == self.files(),
            r.same_script(&self),
    {
        let mut host = self;
        host.files.push((path.to_owned(), contents.to_owned()));
        host
    }

    /// Script a command by its log key: `"git status"`, or
    /// `"/repo $ git status"` to answer only when run in that working
    /// directory. A key with a working directory wins over the bare one.
    pub fn command(self, key: &str, output: Output) -> (r: Self)
        ensures
            r.commands() == self.commands().push((r.commands().last().0, output)),
            r.commands().last().0@ == key@,
            r.files() == self.files(),
    {
        let mut host = self;
        host.commands.push((key.to_owned(), output));
        host
    }

    /// Script a command that succeeds with the given stdout.
    pub fn succeeds(self, key: &str, stdout: &str) -> (r: Self)
        ensures
            scripted(r.commands(), key@) matches Some(o) && o.status == 0 && o.stdout@ == stdout@
                && o.stderr@.len() == 0,
            r.files() == self.files(),
    {
        self.command(key, Output::ok(stdout))
    }

    /// Script a command that fails.
    pub fn fails(self, key: &str, status: i32, stderr: &str) -> (r: Self)
        ensures
            scripted(r.commands(), key@) matches Some(o) && o.status == status && o.stdout@.len()
                == 0 && o.stderr@ == stderr@,
            r.files() == self.files(),
    {
        self.command(key, Output::fail(status, stderr))
    }

    pub fn answer(self, answer: Answer) -> (r: Self)
        ensures
            r.pending() == self.pending().push(answer),
            r.files() == self.files(),
    {
        let mut host = self;
        host.answers.push(answer);
        host
    }

    pub fn answers(self, answers: Vec<Answer>) -> (r: Self)
        ensures
            r.pending() == self.pending() + answers@,
            r.files() == self.files(),
    {
        let mut host = self;
        let mut more = answers;
        host.answers.append(&mut more);
        host
    }

    /// The clock, in seconds since the Unix epoch.
    pub fn now(self, now: u64) -> (r: Self)
        ensures
            r.clock() == now,
            r.files() == self.files(),
    {
        let mut host = self;
        host.clock = now;
        host
    }

    pub fn home(self, home: &str) -> (r: Self)
        ensures
            r.home_dir() == home@,
            r.files() == self.files(),
    {
        let mut host = self;
        host.home_dir = home.to_owned();
        host
    }

    pub fn in_tmux(self, in_tmux: bool) -> (r: Self)
        ensures
            r.inside() == in_tmux,
            r.files() == self.files(),
    {
        let mut host = self;
        host.inside = in_tmux;
        host
    }

    pub fn terminal(self, width: usize, height: usize) -> (r: Self)
        ensures
            r.size() == (width, height),
            r.files() == self.files(),
    {
        let mut host = self;
        host.size = (width, height);
        host
    }

    pub fn editor(self, editor: &str) -> (r: Self)
        ensures
            r.editor_line() == editor@,
            r.files() == self.files(),
    {
        let mut host = self;
        host.editor_line = editor.to_owned();
        host
    }

    /// Every command run, in order, in the same form as the scripting keys.
    pub fn log(&self) -> (r: Vec<String>)
        ensures
            texts(r@) == self.logged(),
    {
        text::copy_strings(&self.logged)
    }

    /// Every file write, in order. A file written twice appears twice.
    pub fn writes(&self) -> (r: Vec<(String, String)>)
        ensures
            r@.map_values(|w: (String, String)| (w.0@, w.1@)) == self.written(),
    {
        let mut r: Vec<(String, String)> = Vec::new();
        let mut i: usize = 0;
        while i < self.written.len()
            invariant
                i <= self.written.len(),
                r.len() == i,
                forall|k: int|
                    0 <= k < i ==> (#[trigger] r@[k]).0@ == self.written@[k].0@ && r@[k].1@
                        == self.written@[k].1@,
            decreases self.written.len() - i,
        {
            let w = &self.written[i];
            r.push((w.0.clone(), w.1.clone()));
            i += 1;
        }
        assert(r@.map_values(|w: (String, String)| (w.0@, w.1@)) =~= self.written());
        r
    }

    /// The contents of a file in the virtual filesystem, including writes.
    pub fn file_contents(&self, path: &str) -> (r: Option<String>)
        ensures
            match r {
                Some(c) => contents(self.files(), path@) == Some(c@),
                None => contents(self.files(), path@) is None,
            },
    {
        let mut i = self.files.len();
        assert(self.files@.take(i as int) == self.files@);
        while i > 0
            invariant
                i <= self.files.len(),
                contents(self.files@, path@) == contents(self.files@.take(i as int), path@),
            decreases i,
        {
            assert(self.files@.take(i as int).drop_last() == self.files@.take(i - 1));
            if text::same(self.files[i - 1].0.as_str(), path) {
                return Some(self.files[i - 1].1.clone());
            }
            i -= 1;
        }
        None
    }

    /// Every prompt shown, in order, with its default: `"Ticket? [VBSN-1]"`
    /// for free text, `"Fetch? [Y/n]"` for a confirmation, the bare message
    /// for a list.
    pub fn prompts(&self) -> (r: Vec<String>)
        ensures
            texts(r@) == self.asked(),
    {
        text::copy_strings(&self.asked)
    }

    /// The options of the last list shown.
    pub fn options(&self) -> (r: Vec<String>)
        ensures
            texts(r@) == self.offered(),
    {
        text::copy_strings(&self.offered)
    }

    /// The previews beside the last picker shown, one per option.
    pub fn previews(&self) -> (r: Vec<Vec<String>>)
        ensures
            r.len() == self.previewed().len(),
            forall|i: int| 0 <= i < r.len() ==> texts(#[trigger] r[i]@) == self.previewed()[i],
    {
        let mut r: Vec<Vec<String>> = Vec::new();
        let mut i: usize = 0;
        while i < self.previewed.len()
            invariant
                i <= self.previewed.len(),
                r.len() == i,
                forall|j: int| 0 <= j < i ==> texts(#[trigger] r[j]@) == self.previewed()[j],
            decreases self.previewed.len() - i,
        {
            r.push(text::copy_strings(&self.previewed[i]));
            i += 1;
        }
        r
    }

    /// Every line said to the developer, in order.
    pub fn told(&self) -> (r: Vec<String>)
        ensures
            texts(r@) == self.told_lines(),
    {
        text::copy_strings(&self.told)
    }

    /// Every status line, in order; an empty one is the line cleared.
    pub fn statuses(&self) -> (r: Vec<String>)
        ensures
            texts(r@) == self.said(),
    {
        text::copy_strings(&self.said)
    }

    fn key(argv: &[&str], cwd: Option<&str>) -> (r: String)
        ensures
            r@ == command_key(strs(argv@), match cwd {
                Some(d) => Some(d@),
                None => None,
            }),
    {
        let joined = text::join_words(argv);
        match cwd {
            Some(dir) => {
                let mut k = dir.to_owned();
                text::push_str(&mut k, " $ ");
                proof {
                    reveal_strlit(" $ ");
                }
                text::push_str(&mut k, joined.as_str());
                k
            },
            None => joined,
        }
    }

    fn find_command(&self, key: &str) -> (r: Option<Output>)
        ensures
            r == scripted(self.commands@, key@),
    {
        let mut i = self.commands.len();
        assert(self.commands@.take(i as int) == self.commands@);
        while i > 0
            invariant
                i <= self.commands.len(),
                scripted(self.commands@, key@) == scripted(self.commands@.take(i as int), key@),
            decreases i,
        {
            assert(self.commands@.take(i as int).drop_last() == self.commands@.take(i - 1));
            if text::same(self.commands[i - 1].0.as_str(), key) {
                return Some(copy_output(&self.commands[i - 1].1));
            }
            i -= 1;
        }
        None
    }

    /// The next scripted answer, with the prompt recorded.
    fn next_answer(&mut self, prompt: String) -> (r: Result<Answer, Error>)
        ensures
            final(self).asked() == old(self).asked().push(prompt@),
            final(self).files() == old(self).files(),
            final(self).same_script(old(self)),
            final(self).logged() == old(self).logged(),
            final(self).written() == old(self).written(),
            final(self).offered() == old(self).offered(),
            final(self).said() == old(self).said(),
            final(self).history == old(self).history,
            old(self).pending().len() == 0 ==> r is Err && final(self).pending().len() == 0,
            old(self).pending().len() > 0 ==> final(self).pending() == old(self).pending().drop_first()
                && match old(self).pending()[0] {
                Answer::Abort => r == Err::<Answer, Error>(Error::Aborted),
                a => r == Ok::<Answer, Error>(a),
            },
    {
        self.asked.push(prompt);
        proof {
            assert(texts(self.asked@) == texts(old(self).asked@).push(prompt@));
        }
        if self.answers.len() == 0 {
            let mut m = String::from_str("no scripted answer left for prompt ");
            text::push_str(&mut m, self.asked[self.asked.len() - 1].as_str());
            return Err(Error::Failed(m));
        }
        let a = self.answers.remove(0);
        assert(self.answers@ == old(self).pending().drop_first());
        match a {
            Answer::Abort => Err(Error::Aborted),
            a => Ok(a),
        }
    }

    /// Directories implied by the files, under `root` and within
    /// `max_depth` of it, in path order.
    fn dirs(&self, root: &str, max_depth: usize) -> (r: Vec<String>)
        ensures
            ordered(texts(r@)),
            forall|d: Seq<char>|
                texts(r@).contains(d) <==> (implied(self.files@, d) && reach(root@, max_depth as nat, d)),
    {
        let mut r: Vec<String> = Vec::new();
        let mut i: usize = 0;
        while i < self.files.len()
            invariant
                i <= self.files.len(),
                ordered(texts(r@)),
                forall|d: Seq<char>|
                    texts(r@).contains(d) <==> (implied(self.files@.take(i as int), d) && reach(
                        root@,
                        max_depth as nat,
                        d,
                    )),
            decreases self.files.len() - i,
        {
            let f = text::chars(self.files[i].0.as_str());
            let mut j: usize = 0;
            while j < f.len()
                invariant
                    i < self.files.len(),
                    j <= f.len(),
                    f@ == self.files@[i as int].0@,
                    ordered(texts(r@)),
                    forall|d: Seq<char>|
                        texts(r@).contains(d) <==> ((implied(self.files@.take(i as int), d) || upto(
                            f@,
                            j as int,
                            d,
                        )) && reach(root@, max_depth as nat, d)),
                decreases f.len() - j,
            {
                proof {
                    lemma_upto_step(f@, j as int);
                }
                let ghost before_insert = texts(r@);
                if f[j] == '/' && (j > 0 || f.len() > 1) {
                    let d = if j == 0 {
                        text::slice(&f, 0, 1)
                    } else {
                        text::slice(&f, 0, j)
                    };
                    proof {
                        if j == 0 {
                            assert(d@ == seq!['/']);
                        } else {
                            assert(d@ == f@.take(j as int));
                        }
                        assert(fresh(f@, j as int) == Some(d@));
                    }
                    let ds = text::string(&d);
                    if is_reached(root, max_depth, ds.as_str()) {
                        path::insert_ordered(&mut r, ds);
                    }
                } else {
                    assert(fresh(f@, j as int) is None);
                }
                j += 1;
            }
            proof {
                assert forall|d: Seq<char>|
                    implied(self.files@.take(i + 1), d) <==> (implied(self.files@.take(i as int), d)
                        || upto(f@, j as int, d)) by {
                    let t = self.files@.take(i + 1);
                    if implied(t, d) {
                        let k = choose|k: int| 0 <= k < t.len() && above(#[trigger] t[k].0@, d);
                        if k < i {
                            assert(self.files@.take(i as int)[k] == t[k]);
                        } else {
                            assert(t[k] == self.files@[i as int]);
                        }
                    }
                    if implied(self.files@.take(i as int), d) {
                        let k = choose|k: int|
                            0 <= k < i && above(#[trigger] self.files@.take(i as int)[k].0@, d);
                        assert(t[k] == self.files@.take(i as int)[k]);
                    }
                    if upto(f@, j as int, d) {
                        assert(t[i as int] == self.files@[i as int]);
                    }
                }
            }
            i += 1;
        }
        assert(self.files@.take(i as int) == self.files@);
        r
    }
}

/// `d` is above the file `f`, and no longer than `j` characters (or the root
/// once `j` has passed it).
pub open spec fn upto(f: Seq<char>, j: int, d: Seq<char>) -> bool {
    above(f, d) && (d.len() < j || (d == seq!['/'] && j > 0))
}

/// The directory that becomes one above `f` at character `j`.
pub open spec fn fresh(f: Seq<char>, j: int) -> Option<Seq<char>> {
    if f[j] == '/' && (j > 0 || f.len() > 1) {
        Some(
            if j == 0 {
                seq!['/']
            } else {
                f.take(j)
            },
        )
    } else {
        None
    }
}

proof fn lemma_upto_step(f: Seq<char>, j: int)
    requires
        0 <= j < f.len(),
    ensures
        forall|d: Seq<char>| upto(f, j + 1, d) <==> (upto(f, j, d) || fresh(f, j) == Some(d)),
        forall|d: Seq<char>| #[trigger] upto(f, f.len() as int, d) <==> above(f, d),
{
    assert forall|d: Seq<char>| upto(f, j + 1, d) <==> (upto(f, j, d) || fresh(f, j) == Some(d)) by {
        if upto(f, j + 1, d) && !upto(f, j, d) {
            if d == seq!['/'] {
                assert(j == 0);
                if 0 < d.len() < f.len() && f.take(d.len() as int) == d && f[d.len() as int] == '/' {
                    assert(f.take(1)[0] == f[0]);
                }
            } else {
                assert(d.len() == j);
                assert(f.take(j) == d);
            }
        }
        if fresh(f, j) == Some(d) {
            if j == 0 {
                assert(d == seq!['/']);
            } else {
                assert(d == f.take(j));
            }
        }
    }
}

/// `d` lies within `max_depth` components below `root`.
fn is_reached(root: &str, max_depth: usize, d: &str) -> (r: bool)
    ensures
        r == reach(root@, max_depth as nat, d@),
{
    match path::below_of(d, root) {
        Some(rest) => path::depth_of(rest.as_str()) <= max_depth,
        None => false,
    }
}

/// A copy of an output, field for field.
pub fn copy_output(o: &Output) -> (r: Output)
    ensures
        r == *o,
{
    Output { status: o.status, stdout: o.stdout.clone(), stderr: o.stderr.clone() }
}

fn copy_answer(a: &Answer) -> (r: Answer)
    ensures
        r == *a,
{
    match a {
        Answer::Select(i) => Answer::Select(*i),
        Answer::Text(t) => Answer::Text(t.clone()),
        Answer::Confirm(b) => Answer::Confirm(*b),
        Answer::Right(i) => Answer::Right(*i),
        Answer::Tab(i) => Answer::Tab(*i),
        Answer::Left => Answer::Left,
        Answer::Abort => Answer::Abort,
    }
}

} // verus!

verus! {

/// `d` is a directory above the file `f`.
fn is_above(f: &str, d: &str) -> (r: bool)
    ensures
        r == above(f@, d@),
{
    let fv = text::chars(f);
    let dv = text::chars(d);
    let first = 0 < dv.len() && dv.len() < fv.len() && text::has_prefix(&fv, &dv) && fv[dv.len()]
        == '/';
    let root = dv.len() == 1 && dv[0] == '/' && fv.len() > 1 && fv[0] == '/';
    proof {
        if dv@.len() == 1 && dv@[0] == '/' {
            assert(dv@ == seq!['/']);
        }
    }
    first || root
}

/// The message a list prompt shows with its answer missing or mismatched.
fn mismatch(message: &str, kind: &str) -> (r: Error)
    ensures
        r is Failed,
        r.text() == "prompt "@ + message@ + " is "@ + kind@ + ", but the next answer is not one"@,
{
    let mut m = String::from_str("prompt ");
    text::push_str(&mut m, message);
    text::push_str(&mut m, " is ");
    text::push_str(&mut m, kind);
    text::push_str(&mut m, ", but the next answer is not one");
    Error::Failed(m)
}

impl Host for FakeHost {
    open spec fn obeys_model() -> bool {
        true
    }

    closed spec fn events(&self) -> Seq<Event> {
        self.history@
    }

    closed spec fn stored(&self, path: Seq<char>) -> Result<Option<Seq<char>>, Error> {
        Ok(contents(self.files@, path))
    }

    closed spec fn present_at(&self, path: Seq<char>) -> bool {
        present(self.files@, path)
    }

    closed spec fn walked(&self, root: Seq<char>, max_depth: nat, dirs: Seq<Seq<char>>) -> bool {
        &&& ordered(dirs)
        &&& forall|d: Seq<char>| dirs.contains(d) <==> (implied(self.files@, d) && reach(root, max_depth, d))
    }

    closed spec fn tmux_client(&self) -> bool {
        self.inside
    }

    closed spec fn home_dir_of(&self) -> Result<Seq<char>, Error> {
        Ok(self.home_dir@)
    }

    closed spec fn editor_of(&self) -> Seq<char> {
        self.editor_line@
    }

    fn run(&mut self, argv: &[&str], cwd: Option<&str>) -> (r: Result<Output, Error>)
        ensures
            final(self).logged() == old(self).logged().push(command_key(strs(argv@), dir_of(cwd))),
            final(self).files() == old(self).files(),
            final(self).pending() == old(self).pending(),
            final(self).same_script(old(self)),
            final(self).written() == old(self).written(),
            final(self).asked() == old(self).asked(),
            final(self).offered() == old(self).offered(),
            final(self).said() == old(self).said(),
            match scripted(old(self).commands(), command_key(strs(argv@), dir_of(cwd))) {
                Some(o) => r == Ok::<Output, Error>(o),
                None => match scripted(old(self).commands(), words(strs(argv@))) {
                    Some(o) => r == Ok::<Output, Error>(o),
                    None => r is Err,
                },
            },
    {
        let key = FakeHost::key(argv, cwd);
        let bare = text::join_words(argv);
        let found = match self.find_command(key.as_str()) {
            Some(o) => Some(o),
            None => self.find_command(bare.as_str()),
        };
        let result = match found {
            Some(o) => Ok(o),
            None => {
                let mut m = String::from_str("unscripted command ");
                text::push_str(&mut m, key.as_str());
                Err(Error::Failed(m))
            },
        };
        self.logged.push(key);
        self.history = Ghost(self.history@.push(Event::Ran(strs(argv@), dir_of(cwd), result)));
        result
    }

    fn read_file(&self, path: &str) -> (r: Result<Option<String>, Error>)
        ensures
            r matches Ok(found) && match found {
                Some(c) => contents(self.files(), path@) == Some(c@),
                None => contents(self.files(), path@) is None,
            },
    {
        Ok(self.file_contents(path))
    }

    fn write_file(&mut self, path: &str, contents: &str) -> (r: Result<(), Error>)
        ensures
            r is Ok,
            final(self).files().len() == old(self).files().len() + 1,
            final(self).files().drop_last() == old(self).files(),
            final(self).files().last().0@ == path@,
            final(self).files().last().1@ == contents@,
            final(self).written() == old(self).written().push((path@, contents@)),
            final(self).logged() == old(self).logged(),
            final(self).pending() == old(self).pending(),
            final(self).same_script(old(self)),
            final(self).asked() == old(self).asked(),
            final(self).offered() == old(self).offered(),
            final(self).said() == old(self).said(),
    {
        self.files.push((path.to_owned(), contents.to_owned()));
        let ghost w0 = self.written@;
        self.written.push((path.to_owned(), contents.to_owned()));
        assert(self.written@.map_values(|w: (String, String)| (w.0@, w.1@)) =~= w0.map_values(
            |w: (String, String)| (w.0@, w.1@),
        ).push((path@, contents@)));
        let r: Result<(), Error> = Ok(());
        self.history = Ghost(self.history@.push(Event::Wrote(path@, contents@, r)));
        assert(self::contents(self.files@, path@) == Some(contents@));
        assert forall|p: Seq<char>| p != path@ implies self::contents(self.files@, p) == self::contents(
            old(self).files@,
            p,
        ) by {
            assert(self.files@.drop_last() == old(self).files@);
        }
        r
    }

    fn path_exists(&self, path: &str) -> (r: bool)
        ensures
            r == present(self.files(), path@),
    {
        if self.file_contents(path).is_some() {
            return true;
        }
        let mut i: usize = 0;
        while i < self.files.len()
            invariant
                i <= self.files.len(),
                forall|k: int| 0 <= k < i ==> !above(#[trigger] self.files@[k].0@, path@),
            decreases self.files.len() - i,
        {
            if is_above(self.files[i].0.as_str(), path) {
                return true;
            }
            i += 1;
        }
        false
    }

    fn walk(&self, root: &str, max_depth: usize) -> (r: Result<Vec<String>, Error>)
        ensures
            r matches Ok(dirs) && ordered(texts(dirs@)) && forall|d: Seq<char>|
                texts(dirs@).contains(d) <==> (implied(self.files(), d) && reach(
                    root@,
                    max_depth as nat,
                    d,
                )),
    {
        Ok(self.dirs(root, max_depth))
    }

    fn exec(&mut self, argv: &[&str], cwd: Option<&str>) -> (r: Result<(), Error>)
        ensures
            r is Ok,
            final(self).logged() == old(self).logged().push(command_key(strs(argv@), dir_of(cwd))),
            final(self).files() == old(self).files(),
            final(self).pending() == old(self).pending(),
            final(self).same_script(old(self)),
            final(self).written() == old(self).written(),
            final(self).asked() == old(self).asked(),
            final(self).offered() == old(self).offered(),
            final(self).said() == old(self).said(),
    {
        // The real host never returns from this; the fake records it and
        // lets the test see that it was the last thing emitted.
        let key = FakeHost::key(argv, cwd);
        self.logged.push(key);
        let r: Result<(), Error> = Ok(());
        self.history = Ghost(self.history@.push(Event::Handed(strs(argv@), dir_of(cwd), r)));
        r
    }

    fn select(&mut self, message: &str, options: &[String]) -> (r: Result<usize, Error>)
        ensures
            final(self).asked() == old(self).asked().push(message@),
            final(self).offered() == texts(options@),
            final(self).files() == old(self).files(),
            final(self).logged() == old(self).logged(),
            final(self).written() == old(self).written(),
            final(self).same_script(old(self)),
            old(self).pending().len() > 0 ==> final(self).pending() == old(self).pending().drop_first(),
            r matches Ok(i) ==> old(self).pending().len() > 0 && old(self).pending()[0]
                == Answer::Select(i) && i < options.len(),
    {
        self.offered = text::copy_strings(options);
        let r = match self.next_answer(message.to_owned()) {
            Err(e) => Err(e),
            Ok(Answer::Select(i)) => {
                if i < options.len() {
                    Ok(i)
                } else {
                    Err(mismatch(message, "a list of fewer options"))
                }
            },
            Ok(_) => Err(mismatch(message, "a list")),
        };
        self.history = Ghost(self.history@.push(Event::Selected(message@, texts(options@), r)));
        r
    }

    fn pick(&mut self, message: &str, options: &[String], previews: &[Vec<String>], keys: &str) -> (r:
        Result<Pick, Error>)
        ensures
            final(self).asked() == old(self).asked().push(message@),
            final(self).offered() == texts(options@),
            final(self).files() == old(self).files(),
            final(self).logged() == old(self).logged(),
            final(self).written() == old(self).written(),
            final(self).same_script(old(self)),
            old(self).pending().len() > 0 ==> final(self).pending() == old(self).pending().drop_first(),
            r matches Ok(p) ==> old(self).pending().len() > 0 && match p {
                Pick::Enter(i) => old(self).pending()[0] == Answer::Select(i) && i < options.len(),
                Pick::Right(i) => old(self).pending()[0] == Answer::Right(i) && i < options.len(),
                Pick::Tab(i) => old(self).pending()[0] == Answer::Tab(i) && i < options.len(),
                Pick::Left => old(self).pending()[0] == Answer::Left,
            },
    {
        self.offered = text::copy_strings(options);
        let mut shown: Vec<Vec<String>> = Vec::new();
        let mut k: usize = 0;
        while k < previews.len()
            invariant
                k <= previews.len(),
                shown.len() == k,
            decreases previews.len() - k,
        {
            shown.push(text::copy_strings(&previews[k]));
            k += 1;
        }
        self.previewed = shown;
        let n = options.len();
        let r = match self.next_answer(message.to_owned()) {
            Err(e) => Err(e),
            Ok(Answer::Select(i)) => if i < n {
                Ok(Pick::Enter(i))
            } else {
                Err(mismatch(message, "a list of fewer options"))
            },
            Ok(Answer::Right(i)) => if i < n {
                Ok(Pick::Right(i))
            } else {
                Err(mismatch(message, "a list of fewer options"))
            },
            Ok(Answer::Tab(i)) => if i < n {
                Ok(Pick::Tab(i))
            } else {
                Err(mismatch(message, "a list of fewer options"))
            },
            Ok(Answer::Left) => Ok(Pick::Left),
            Ok(_) => Err(mismatch(message, "a picker")),
        };
        self.history = Ghost(
            self.history@.push(Event::Picked(message@, texts(options@), panels(previews@), keys@, r)),
        );
        r
    }

    fn input(&mut self, message: &str, default: &str) -> (r: Result<String, Error>)
        ensures
            final(self).asked() == old(self).asked().push(
                message@ + seq![' ', '['] + default@ + seq![']'],
            ),
            final(self).files() == old(self).files(),
            final(self).logged() == old(self).logged(),
            final(self).written() == old(self).written(),
            final(self).offered() == old(self).offered(),
            final(self).same_script(old(self)),
            old(self).pending().len() > 0 ==> final(self).pending() == old(self).pending().drop_first(),
            r matches Ok(t) ==> old(self).pending().len() > 0 && old(self).pending()[0]
                == Answer::Text(t),
    {
        proof {
            reveal_strlit(" [");
            reveal_strlit("]");
        }
        let mut label = message.to_owned();
        text::push_str(&mut label, " [");
        text::push_str(&mut label, default);
        text::push_str(&mut label, "]");
        assert(label@ == message@ + seq![' ', '['] + default@ + seq![']']);
        let r = match self.next_answer(label) {
            Err(e) => Err(e),
            Ok(Answer::Text(t)) => Ok(t),
            Ok(_) => Err(mismatch(message, "free text")),
        };
        self.history = Ghost(self.history@.push(Event::Typed(message@, default@, r)));
        r
    }

    fn confirm(&mut self, message: &str, default: bool) -> (r: Result<bool, Error>)
        ensures
            final(self).asked() == old(self).asked().push(message@ + yes_no(default)),
            final(self).files() == old(self).files(),
            final(self).logged() == old(self).logged(),
            final(self).written() == old(self).written(),
            final(self).offered() == old(self).offered(),
            final(self).same_script(old(self)),
            old(self).pending().len() > 0 ==> final(self).pending() == old(self).pending().drop_first(),
            r matches Ok(b) ==> old(self).pending().len() > 0 && old(self).pending()[0]
                == Answer::Confirm(b),
    {
        proof {
            reveal_strlit(" [Y/n]");
            reveal_strlit(" [y/N]");
        }
        let mut label = message.to_owned();
        if default {
            text::push_str(&mut label, " [Y/n]");
        } else {
            text::push_str(&mut label, " [y/N]");
        }
        assert(label@ == message@ + yes_no(default));
        let r = match self.next_answer(label) {
            Err(e) => Err(e),
            Ok(Answer::Confirm(b)) => Ok(b),
            Ok(_) => Err(mismatch(message, "a confirmation")),
        };
        self.history = Ghost(self.history@.push(Event::Confirmed(message@, default, r)));
        r
    }

    fn status(&mut self, line: &str)
        ensures
            final(self).said() == old(self).said().push(line@),
            final(self).files() == old(self).files(),
            final(self).logged() == old(self).logged(),
            final(self).written() == old(self).written(),
            final(self).asked() == old(self).asked(),
            final(self).offered() == old(self).offered(),
            final(self).pending() == old(self).pending(),
            final(self).same_script(old(self)),
    {
        self.said.push(line.to_owned());
        proof {
            assert(texts(self.said@) == texts(old(self).said@).push(line@));
        }
        self.history = Ghost(self.history@.push(Event::Status(line@)));
    }

    fn say(&mut self, line: &str)
        ensures
            final(self).told_lines() == old(self).told_lines().push(line@),
            final(self).said() == old(self).said(),
            final(self).files() == old(self).files(),
            final(self).logged() == old(self).logged(),
            final(self).written() == old(self).written(),
            final(self).asked() == old(self).asked(),
            final(self).offered() == old(self).offered(),
            final(self).pending() == old(self).pending(),
            final(self).same_script(old(self)),
    {
        self.told.push(line.to_owned());
        proof {
            assert(texts(self.told@) == texts(old(self).told@).push(line@));
        }
        self.history = Ghost(self.history@.push(Event::Said(line@)));
    }

    fn now(&self) -> (r: u64)
        ensures
            r == self.clock(),
    {
        self.clock
    }

    fn in_tmux(&self) -> (r: bool)
        ensures
            r == self.inside(),
    {
        self.inside
    }

    fn home(&self) -> (r: Result<String, Error>)
        ensures
            r matches Ok(h) && h@ == self.home_dir(),
    {
        Ok(self.home_dir.clone())
    }

    fn terminal(&self) -> (r: (usize, usize))
        ensures
            r == self.size(),
    {
        self.size
    }

    fn editor(&self) -> (r: String)
        ensures
            r@ == self.editor_line(),
    {
        self.editor_line.clone()
    }
}

} // verus!
