//! The one seam. Every impure interaction the application has with the outside
//! world goes through `Host`, so the whole application can be driven through
//! [`crate::fake::FakeHost`] and judged by the commands it emitted and the
//! files it wrote.

use vstd::prelude::*;
use crate::path::texts;
use crate::text::{self, strs};

verus! {

/// The result of running a command.
#[derive(Debug, Clone, PartialEq, Eq)]
pub struct Output {
    pub status: i32,
    pub stdout: String,
    pub stderr: String,
}

impl Output {
    /// A successful run with the given stdout.
    pub fn ok(stdout: &str) -> (r: Self)
        ensures
            r.status == 0,
            r.stdout@ == stdout@,
            r.stderr@ == Seq::<char>::empty(),
    {
        Output { status: 0, stdout: stdout.to_owned(), stderr: String::new() }
    }

    /// A failed run with the given exit status and stderr.
    pub fn fail(status: i32, stderr: &str) -> (r: Self)
        ensures
            r.status == status,
            r.stdout@ == Seq::<char>::empty(),
            r.stderr@ == stderr@,
    {
        Output { status, stdout: String::new(), stderr: stderr.to_owned() }
    }

    pub open spec fn success(&self) -> bool {
        self.status == 0
    }

    pub fn succeeded(&self) -> (r: bool)
        ensures
            r == self.success(),
    {
        self.status == 0
    }

    /// stdout with its trailing newlines removed.
    pub open spec fn trimmed_out(&self) -> Seq<char> {
        text::trim_end_char(self.stdout@, '\n')
    }

    /// stdout with the trailing newline removed.
    pub fn trimmed(&self) -> (r: String)
        ensures
            r@ == self.trimmed_out(),
    {
        let v = text::chars(self.stdout.as_str());
        text::string(&text::trimmed_end_char(&v, '\n'))
    }
}

/// Why the application stopped: the user walking away from a prompt, or a
/// failure, with the message that says what failed.
#[derive(Debug, Clone, PartialEq, Eq)]
pub enum Error {
    /// Esc or Ctrl-C at a prompt. Unwinds having emitted nothing.
    Aborted,
    Failed(String),
}

impl Error {
    /// A failure saying `message`.
    pub fn failed(message: String) -> (r: Self)
        ensures
            r == Error::Failed(message),
    {
        Error::Failed(message)
    }

    pub open spec fn text(&self) -> Seq<char> {
        match self {
            Error::Aborted => seq!['a', 'b', 'o', 'r', 't', 'e', 'd'],
            Error::Failed(m) => m@,
        }
    }

    /// What went wrong, as one would print it.
    pub fn message(&self) -> (r: String)
        ensures
            r@ == self.text(),
    {
        match self {
            Error::Aborted => {
                let s = String::from_str("aborted");
                proof {
                    reveal_strlit("aborted");
                }
                s
            },
            Error::Failed(m) => m.clone(),
        }
    }
}

/// Whether an error is the user walking away from a prompt rather than a fault.
pub fn aborted(error: &Error) -> (r: bool)
    ensures
        r == (*error is Aborted),
{
    match error {
        Error::Aborted => true,
        Error::Failed(_) => false,
    }
}

/// Which key chose in the picker or a row's menu.
#[derive(Debug, Clone, Copy, PartialEq, Eq)]
pub enum Pick {
    /// Enter, on the option at this index.
    Enter(usize),
    /// →, on the option at this index.
    Right(usize),
    /// Tab, on the option at this index.
    Tab(usize),
    /// ←, which needs no option.
    Left,
}

/// The text of an optional working directory.
pub open spec fn dir_of(cwd: Option<&str>) -> Option<Seq<char>> {
    match cwd {
        Some(d) => Some(d@),
        None => None,
    }
}

/// A read's result, its text taken as characters.
pub open spec fn read_view(r: Result<Option<String>, Error>) -> Result<Option<Seq<char>>, Error> {
    match r {
        Ok(Some(c)) => Ok(Some(c@)),
        Ok(None) => Ok(None),
        Err(e) => Err(e),
    }
}

/// A text result, taken as characters.
pub open spec fn text_view(r: Result<String, Error>) -> Result<Seq<char>, Error> {
    match r {
        Ok(h) => Ok(h@),
        Err(e) => Err(e),
    }
}

/// `b` is `a` with nothing changed but its record of requests: every read,
/// every walk, whether something is there, the tmux client, the home
/// directory and the editor give what they gave.
pub open spec fn kept<H: Host>(a: H, b: H) -> bool {
    &&& forall|p: Seq<char>| #[trigger] b.stored(p) == a.stored(p)
    &&& forall|p: Seq<char>| #[trigger] b.present_at(p) == a.present_at(p)
    &&& forall|root: Seq<char>, d: nat, dirs: Seq<Seq<char>>| #[trigger] b.walked(root, d, dirs) == a.walked(root, d, dirs)
    &&& b.tmux_client() == a.tmux_client()
    &&& b.home_dir_of() == a.home_dir_of()
    &&& b.editor_of() == a.editor_of()
}

/// Only what never changes: the tmux client, the home directory and the
/// editor.
pub open spec fn same_place<H: Host>(a: H, b: H) -> bool {
    &&& b.tmux_client() == a.tmux_client()
    &&& b.home_dir_of() == a.home_dir_of()
    &&& b.editor_of() == a.editor_of()
}

/// One thing a host was asked to do, with the arguments it was handed and
/// what came back.
pub enum Event {
    /// `run(argv, cwd)`.
    Ran(Seq<Seq<char>>, Option<Seq<char>>, Result<Output, Error>),
    /// `write_file(path, contents)`.
    Wrote(Seq<char>, Seq<char>, Result<(), Error>),
    /// `exec(argv, cwd)`.
    Handed(Seq<Seq<char>>, Option<Seq<char>>, Result<(), Error>),
    /// `select(message, options)`.
    Selected(Seq<char>, Seq<Seq<char>>, Result<usize, Error>),
    /// `pick(message, options, previews, keys)`.
    Picked(Seq<char>, Seq<Seq<char>>, Seq<Seq<Seq<char>>>, Seq<char>, Result<Pick, Error>),
    /// `input(message, default)`.
    Typed(Seq<char>, Seq<char>, Result<String, Error>),
    /// `confirm(message, default)`.
    Confirmed(Seq<char>, bool, Result<bool, Error>),
    /// `status(line)`.
    Status(Seq<char>),
    /// `say(line)`.
    Said(Seq<char>),
}

/// What a run gave; any other request gives nothing to read.
pub open spec fn outcome(e: Event) -> Result<Output, Error> {
    match e {
        Event::Ran(_, _, r) => r,
        _ => Err(Error::Aborted),
    }
}

/// `after` is `before` and then `argv` run in `cwd`, whatever that gave.
pub open spec fn one_run(before: Seq<Event>, after: Seq<Event>, argv: Seq<Seq<char>>, cwd: Option<Seq<char>>) -> bool {
    after == before.push(Event::Ran(argv, cwd, outcome(after.last())))
}

/// `after` is `before` with more requests after it.
pub open spec fn extends(before: Seq<Event>, after: Seq<Event>) -> bool {
    before.len() <= after.len() && after.take(before.len() as int) == before
}

pub proof fn lemma_extends_trans(a: Seq<Event>, b: Seq<Event>, c: Seq<Event>)
    requires
        extends(a, b),
        extends(b, c),
    ensures
        extends(a, c),
{
    assert(c.take(a.len() as int) =~= b.take(a.len() as int));
}

pub proof fn lemma_extends_index(a: Seq<Event>, b: Seq<Event>, j: int)
    requires
        extends(a, b),
        0 <= j < a.len(),
    ensures
        b[j] == a[j],
{
    assert(b.take(a.len() as int)[j] == b[j]);
}

/// A request that neither hands the terminal over nor opens a picker.
pub open spec fn quiet(e: Event) -> bool {
    !(e is Handed) && !(e is Picked)
}

/// `after` is `before` with more requests after it, none of them handing the
/// terminal over or opening a picker.
pub open spec fn quietly(before: Seq<Event>, after: Seq<Event>) -> bool {
    &&& extends(before, after)
    &&& forall|j: int| before.len() <= j < after.len() ==> quiet(#[trigger] after[j])
}

pub proof fn lemma_quietly_trans(a: Seq<Event>, b: Seq<Event>, c: Seq<Event>)
    requires
        quietly(a, b),
        quietly(b, c),
    ensures
        quietly(a, c),
{
    lemma_extends_trans(a, b, c);
    assert forall|j: int| a.len() <= j < c.len() implies quiet(#[trigger] c[j]) by {
        if j < b.len() {
            lemma_extends_index(b, c, j);
        }
    }
}

pub proof fn lemma_quietly_push(before: Seq<Event>, e: Event)
    requires
        quiet(e),
    ensures
        quietly(before, before.push(e)),
{
    assert(before.push(e).take(before.len() as int) =~= before);
}

pub proof fn lemma_quietly_same(before: Seq<Event>)
    ensures
        quietly(before, before),
{
    assert(before.take(before.len() as int) =~= before);
}

/// One run of a command is quiet.
pub proof fn lemma_one_run_quietly(before: Seq<Event>, after: Seq<Event>, argv: Seq<Seq<char>>, cwd: Option<Seq<char>>)
    requires
        one_run(before, after, argv, cwd),
    ensures
        quietly(before, after),
{
    lemma_quietly_push(before, after.last());
}

/// `after` is `before` with more requests after it, none of them opening a
/// picker, and none handing the terminal over but the last.
pub open spec fn ends_calmly(before: Seq<Event>, after: Seq<Event>) -> bool {
    &&& extends(before, after)
    &&& forall|j: int| before.len() <= j < after.len() - 1 ==> quiet(#[trigger] after[j])
    &&& after.len() > before.len() ==> !(after.last() is Picked)
}

pub proof fn lemma_quietly_ends_calmly(before: Seq<Event>, after: Seq<Event>)
    requires
        quietly(before, after),
    ensures
        ends_calmly(before, after),
{
    if after.len() > before.len() {
        assert(quiet(after[after.len() - 1]));
    }
}

pub proof fn lemma_handed_ends_calmly(before: Seq<Event>, mid: Seq<Event>, e: Event)
    requires
        quietly(before, mid),
        e is Handed,
    ensures
        ends_calmly(before, mid.push(e)),
{
    assert(mid.push(e).take(mid.len() as int) =~= mid);
    lemma_extends_trans(before, mid, mid.push(e));
    assert forall|j: int| before.len() <= j < mid.push(e).len() - 1 implies quiet(#[trigger] mid.push(e)[j]) by {
        assert(mid.push(e)[j] == mid[j]);
    }
}

/// A request that puts a question to the developer.
pub open spec fn asks(e: Event) -> bool {
    e is Typed || e is Selected || e is Confirmed || e is Picked
}

/// `after` is `before` with more requests after it, none of them a question.
pub open spec fn asks_nothing(before: Seq<Event>, after: Seq<Event>) -> bool {
    &&& extends(before, after)
    &&& forall|j: int| before.len() <= j < after.len() ==> !asks(#[trigger] after[j])
}

pub proof fn lemma_asks_nothing_trans(a: Seq<Event>, b: Seq<Event>, c: Seq<Event>)
    requires
        asks_nothing(a, b),
        asks_nothing(b, c),
    ensures
        asks_nothing(a, c),
{
    lemma_extends_trans(a, b, c);
    assert forall|j: int| a.len() <= j < c.len() implies !asks(#[trigger] c[j]) by {
        if j < b.len() {
            assert(c.take(b.len() as int)[j] == c[j]);
            assert(b[j] == c[j]);
        }
    }
}

pub proof fn lemma_asks_nothing_push(before: Seq<Event>, e: Event)
    requires
        !asks(e),
    ensures
        asks_nothing(before, before.push(e)),
{
    assert(before.push(e).take(before.len() as int) =~= before);
}

pub proof fn lemma_asks_nothing_same(before: Seq<Event>)
    ensures
        asks_nothing(before, before),
{
    assert(before.take(before.len() as int) =~= before);
}

/// The previews handed to `pick`, as characters.
pub open spec fn panels(previews: Seq<Vec<String>>) -> Seq<Seq<Seq<char>>> {
    previews.map_values(|p: Vec<String>| texts(p@))
}

/// Everything impure: process execution, the filesystem, prompts, the clock
/// and the terminal.
///
/// Its model is the record of what it was asked to do ([`Host::events`]),
/// each request with the arguments it was handed and what came back, and
/// what its reads give: the contracts of the functions that drive a host are
/// stated over these, for a host that [`Host::obeys_model`].
pub trait Host: Sized {
    /// Whether this host keeps the model below and its methods answer to it.
    ///
    /// Every clause stated over the model holds under this condition only. A
    /// host that keeps no model — the real one, outside this library, which
    /// cannot give these functions a body — has the defaults, and no contract
    /// says anything of it; the fake keeps the model, and the contracts stated
    /// over it are what its tests check.
    open spec fn obeys_model() -> bool {
        false
    }

    /// Every request that changed or could change the world, in order.
    open spec fn events(&self) -> Seq<Event> {
        Seq::empty()
    }

    /// What reading the file at `path` gives.
    open spec fn stored(&self, path: Seq<char>) -> Result<Option<Seq<char>>, Error> {
        Err(Error::Aborted)
    }

    /// Whether something exists at `path`.
    open spec fn present_at(&self, path: Seq<char>) -> bool {
        false
    }

    /// `dirs` is what walking `root` to `max_depth` gives.
    open spec fn walked(&self, root: Seq<char>, max_depth: nat, dirs: Seq<Seq<char>>) -> bool {
        false
    }

    /// Whether a tmux client runs the tool.
    open spec fn tmux_client(&self) -> bool {
        false
    }

    /// The home directory, or why there is none.
    open spec fn home_dir_of(&self) -> Result<Seq<char>, Error> {
        Err(Error::Aborted)
    }

    /// The editor's command line.
    open spec fn editor_of(&self) -> Seq<char> {
        Seq::empty()
    }

    /// Run `argv`, optionally in `cwd`. A non-zero exit is a normal outcome
    /// reported in [`Output::status`]; `Err` means it could not be run at all.
    fn run(&mut self, argv: &[&str], cwd: Option<&str>) -> (r: Result<Output, Error>)
        ensures
            Self::obeys_model() ==> final(self).events() == old(self).events().push(Event::Ran(strs(argv@), dir_of(cwd), r)),
            Self::obeys_model() ==> forall|p: Seq<char>| #[trigger] final(self).stored(p) == old(self).stored(p),
            Self::obeys_model() ==> forall|p: Seq<char>| #[trigger] final(self).present_at(p) == old(self).present_at(p),
            Self::obeys_model() ==> forall|root: Seq<char>, d: nat, dirs: Seq<Seq<char>>|
                #[trigger] final(self).walked(root, d, dirs) == old(self).walked(root, d, dirs),
            Self::obeys_model() ==> final(self).tmux_client() == old(self).tmux_client(),
            Self::obeys_model() ==> final(self).home_dir_of() == old(self).home_dir_of(),
            Self::obeys_model() ==> final(self).editor_of() == old(self).editor_of(),
    ;

    /// Read a file, reporting absence as `Ok(None)`.
    fn read_file(&self, path: &str) -> (r: Result<Option<String>, Error>)
        ensures
            Self::obeys_model() ==> read_view(r) == self.stored(path@),
    ;

    /// Write a file, creating parent directories as needed.
    fn write_file(&mut self, path: &str, contents: &str) -> (r: Result<(), Error>)
        ensures
            Self::obeys_model() ==> final(self).events() == old(self).events().push(Event::Wrote(path@, contents@, r)),
            Self::obeys_model() ==> r is Ok ==> final(self).stored(path@) == Ok::<Option<Seq<char>>, Error>(Some(contents@)),
            Self::obeys_model() ==> forall|p: Seq<char>| p != path@ ==> #[trigger] final(self).stored(p) == old(self).stored(p),
            Self::obeys_model() ==> final(self).tmux_client() == old(self).tmux_client(),
            Self::obeys_model() ==> final(self).home_dir_of() == old(self).home_dir_of(),
            Self::obeys_model() ==> final(self).editor_of() == old(self).editor_of(),
    ;

    fn path_exists(&self, path: &str) -> (r: bool)
        ensures
            Self::obeys_model() ==> r == self.present_at(path@),
    ;

    /// Directories under `root` (inclusive) to `max_depth`, not following
    /// symlinks. Unreadable directories are skipped rather than failing.
    fn walk(&self, root: &str, max_depth: usize) -> (r: Result<Vec<String>, Error>)
        ensures
            Self::obeys_model() ==> (r matches Ok(dirs) ==> self.walked(root@, max_depth as nat, texts(dirs@))),
            Self::obeys_model() ==> r is Ok,
    ;

    /// Hand the terminal to `argv`, optionally run in `cwd`. The real host
    /// returns only on failure.
    fn exec(&mut self, argv: &[&str], cwd: Option<&str>) -> (r: Result<(), Error>)
        ensures
            Self::obeys_model() ==> final(self).events() == old(self).events().push(Event::Handed(strs(argv@), dir_of(cwd), r)),
            Self::obeys_model() ==> forall|p: Seq<char>| #[trigger] final(self).stored(p) == old(self).stored(p),
            Self::obeys_model() ==> forall|p: Seq<char>| #[trigger] final(self).present_at(p) == old(self).present_at(p),
            Self::obeys_model() ==> forall|root: Seq<char>, d: nat, dirs: Seq<Seq<char>>|
                #[trigger] final(self).walked(root, d, dirs) == old(self).walked(root, d, dirs),
            Self::obeys_model() ==> final(self).tmux_client() == old(self).tmux_client(),
            Self::obeys_model() ==> final(self).home_dir_of() == old(self).home_dir_of(),
            Self::obeys_model() ==> final(self).editor_of() == old(self).editor_of(),
    ;

    /// Choose one of `options`, returning its index.
    fn select(&mut self, message: &str, options: &[String]) -> (r: Result<usize, Error>)
        ensures
            Self::obeys_model() ==> final(self).events() == old(self).events().push(Event::Selected(message@, texts(options@), r)),
            Self::obeys_model() ==> forall|p: Seq<char>| #[trigger] final(self).stored(p) == old(self).stored(p),
            Self::obeys_model() ==> forall|p: Seq<char>| #[trigger] final(self).present_at(p) == old(self).present_at(p),
            Self::obeys_model() ==> forall|root: Seq<char>, d: nat, dirs: Seq<Seq<char>>|
                #[trigger] final(self).walked(root, d, dirs) == old(self).walked(root, d, dirs),
            Self::obeys_model() ==> final(self).tmux_client() == old(self).tmux_client(),
            Self::obeys_model() ==> final(self).home_dir_of() == old(self).home_dir_of(),
            Self::obeys_model() ==> final(self).editor_of() == old(self).editor_of(),
            r matches Ok(i) ==> i < options.len(),
    ;

    /// The picker and a row's menu: choose one of `options`, beside a panel
    /// previewing the one under the cursor, with `keys` saying what else the
    /// keys do.
    fn pick(&mut self, message: &str, options: &[String], previews: &[Vec<String>], keys: &str) -> (r: Result<Pick, Error>)
        ensures
            Self::obeys_model() ==> final(self).events() == old(self).events().push(
                Event::Picked(message@, texts(options@), panels(previews@), keys@, r),
            ),
            Self::obeys_model() ==> forall|p: Seq<char>| #[trigger] final(self).stored(p) == old(self).stored(p),
            Self::obeys_model() ==> forall|p: Seq<char>| #[trigger] final(self).present_at(p) == old(self).present_at(p),
            Self::obeys_model() ==> forall|root: Seq<char>, d: nat, dirs: Seq<Seq<char>>|
                #[trigger] final(self).walked(root, d, dirs) == old(self).walked(root, d, dirs),
            Self::obeys_model() ==> final(self).tmux_client() == old(self).tmux_client(),
            Self::obeys_model() ==> final(self).home_dir_of() == old(self).home_dir_of(),
            Self::obeys_model() ==> final(self).editor_of() == old(self).editor_of(),
            r matches Ok(Pick::Enter(i)) ==> i < options.len(),
            r matches Ok(Pick::Right(i)) ==> i < options.len(),
            r matches Ok(Pick::Tab(i)) ==> i < options.len(),
    ;

    /// Free text, pre-filled with an editable `default`.
    fn input(&mut self, message: &str, default: &str) -> (r: Result<String, Error>)
        ensures
            Self::obeys_model() ==> final(self).events() == old(self).events().push(Event::Typed(message@, default@, r)),
            Self::obeys_model() ==> forall|p: Seq<char>| #[trigger] final(self).stored(p) == old(self).stored(p),
            Self::obeys_model() ==> forall|p: Seq<char>| #[trigger] final(self).present_at(p) == old(self).present_at(p),
            Self::obeys_model() ==> forall|root: Seq<char>, d: nat, dirs: Seq<Seq<char>>|
                #[trigger] final(self).walked(root, d, dirs) == old(self).walked(root, d, dirs),
            Self::obeys_model() ==> final(self).tmux_client() == old(self).tmux_client(),
            Self::obeys_model() ==> final(self).home_dir_of() == old(self).home_dir_of(),
            Self::obeys_model() ==> final(self).editor_of() == old(self).editor_of(),
    ;

    fn confirm(&mut self, message: &str, default: bool) -> (r: Result<bool, Error>)
        ensures
            Self::obeys_model() ==> final(self).events() == old(self).events().push(Event::Confirmed(message@, default, r)),
            Self::obeys_model() ==> forall|p: Seq<char>| #[trigger] final(self).stored(p) == old(self).stored(p),
            Self::obeys_model() ==> forall|p: Seq<char>| #[trigger] final(self).present_at(p) == old(self).present_at(p),
            Self::obeys_model() ==> forall|root: Seq<char>, d: nat, dirs: Seq<Seq<char>>|
                #[trigger] final(self).walked(root, d, dirs) == old(self).walked(root, d, dirs),
            Self::obeys_model() ==> final(self).tmux_client() == old(self).tmux_client(),
            Self::obeys_model() ==> final(self).home_dir_of() == old(self).home_dir_of(),
            Self::obeys_model() ==> final(self).editor_of() == old(self).editor_of(),
    ;

    /// A line of progress where the picker will be drawn; empty clears it.
    fn status(&mut self, line: &str)
        ensures
            Self::obeys_model() ==> final(self).events() == old(self).events().push(Event::Status(line@)),
            Self::obeys_model() ==> forall|p: Seq<char>| #[trigger] final(self).stored(p) == old(self).stored(p),
            Self::obeys_model() ==> forall|p: Seq<char>| #[trigger] final(self).present_at(p) == old(self).present_at(p),
            Self::obeys_model() ==> forall|root: Seq<char>, d: nat, dirs: Seq<Seq<char>>|
                #[trigger] final(self).walked(root, d, dirs) == old(self).walked(root, d, dirs),
            Self::obeys_model() ==> final(self).tmux_client() == old(self).tmux_client(),
            Self::obeys_model() ==> final(self).home_dir_of() == old(self).home_dir_of(),
            Self::obeys_model() ==> final(self).editor_of() == old(self).editor_of(),
    ;

    /// A line for the developer to read: a warning, or why something was not
    /// done.
    fn say(&mut self, line: &str)
        ensures
            Self::obeys_model() ==> final(self).events() == old(self).events().push(Event::Said(line@)),
            Self::obeys_model() ==> forall|p: Seq<char>| #[trigger] final(self).stored(p) == old(self).stored(p),
            Self::obeys_model() ==> forall|p: Seq<char>| #[trigger] final(self).present_at(p) == old(self).present_at(p),
            Self::obeys_model() ==> forall|root: Seq<char>, d: nat, dirs: Seq<Seq<char>>|
                #[trigger] final(self).walked(root, d, dirs) == old(self).walked(root, d, dirs),
            Self::obeys_model() ==> final(self).tmux_client() == old(self).tmux_client(),
            Self::obeys_model() ==> final(self).home_dir_of() == old(self).home_dir_of(),
            Self::obeys_model() ==> final(self).editor_of() == old(self).editor_of(),
    ;

    /// Seconds since the Unix epoch.
    fn now(&self) -> u64;

    /// Whether the tool is running inside a tmux client.
    fn in_tmux(&self) -> (r: bool)
        ensures
            Self::obeys_model() ==> r == self.tmux_client(),
    ;

    /// The user's home directory, below which config and state live.
    fn home(&self) -> (r: Result<String, Error>)
        ensures
            Self::obeys_model() ==> text_view(r) == self.home_dir_of(),
    ;

    /// The terminal's width and height in cells.
    fn terminal(&self) -> (usize, usize);

    /// `$VISUAL`, else `$EDITOR`, else `vi`.
    fn editor(&self) -> (r: String)
        ensures
            Self::obeys_model() ==> r@ == self.editor_of(),
    ;
}

} // verus!
