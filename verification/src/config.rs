//! `~/.vibestation/config.toml`: load it, or ask the one first-run question
//! and write it. Every field but the projects directory is defaulted, and the
//! file is written with a comment on each so the rest is discoverable by
//! reading it.

use vstd::prelude::*;
use crate::host::{lemma_quietly_push, lemma_quietly_same, quiet, quietly, text_view, Error, Event, Host, Output};
use crate::naming;
use crate::path;
use crate::text::{self, lines, starts_with, trim};

verus! {

#[derive(Debug, Clone, PartialEq, Eq)]
pub struct Config {
    /// Directories scanned for repositories. A list from the first version,
    /// though first run fills exactly one entry.
    pub projects_dirs: Vec<String>,
    /// Repositories added through the picker's add-manually action.
    pub extra_projects: Vec<String>,
    /// Prefix for generated session and branch names.
    pub username: String,
    /// Override for the branch new branches are cut from; detected when absent.
    pub default_branch: Option<String>,
    pub scan_depth: usize,
    pub fetch_before_branch: bool,
}

impl Default for Config {
    fn default() -> (r: Config)
        ensures
            r.projects_dirs@.len() == 0,
            r.extra_projects@.len() == 0,
            r.username@.len() == 0,
            r.default_branch is None,
            r.scan_depth == 10,
            r.fetch_before_branch,
    {
        Config {
            projects_dirs: Vec::new(),
            extra_projects: Vec::new(),
            username: String::new(),
            default_branch: None,
            scan_depth: 10,
            fetch_before_branch: true,
        }
    }
}

/// One element of a TOML array, as plain values.
#[derive(Debug)]
pub enum TomlScalar {
    Text(String),
    Integer(i64),
    Boolean(bool),
    /// A float, a date, an array or a table.
    Other,
}

/// One top-level TOML value, as plain values.
#[derive(Debug)]
pub enum TomlValue {
    Text(String),
    Integer(i64),
    Boolean(bool),
    Array(Vec<TomlScalar>),
    /// A float, a date or a table.
    Other,
}

#[verifier::external_type_specification]
#[verifier::external_body]
pub struct ExTomlValue(toml::Value);

/// What the `toml` crate reads a document as: its top-level keys and values,
/// or the message it refuses it with.
pub uninterp spec fn toml_document(text: Seq<char>) -> Result<Vec<(String, TomlValue)>, String>;

/// `toml::Table::from_str`: the document's top-level keys and values, or the
/// parser's message. What it reads is named, not stated.
#[verifier::external_body]
fn read_toml(text: &str) -> (r: Result<Vec<(String, TomlValue)>, String>)
    ensures
        r == toml_document(text@),
{
    match text.parse::<toml::Table>() {
        Ok(table) => Ok(table.into_iter().map(|(k, v)| (k, toml_value(v))).collect()),
        Err(e) => Err(e.to_string()),
    }
}

/// The conversion [`read_toml`] ends with: a `toml::Value` as a
/// [`TomlValue`], variant for variant, an array element by element.
#[verifier::external_body]
fn toml_value(value: toml::Value) -> TomlValue {
    match value {
        toml::Value::String(s) => TomlValue::Text(s),
        toml::Value::Integer(i) => TomlValue::Integer(i),
        toml::Value::Boolean(b) => TomlValue::Boolean(b),
        toml::Value::Array(a) => TomlValue::Array(a.into_iter().map(|v| match v {
            toml::Value::String(s) => TomlScalar::Text(s),
            toml::Value::Integer(i) => TomlScalar::Integer(i),
            toml::Value::Boolean(b) => TomlScalar::Boolean(b),
            _ => TomlScalar::Other,
        }).collect()),
        _ => TomlValue::Other,
    }
}

/// The value under `key`: the first, should there be two.
pub open spec fn setting(table: Seq<(String, TomlValue)>, key: Seq<char>) -> Option<TomlValue>
    decreases table.len(),
{
    if table.len() == 0 {
        None
    } else if table[0].0@ == key {
        Some(table[0].1)
    } else {
        setting(table.drop_first(), key)
    }
}

/// The strings of an array of strings, or `None` when any element is not one.
pub open spec fn strings_of(items: Seq<TomlScalar>) -> Option<Seq<Seq<char>>>
    decreases items.len(),
{
    if items.len() == 0 {
        Some(Seq::empty())
    } else {
        match (strings_of(items.drop_last()), items.last()) {
            (Some(s), TomlScalar::Text(t)) => Some(s.push(t@)),
            _ => None,
        }
    }
}

/// A list of paths: absent is empty, and anything but an array of strings is
/// refused.
pub open spec fn path_list(v: Option<TomlValue>) -> Option<Seq<Seq<char>>> {
    match v {
        None => Some(Seq::empty()),
        Some(TomlValue::Array(items)) => strings_of(items@),
        _ => None,
    }
}

/// The settings a document's table gives, field by field; the first field
/// that is not the type it must be is named instead.
pub open spec fn settings(table: Seq<(String, TomlValue)>, c: Config) -> bool {
    &&& path_list(setting(table, "projects_dirs"@)) == Some(texts_of(c.projects_dirs@))
    &&& path_list(setting(table, "extra_projects"@)) == Some(texts_of(c.extra_projects@))
    &&& match setting(table, "username"@) {
        None => c.username@.len() == 0,
        Some(TomlValue::Text(s)) => c.username@ == s@,
        _ => false,
    }
    &&& match setting(table, "default_branch"@) {
        None => c.default_branch is None,
        Some(TomlValue::Text(s)) => c.default_branch matches Some(b) && b@ == s@,
        _ => false,
    }
    &&& match setting(table, "scan_depth"@) {
        None => c.scan_depth == 10,
        Some(TomlValue::Integer(i)) => 0 <= i <= usize::MAX && c.scan_depth == i,
        _ => false,
    }
    &&& match setting(table, "fetch_before_branch"@) {
        None => c.fetch_before_branch,
        Some(TomlValue::Boolean(b)) => c.fetch_before_branch == b,
        _ => false,
    }
}

/// Whether every field of the table has the type its setting needs.
pub open spec fn well_typed(table: Seq<(String, TomlValue)>) -> bool {
    &&& path_list(setting(table, "projects_dirs"@)) is Some
    &&& path_list(setting(table, "extra_projects"@)) is Some
    &&& match setting(table, "username"@) {
        None | Some(TomlValue::Text(_)) => true,
        _ => false,
    }
    &&& match setting(table, "default_branch"@) {
        None | Some(TomlValue::Text(_)) => true,
        _ => false,
    }
    &&& match setting(table, "scan_depth"@) {
        None => true,
        Some(TomlValue::Integer(i)) => 0 <= i <= usize::MAX,
        _ => false,
    }
    &&& match setting(table, "fetch_before_branch"@) {
        None | Some(TomlValue::Boolean(_)) => true,
        _ => false,
    }
}

/// The first setting, in the order they are read, that is not what it must
/// be.
pub open spec fn ill_typed(table: Seq<(String, TomlValue)>) -> Seq<char> {
    if path_list(setting(table, "projects_dirs"@)) is None {
        "projects_dirs"@
    } else if path_list(setting(table, "extra_projects"@)) is None {
        "extra_projects"@
    } else if !(match setting(table, "username"@) {
        None | Some(TomlValue::Text(_)) => true,
        _ => false,
    }) {
        "username"@
    } else if !(match setting(table, "default_branch"@) {
        None | Some(TomlValue::Text(_)) => true,
        _ => false,
    }) {
        "default_branch"@
    } else if !(match setting(table, "scan_depth"@) {
        None => true,
        Some(TomlValue::Integer(i)) => 0 <= i <= usize::MAX,
        _ => false,
    }) {
        "scan_depth"@
    } else {
        "fetch_before_branch"@
    }
}

pub open spec fn texts_of(v: Seq<String>) -> Seq<Seq<char>> {
    v.map_values(|s: String| s@)
}

fn find_setting<'a>(table: &'a Vec<(String, TomlValue)>, key: &str) -> (r: Option<&'a TomlValue>)
    ensures
        match r {
            Some(v) => setting(table@, key@) == Some(*v),
            None => setting(table@, key@) is None,
        },
{
    let mut i: usize = 0;
    assert(table@.skip(0) == table@);
    while i < table.len()
        invariant
            i <= table.len(),
            setting(table@, key@) == setting(table@.skip(i as int), key@),
        decreases table.len() - i,
    {
        assert(table@.skip(i as int).drop_first() == table@.skip(i + 1));
        if text::same(table[i].0.as_str(), key) {
            return Some(&table[i].1);
        }
        i += 1;
    }
    None
}

fn strings_in(items: &Vec<TomlScalar>) -> (r: Option<Vec<String>>)
    ensures
        match r {
            Some(p) => strings_of(items@) == Some(texts_of(p@)),
            None => strings_of(items@) is None,
        },
{
    let mut r: Vec<String> = Vec::new();
    let mut i: usize = 0;
    while i < items.len()
        invariant
            i <= items.len(),
            strings_of(items@.take(i as int)) == Some(texts_of(r@)),
        decreases items.len() - i,
    {
        assert(items@.take(i + 1).drop_last() == items@.take(i as int));
        match &items[i] {
            TomlScalar::Text(t) => {
                let ghost r0 = texts_of(r@);
                r.push(t.clone());
                assert(texts_of(r@) == r0.push(t@));
            },
            _ => {
                proof {
                    lemma_strings_of_none(items@, i as int);
                }
                return None;
            },
        }
        i += 1;
    }
    assert(items@.take(items.len() as int) == items@);
    Some(r)
}

fn paths_in(v: Option<&TomlValue>) -> (r: Option<Vec<String>>)
    ensures
        match r {
            Some(p) => path_list(match v {
                Some(x) => Some(*x),
                None => None,
            }) == Some(texts_of(p@)),
            None => path_list(match v {
                Some(x) => Some(*x),
                None => None,
            }) is None,
        },
{
    match v {
        None => Some(Vec::new()),
        Some(TomlValue::Array(items)) => strings_in(items),
        _ => None,
    }
}

proof fn lemma_strings_of_none(items: Seq<TomlScalar>, i: int)
    requires
        0 <= i < items.len(),
        !(items[i] is Text),
    ensures
        strings_of(items) is None,
    decreases items.len(),
{
    if i < items.len() - 1 {
        lemma_strings_of_none(items.drop_last(), i);
    }
}

/// The config a document's table gives, or the name of the first setting
/// that is not what it must be.
pub fn from_table(table: &Vec<(String, TomlValue)>) -> (r: Result<Config, String>)
    ensures
        match r {
            Ok(c) => settings(table@, c) && well_typed(table@),
            Err(k) => !well_typed(table@) && k@ == ill_typed(table@),
        },
{
    let projects_dirs = match paths_in(find_setting(table, "projects_dirs")) {
        Some(p) => p,
        None => return Err(String::from_str("projects_dirs")),
    };
    let extra_projects = match paths_in(find_setting(table, "extra_projects")) {
        Some(p) => p,
        None => return Err(String::from_str("extra_projects")),
    };
    let username = match find_setting(table, "username") {
        None => String::new(),
        Some(TomlValue::Text(s)) => s.clone(),
        Some(_) => return Err(String::from_str("username")),
    };
    let default_branch = match find_setting(table, "default_branch") {
        None => None,
        Some(TomlValue::Text(s)) => Some(s.clone()),
        Some(_) => return Err(String::from_str("default_branch")),
    };
    let scan_depth: usize = match find_setting(table, "scan_depth") {
        None => 10,
        Some(TomlValue::Integer(i)) => {
            if *i < 0 {
                return Err(String::from_str("scan_depth"));
            }
            if *i as u64 > usize::MAX as u64 {
                return Err(String::from_str("scan_depth"));
            }
            *i as usize
        },
        Some(_) => return Err(String::from_str("scan_depth")),
    };
    let fetch_before_branch = match find_setting(table, "fetch_before_branch") {
        None => true,
        Some(TomlValue::Boolean(b)) => *b,
        Some(_) => return Err(String::from_str("fetch_before_branch")),
    };
    Ok(Config { projects_dirs, extra_projects, username, default_branch, scan_depth, fetch_before_branch })
}


/// A character as it goes between TOML's double quotes.
pub open spec fn escape(c: char) -> Seq<char> {
    if c == '\\' {
        seq!['\\', '\\']
    } else if c == '"' {
        seq!['\\', '"']
    } else {
        seq![c]
    }
}

pub open spec fn escaped(s: Seq<char>) -> Seq<char>
    decreases s.len(),
{
    if s.len() == 0 {
        Seq::empty()
    } else {
        escaped(s.drop_last()) + escape(s.last())
    }
}

/// A TOML basic string.
pub open spec fn quoted(s: Seq<char>) -> Seq<char> {
    seq!['"'] + escaped(s) + seq!['"']
}

/// The quoted strings, separated by `, `.
pub open spec fn quoted_items(items: Seq<Seq<char>>) -> Seq<char>
    decreases items.len(),
{
    if items.len() == 0 {
        Seq::empty()
    } else if items.len() == 1 {
        quoted(items[0])
    } else {
        quoted_items(items.drop_last()) + seq![',', ' '] + quoted(items.last())
    }
}

/// A TOML array of strings.
pub open spec fn quoted_list(items: Seq<Seq<char>>) -> Seq<char> {
    seq!['['] + quoted_items(items) + seq![']']
}

/// The `default_branch` line: the setting, or a commented example of it.
pub open spec fn branch_line(b: Option<String>) -> Seq<char> {
    match b {
        Some(b) => "default_branch = "@ + quoted(b@),
        None => "# default_branch = \"develop\""@,
    }
}

/// The file first run writes: every field, each introduced by a comment.
pub open spec fn rendered(c: Config) -> Seq<char> {
    "# vibestation configuration. Delete any field to get its default back.\n\n# Directories scanned for git repositories.\nprojects_dirs = "@
        + quoted_list(texts_of(c.projects_dirs@))
        + "\n\n# Repositories added by hand, or through the picker's add-manually action.\nextra_projects = "@
        + quoted_list(texts_of(c.extra_projects@))
        + "\n\n# Prefix for generated session and branch names: username/TICKET-description.\nusername = "@
        + quoted(c.username@)
        + "\n\n# The branch new branches are cut from. Left out, it is detected per\n# repository: origin/HEAD, then main, then master.\n"@
        + branch_line(c.default_branch)
        + "\n\n# How deep below each projects directory to look for repositories.\nscan_depth = "@
        + text::decimal(c.scan_depth as nat)
        + "\n\n# The pre-selected answer to \"fetch before branching?\".\nfetch_before_branch = "@
        + (if c.fetch_before_branch { "true"@ } else { "false"@ })
        + "\n"@
}

fn push_quoted(out: &mut String, s: &str)
    ensures
        final(out)@ == old(out)@ + quoted(s@),
{
    let v = text::chars(s);
    text::push_char(out, '"');
    let ghost start = out@;
    let mut i: usize = 0;
    while i < v.len()
        invariant
            i <= v.len(),
            v@ == s@,
            out@ == start + escaped(v@.take(i as int)),
        decreases v.len() - i,
    {
        assert(v@.take(i + 1).drop_last() == v@.take(i as int));
        let c = v[i];
        if c == '\\' {
            text::push_char(out, '\\');
            text::push_char(out, '\\');
        } else if c == '"' {
            text::push_char(out, '\\');
            text::push_char(out, '"');
        } else {
            text::push_char(out, c);
        }
        i += 1;
    }
    assert(v@.take(v.len() as int) == v@);
    text::push_char(out, '"');
}

/// `"text"`, with its backslashes and quotes escaped.
pub fn quote(s: &str) -> (r: String)
    ensures
        r@ == quoted(s@),
{
    let mut r = String::new();
    push_quoted(&mut r, s);
    r
}

fn push_quoted_list(out: &mut String, items: &Vec<String>)
    ensures
        final(out)@ == old(out)@ + quoted_list(texts_of(items@)),
{
    text::push_char(out, '[');
    let ghost start = out@;
    let mut i: usize = 0;
    while i < items.len()
        invariant
            i <= items.len(),
            out@ == start + quoted_items(texts_of(items@).take(i as int)),
        decreases items.len() - i,
    {
        assert(texts_of(items@).take(i + 1).drop_last() == texts_of(items@).take(i as int));
        if i > 0 {
            text::push_char(out, ',');
            text::push_char(out, ' ');
        }
        push_quoted(out, items[i].as_str());
        i += 1;
    }
    assert(texts_of(items@).take(items.len() as int) == texts_of(items@));
    text::push_char(out, ']');
}

/// `["/a", "/b"]`.
pub fn quote_list(items: &Vec<String>) -> (r: String)
    ensures
        r@ == quoted_list(texts_of(items@)),
{
    let mut r = String::new();
    push_quoted_list(&mut r, items);
    r
}

/// The config file's text: every setting, each after a comment saying what
/// it does.
pub fn render(config: &Config) -> (r: String)
    ensures
        r@ == rendered(*config),
{
    let mut r = String::from_str(
        "# vibestation configuration. Delete any field to get its default back.\n\n# Directories scanned for git repositories.\nprojects_dirs = ",
    );
    push_quoted_list(&mut r, &config.projects_dirs);
    text::push_str(
        &mut r,
        "\n\n# Repositories added by hand, or through the picker's add-manually action.\nextra_projects = ",
    );
    push_quoted_list(&mut r, &config.extra_projects);
    text::push_str(
        &mut r,
        "\n\n# Prefix for generated session and branch names: username/TICKET-description.\nusername = ",
    );
    push_quoted(&mut r, config.username.as_str());
    text::push_str(
        &mut r,
        "\n\n# The branch new branches are cut from. Left out, it is detected per\n# repository: origin/HEAD, then main, then master.\n",
    );
    match &config.default_branch {
        Some(b) => {
            text::push_str(&mut r, "default_branch = ");
            push_quoted(&mut r, b.as_str());
        },
        None => text::push_str(&mut r, "# default_branch = \"develop\""),
    }
    text::push_str(
        &mut r,
        "\n\n# How deep below each projects directory to look for repositories.\nscan_depth = ",
    );
    text::push_decimal(&mut r, config.scan_depth as u64);
    text::push_str(
        &mut r,
        "\n\n# The pre-selected answer to \"fetch before branching?\".\nfetch_before_branch = ",
    );
    if config.fetch_before_branch {
        text::push_str(&mut r, "true");
    } else {
        text::push_str(&mut r, "false");
    }
    text::push_str(&mut r, "\n");
    r
}

/// The first line of the parser's message, trimmed; `invalid TOML` when it
/// said nothing.
pub open spec fn first_line(message: Seq<char>) -> Seq<char> {
    let ls = lines(message);
    if ls.len() > 0 {
        trim(ls[0])
    } else {
        "invalid TOML"@
    }
}

/// What a malformed config is reported as: the file, and where in it — the
/// parser's first line, or the first setting that has the wrong type.
pub open spec fn refusal(text: Seq<char>, file: Seq<char>, message: Seq<char>) -> bool {
    match toml_document(text) {
        Err(m) => message == file + seq![':', ' '] + first_line(m@),
        Ok(t) => message == file + ": invalid "@ + ill_typed(t@),
    }
}

/// What reading `text` as the config in `file` gives: the settings it holds;
/// `Err` exactly when `toml` refuses the text or a setting has the wrong
/// type, the message then naming the file.
pub open spec fn parsed(text: Seq<char>, file: Seq<char>, r: Result<Config, Error>) -> bool {
    match r {
        Ok(c) => {
            &&& toml_document(text) is Ok
            &&& well_typed(toml_document(text)->Ok_0@)
            &&& settings(toml_document(text)->Ok_0@, c)
        },
        Err(e) => {
            &&& match toml_document(text) {
                Ok(t) => !well_typed(t@),
                Err(_) => true,
            }
            &&& (e matches Error::Failed(m) && refusal(text, file, m@))
        },
    }
}

/// The config the file's text holds.
pub fn parse(text: &str, file: &str) -> (r: Result<Config, Error>)
    ensures
        parsed(text@, file@, r),
{
    match read_toml(text) {
        Ok(table) => match from_table(&table) {
            Ok(c) => {
                assert(toml_document(text@) == Ok::<Vec<(String, TomlValue)>, String>(table));
                assert(settings(table@, c));
                assert(well_typed(table@));
                assert(toml_document(text@)->Ok_0@ == table@);
                Ok(c)
            },
            Err(key) => {
                let mut m = file.to_owned();
                text::push_str(&mut m, ": invalid ");
                text::push_str(&mut m, key.as_str());
                assert(m@ == file@ + ": invalid "@ + key@);
                assert(refusal(text@, file@, m@));
                Err(Error::Failed(m))
            },
        },
        Err(message) => {
            let ls = text::lines_of(message.as_str());
            let first = if ls.len() > 0 {
                text::string(&text::trimmed(&ls[0]))
            } else {
                String::from_str("invalid TOML")
            };
            proof {
                if ls.len() > 0 {
                    assert(text::views(ls@)[0] == ls@[0]@);
                }
            }
            let mut m = file.to_owned();
            text::push_char(&mut m, ':');
            text::push_char(&mut m, ' ');
            text::push_str(&mut m, first.as_str());
            assert(first@ == first_line(message@));
            assert(m@ == file@ + seq![':', ' '] + first_line(message@));
            assert(refusal(text@, file@, m@));
            Err(Error::Failed(m))
        },
    }
}

/// Where the config lives, below the home directory.
pub open spec fn config_file(home: Result<Seq<char>, Error>) -> Result<Seq<char>, Error> {
    match home {
        Ok(h) => Ok(path::join(h, ".vibestation/config.toml"@)),
        Err(e) => Err(e),
    }
}

/// `~/.vibestation/config.toml`.
pub fn path<H: Host>(host: &H) -> (r: Result<String, Error>)
    ensures
        H::obeys_model() ==> (text_view(r) == config_file(host.home_dir_of())),
{
    let home = host.home()?;
    Ok(path::join_paths(home.as_str(), ".vibestation/config.toml"))
}

/// A directory as typed: trimmed, and a leading `~/` resolved against `home`.
pub open spec fn expanded(home: Seq<char>, typed: Seq<char>) -> Seq<char> {
    let t = trim(typed);
    if starts_with(t, seq!['~', '/']) {
        path::join(home, t.skip(2))
    } else {
        t
    }
}

pub fn expand(home: &str, typed: &str) -> (r: String)
    ensures
        r@ == expanded(home@, typed@),
{
    let t = text::trimmed(&text::chars(typed));
    if t.len() >= 2 && t[0] == '~' && t[1] == '/' {
        assert(t@.take(2) == seq!['~', '/']);
        let rest = text::string(&text::slice(&t, 2, t.len()));
        assert(rest@ == t@.skip(2));
        path::join_paths(home, rest.as_str())
    } else {
        proof {
            if starts_with(t@, seq!['~', '/']) {
                assert(t@.take(2)[0] == '~' && t@.take(2)[1] == '/');
            }
        }
        text::string(&t)
    }
}

/// The slugified name git is configured with, else the home directory's
/// name, which on any Unix is the login name.
pub open spec fn chosen_username(configured: Option<Seq<char>>, home: Seq<char>) -> Seq<char> {
    let from_git = match configured {
        Some(name) => naming::slug(text::trim_end_char(name, '\n')),
        None => Seq::empty(),
    };
    if from_git.len() > 0 {
        from_git
    } else {
        naming::slug(path::base_name(home))
    }
}

/// Pick the username from what `git config user.name` printed, if it ran.
pub fn username_from(configured: Option<&str>, home: &str) -> (r: String)
    ensures
        r@ == chosen_username(match configured {
            Some(s) => Some(s@),
            None => None,
        }, home@),
{
    let from_git = match configured {
        Some(name) => {
            let t = text::string(&text::trimmed_end_char(&text::chars(name), '\n'));
            naming::slugify(t.as_str())
        },
        None => String::new(),
    };
    if !from_git.as_str().is_empty() {
        proof {
            assert(from_git@.len() > 0);
        }
        from_git
    } else {
        let n = crate::path::base_name_of(home);
        naming::slugify(n.as_str())
    }
}

pub open spec fn user_name_command() -> Seq<Seq<char>> {
    seq!["git"@, "config"@, "user.name"@]
}

/// The username a run of `git config user.name` leads to.
pub open spec fn username_after(res: Result<Output, Error>, home: Seq<char>) -> Seq<char> {
    match res {
        Ok(out) => chosen_username(Some(out.stdout@), home),
        Err(_) => chosen_username(None, home),
    }
}

fn username<H: Host>(host: &mut H, home: &str) -> (r: String)
    ensures
        H::obeys_model() ==> crate::host::kept(*old(host), *final(host)),
        H::obeys_model() ==> (crate::host::one_run(old(host).events(), final(host).events(), user_name_command(), None)),
        H::obeys_model() ==> (r@ == username_after(crate::host::outcome(final(host).events().last()), home@)),
{
    let argv = ["git", "config", "user.name"];
    assert(text::strs(argv@) =~= user_name_command());
    match host.run(&argv, None) {
        Ok(out) => username_from(Some(out.stdout.as_str()), home),
        Err(_) => username_from(None, home),
    }
}

/// The directories first run offers, in order of preference.
pub open spec fn candidate(i: int) -> Seq<char> {
    if i == 0 {
        "code"@
    } else if i == 1 {
        "projects"@
    } else if i == 2 {
        "src"@
    } else {
        "dev"@
    }
}

/// The first of the candidates from `i` on that exists below `home`, else
/// `~/code`.
pub open spec fn guess_from<H: Host>(host: H, home: Seq<char>, i: int) -> Seq<char>
    decreases 4 - i,
{
    if i >= 4 {
        path::join(home, "code"@)
    } else if host.present_at(path::join(home, candidate(i))) {
        path::join(home, candidate(i))
    } else {
        guess_from(host, home, i + 1)
    }
}

/// The config first run writes: the one directory the developer gave, the
/// username from git or the home directory, every other setting its default.
pub open spec fn first_config(c: Config, home: Seq<char>, answer: Seq<char>, name: Seq<char>) -> bool {
    &&& c.projects_dirs@.len() == 1
    &&& c.projects_dirs@[0]@ == expanded(home, answer)
    &&& c.extra_projects@.len() == 0
    &&& c.username@ == name
    &&& c.default_branch is None
    &&& c.scan_depth == 10
    &&& c.fetch_before_branch
}

/// What first run asks and writes: one question, the developer's name from
/// git, and the config file.
pub open spec fn first_ran<H: Host>(host: H, file: Seq<char>, before: Seq<Event>, after: Seq<Event>, r: Result<Config, Error>) -> bool {
    let n = before.len() as int;
    match host.home_dir_of() {
        Err(e) => after == before && r == Err::<Config, Error>(e),
        Ok(home) => {
            &&& after.len() > n
            &&& after.take(n) == before
            &&& after[n] matches Event::Typed(q, d, typed) && q == "Where do your projects live?"@ && d
                == guess_from(host, home, 0) && match typed {
                Err(e) => after.len() == n + 1 && r == Err::<Config, Error>(e),
                Ok(answer) => {
                    &&& after.len() == n + 3
                    &&& after[n + 1] == Event::Ran(user_name_command(), None, crate::host::outcome(after[n + 1]))
                    &&& after[n + 2] matches Event::Wrote(f, text, w) && f == file && match r {
                        Ok(c) => w is Ok && first_config(
                            c,
                            home,
                            answer@,
                            username_after(crate::host::outcome(after[n + 1]), home),
                        ) && text == rendered(c),
                        Err(e) => w == Err::<(), Error>(e),
                    }
                },
            }
        },
    }
}

fn first_run<H: Host>(host: &mut H, file: &str) -> (r: Result<Config, Error>)
    ensures
        H::obeys_model() ==> crate::host::same_place(*old(host), *final(host)),
        H::obeys_model() ==> forall|p: Seq<char>| p != file@ ==> #[trigger] final(host).stored(p) == old(host).stored(p),
        H::obeys_model() ==> (first_ran(*old(host), file@, old(host).events(), final(host).events(), r)),
{
    let ghost start = *host;
    let ghost before = host.events();
    let ghost n = before.len() as int;
    let home = host.home()?;
    let mut guess = path::join_paths(home.as_str(), "code");
    let candidates = ["code", "projects", "src", "dev"];
    assert(candidates@.map_values(|c: &str| c@) =~= seq![candidate(0), candidate(1), candidate(2), candidate(3)]);
    let mut found = false;
    let mut i: usize = 0;
    while i < 4
        invariant
            i <= 4,
            *host == start,
            H::obeys_model() ==> home@ == start.home_dir_of()->Ok_0,
            candidates@.map_values(|c: &str| c@) == seq![candidate(0), candidate(1), candidate(2), candidate(3)],
            H::obeys_model() ==> (!found ==> guess_from(start, home@, 0) == guess_from(start, home@, i as int)),
            !found ==> guess@ == path::join(home@, "code"@),
            H::obeys_model() ==> (found ==> guess@ == guess_from(start, home@, 0)),
        decreases 4 - i,
    {
        if !found {
            assert(candidates@.map_values(|c: &str| c@)[i as int] == candidates[i as int]@);
            let dir = path::join_paths(home.as_str(), candidates[i]);
            if host.path_exists(dir.as_str()) {
                guess = dir;
                found = true;
            }
        }
        i += 1;
    }
    let answer = match host.input("Where do your projects live?", guess.as_str()) {
        Ok(a) => a,
        Err(e) => {
            assert(H::obeys_model() ==> host.events().take(n) == before);
            return Err(e);
        },
    };
    let ghost asked = host.events();
    let projects_dir = expand(home.as_str(), answer.as_str());
    let mut dirs: Vec<String> = Vec::new();
    dirs.push(projects_dir);
    let config = Config {
        projects_dirs: dirs,
        extra_projects: Vec::new(),
        username: username(host, home.as_str()),
        default_branch: None,
        scan_depth: 10,
        fetch_before_branch: true,
    };
    let ghost named = host.events();
    let rendered = render(&config);
    let written = host.write_file(file, rendered.as_str());
    proof {
        if H::obeys_model() {
            assert(H::obeys_model() ==> (host.events().take(n + 1) == asked));
            assert(H::obeys_model() ==> (asked.take(n) == before));
            assert(H::obeys_model() ==> (host.events().take(n) == before));
            assert(H::obeys_model() ==> (host.events()[n] == asked[n]));
            assert(H::obeys_model() ==> (host.events()[n + 1] == named[n + 1]));
        }
    }
    match written {
        Ok(()) => Ok(config),
        Err(e) => Err(e),
    }
}

/// What [`load_or_init`] does: read the config silently when there is one,
/// run the first run when there is none.
pub open spec fn loaded<H: Host>(host: H, before: Seq<Event>, after: Seq<Event>, r: Result<Config, Error>) -> bool {
    match config_file(host.home_dir_of()) {
        Err(e) => after == before && r == Err::<Config, Error>(e),
        Ok(f) => match host.stored(f) {
            Err(e) => after == before && r == Err::<Config, Error>(e),
            Ok(Some(t)) => after == before && parsed(t, f, r),
            Ok(None) => first_ran(host, f, before, after, r),
        },
    }
}

/// Loading the config neither hands the terminal over nor opens a picker.
pub proof fn lemma_loaded_quietly<H: Host>(host: H, before: Seq<Event>, after: Seq<Event>, r: Result<Config, Error>)
    requires
        loaded(host, before, after, r),
    ensures
        quietly(before, after),
{
    let n = before.len() as int;
    if after == before {
        lemma_quietly_same(before);
    } else {
        assert(after.take(n) == before);
        assert forall|j: int| n <= j < after.len() implies quiet(#[trigger] after[j]) by {
            if j == n {
                assert(after[n] is Typed);
            } else if j == n + 1 {
                assert(after[n + 1] is Ran);
            } else {
                assert(after[n + 2] is Wrote);
            }
        }
    }
}

/// Writing the config back neither hands the terminal over nor opens a
/// picker.
pub proof fn lemma_written_back_quietly<H: Host>(host: H, before: Seq<Event>, after: Seq<Event>, c: Config, r: Result<(), Error>)
    requires
        written_back(host, before, after, c, r),
    ensures
        quietly(before, after),
{
    if after == before {
        lemma_quietly_same(before);
    } else {
        lemma_quietly_push(before, after.last());
    }
}

/// The config, asking the first-run question and writing the file when there
/// is none. Loading an existing file is silent.
pub fn load_or_init<H: Host>(host: &mut H) -> (r: Result<Config, Error>)
    ensures
        H::obeys_model() ==> crate::host::same_place(*old(host), *final(host)),
        H::obeys_model() ==> forall|p: Seq<char>| config_file(old(host).home_dir_of()) != Ok::<Seq<char>, Error>(p) ==> #[trigger] final(host).stored(p) == old(host).stored(p),
        H::obeys_model() ==> (loaded(*old(host), old(host).events(), final(host).events(), r)),
{
    let file = path(host)?;
    match host.read_file(file.as_str())? {
        Some(text) => parse(text.as_str(), file.as_str()),
        None => first_run(host, file.as_str()),
    }
}

/// Whether `p` is one of the paths.
pub fn listed_in(paths: &Vec<String>, p: &str) -> (r: bool)
    ensures
        r == texts_of(paths@).contains(p@),
{
    let mut i: usize = 0;
    while i < paths.len()
        invariant
            i <= paths.len(),
            forall|k: int| 0 <= k < i ==> paths@[k]@ != p@,
        decreases paths.len() - i,
    {
        if text::same(paths[i].as_str(), p) {
            assert(texts_of(paths@)[i as int] == p@);
            return true;
        }
        i += 1;
    }
    proof {
        if texts_of(paths@).contains(p@) {
            let k = choose|k: int| 0 <= k < paths@.len() && texts_of(paths@)[k] == p@;
            assert(paths@[k]@ == p@);
        }
    }
    false
}

/// `project` added to the manually added repositories, unless it is there.
pub fn with_extra(config: &mut Config, project: String)
    ensures
        texts_of(old(config).extra_projects@).contains(project@) ==> *final(config) == *old(config),
        !texts_of(old(config).extra_projects@).contains(project@) ==> *final(config) == (Config {
            extra_projects: final(config).extra_projects,
            ..*old(config)
        }) && final(config).extra_projects@ == old(config).extra_projects@.push(project),
{
    if !listed_in(&config.extra_projects, project.as_str()) {
        config.extra_projects.push(project);
    }
}

/// The manually added repositories without `project`.
pub fn without_extra(config: &mut Config, project: &str)
    ensures
        *final(config) == (Config { extra_projects: final(config).extra_projects, ..*old(config) }),
        forall|x: Seq<char>|
            texts_of(final(config).extra_projects@).contains(x) <==> (texts_of(
                old(config).extra_projects@,
            ).contains(x) && x != project@),
{
    let mut kept: Vec<String> = Vec::new();
    let mut i: usize = 0;
    while i < config.extra_projects.len()
        invariant
            i <= config.extra_projects.len(),
            config == old(config),
            forall|x: Seq<char>|
                texts_of(kept@).contains(x) <==> (texts_of(config.extra_projects@.take(i as int)).contains(x)
                    && x != project@),
        decreases config.extra_projects.len() - i,
    {
        let ghost k0 = kept@;
        let ghost before = config.extra_projects@.take(i as int);
        assert(config.extra_projects@.take(i + 1) == before.push(config.extra_projects@[i as int]));
        assert(texts_of(before.push(config.extra_projects@[i as int])) == texts_of(before).push(
            config.extra_projects@[i as int]@,
        ));
        let ghost e = config.extra_projects@[i as int]@;
        if !text::same(config.extra_projects[i].as_str(), project) {
            kept.push(config.extra_projects[i].clone());
            assert(texts_of(kept@) == texts_of(k0).push(e));
        }
        proof {
            assert forall|x: Seq<char>|
                texts_of(kept@).contains(x) <==> (texts_of(config.extra_projects@.take(i + 1)).contains(x)
                    && x != project@) by {
                text::lemma_push_contains(texts_of(before), e, x);
                text::lemma_push_contains(texts_of(k0), e, x);
            }
        }
        i += 1;
    }
    assert(config.extra_projects@.take(config.extra_projects.len() as int) == config.extra_projects@);
    config.extra_projects = kept;
}

/// The config written back: nothing asked first, one write of the whole
/// config to its file.
pub open spec fn written_back<H: Host>(host: H, before: Seq<Event>, after: Seq<Event>, c: Config, r: Result<(), Error>) -> bool {
    match config_file(host.home_dir_of()) {
        Err(e) => after == before && r == Err::<(), Error>(e),
        Ok(f) => after == before.push(Event::Wrote(f, rendered(c), r)),
    }
}

/// Write a repository into the config, where every later refresh will find it.
pub fn add_extra<H: Host>(host: &mut H, config: &mut Config, project: String) -> (r: Result<(), Error>)
    ensures
        H::obeys_model() ==> crate::host::same_place(*old(host), *final(host)),
        texts_of(old(config).extra_projects@).contains(project@) ==> *final(config) == *old(config),
        !texts_of(old(config).extra_projects@).contains(project@) ==> *final(config) == (Config {
            extra_projects: final(config).extra_projects,
            ..*old(config)
        }) && final(config).extra_projects@ == old(config).extra_projects@.push(project),
        H::obeys_model() ==> (written_back(*old(host), old(host).events(), final(host).events(), *final(config), r)),
{
    with_extra(config, project);
    let file = path(host)?;
    let rendered = render(config);
    host.write_file(file.as_str(), rendered.as_str())
}

/// Take a repository off the manually added ones and write the config back.
/// The repository itself is not touched.
pub fn remove_extra<H: Host>(host: &mut H, config: &mut Config, project: &str) -> (r: Result<(), Error>)
    ensures
        H::obeys_model() ==> crate::host::same_place(*old(host), *final(host)),
        *final(config) == (Config { extra_projects: final(config).extra_projects, ..*old(config) }),
        forall|x: Seq<char>|
            texts_of(final(config).extra_projects@).contains(x) <==> (texts_of(
                old(config).extra_projects@,
            ).contains(x) && x != project@),
        H::obeys_model() ==> (written_back(*old(host), old(host).events(), final(host).events(), *final(config), r)),
{
    without_extra(config, project);
    let file = path(host)?;
    let rendered = render(config);
    host.write_file(file.as_str(), rendered.as_str())
}

} // verus!
