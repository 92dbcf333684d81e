//! The line every text prompt and the picker's filter edit with.

use vibestation::line::{apply, Code, Key, Line, Step};

fn ctrl(c: char) -> Key {
    Key::ctrl(c)
}

fn alt(c: char) -> Key {
    Key::alt(c)
}

fn plain(code: Code) -> Key {
    Key::plain(code)
}

/// The line after those keys, with `|` written where the cursor ended up.
fn press(start: &str, keys: &[Key]) -> String {
    let mut line = Line::new(start);
    for key in keys {
        apply(&mut line, *key);
    }
    let mut chars = line.chars;
    chars.insert(line.cursor, '|');
    chars.into_iter().collect()
}

/// A session name is the answer these keys exist to edit, and it has the
/// separators that make word motion worth testing.
const NAME: &str = "ada/VBSN-1-init";

#[test]
fn the_emacs_keys_move_by_character_and_by_word() {
    assert_eq!(press(NAME, &[ctrl('a')]), "|ada/VBSN-1-init", "C-a");
    assert_eq!(press(NAME, &[ctrl('a'), ctrl('e')]), "ada/VBSN-1-init|");
    assert_eq!(press(NAME, &[ctrl('b'), ctrl('b')]), "ada/VBSN-1-in|it");
    assert_eq!(press(NAME, &[ctrl('a'), ctrl('f')]), "a|da/VBSN-1-init");
    assert_eq!(press(NAME, &[alt('b')]), "ada/VBSN-1-|init", "M-b");
    assert_eq!(press(NAME, &[alt('b'), alt('b')]), "ada/VBSN-|1-init");
    assert_eq!(
        press(NAME, &[ctrl('a'), alt('f'), alt('f')]),
        "ada/VBSN|-1-init",
        "M-f crosses the separator to the end of the next word"
    );
}

#[test]
fn the_emacs_keys_kill_by_word_and_to_each_end() {
    assert_eq!(press(NAME, &[ctrl('w')]), "ada/VBSN-1-|", "C-w");
    assert_eq!(press(NAME, &[ctrl('a'), alt('d')]), "|/VBSN-1-init", "M-d");
    assert_eq!(press(NAME, &[alt('b'), ctrl('k')]), "ada/VBSN-1-|", "C-k");
    assert_eq!(press(NAME, &[alt('b'), ctrl('u')]), "|init", "C-u");
    assert_eq!(press(NAME, &[ctrl('a'), ctrl('d')]), "|da/VBSN-1-init");
    assert_eq!(
        press(NAME, &[ctrl('h')]),
        "ada/VBSN-1-ini|",
        "C-h, not an h"
    );
    assert_eq!(press(NAME, &[ctrl('z')]), NAME.to_owned() + "|", "unbound");
}

#[test]
fn the_keys_inquire_already_bound_still_do_what_they_did() {

    assert_eq!(press("abc", &[plain(Code::Backspace)]), "ab|");
    assert_eq!(press("abc", &[plain(Code::Home), plain(Code::Delete)]), "|bc");
    assert_eq!(
        press("abc", &[plain(Code::Left), plain(Code::Char('X'))]),
        "abX|c"
    );
    assert_eq!(
        press("abc", &[plain(Code::Home), plain(Code::Right), plain(Code::End)]),
        "abc|"
    );
    assert_eq!(
        press(
            "a/b",
            &[Key {
                code: Code::Left,
                ctrl: true,
                alt: false,
                press: true
            }]
        ),
        "a/|b",
        "ctrl-arrows move by word, as they did"
    );
}

#[test]
fn enter_submits_and_the_cancel_keys_abort() {
    let step = |start: &str, key: Key| {
        let mut line = Line::new(start);
        line.cursor = 0;
        apply(&mut line, key)
    };

    assert_eq!(step("abc", plain(Code::Enter)), Step::Submit);
    assert_eq!(
        step("", plain(Code::Enter)),
        Step::Submit,
        "an empty line submits as itself"
    );
    assert_eq!(step("abc", plain(Code::Esc)), Step::Cancel);
    assert_eq!(step("abc", ctrl('c')), Step::Cancel);
    assert_eq!(step("abc", ctrl('g')), Step::Cancel);
    assert_eq!(
        step("", ctrl('d')),
        Step::Cancel,
        "C-d on an empty line is end of input"
    );
    assert_eq!(
        step("abc", ctrl('d')),
        Step::Continue,
        "C-d with something to delete deletes it"
    );
}

#[test]
fn typing_then_backspace_gives_the_line_back() {
    assert_eq!(
        press(NAME, &[ctrl('a'), alt('f'), plain(Code::Char('x')), plain(Code::Backspace)]),
        "ada|/VBSN-1-init"
    );
}

#[test]
fn a_released_key_does_nothing() {
    let mut line = Line::new("abc");
    let step = apply(
        &mut line,
        Key {
            code: Code::Char('x'),
            ctrl: false,
            alt: false,
            press: false,
        },
    );
    assert_eq!(step, Step::Continue);
    assert_eq!(line.text(), "abc");
}
