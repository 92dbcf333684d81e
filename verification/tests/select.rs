//! The window's measures: the page, the panel, and how its lines wrap.

use vibestation::host::Pick;
use vibestation::line::{Code, Key};
use vibestation::select::{apply, footer, frame, list_for, page_size, split, top, wrap, Ask, Step};

#[test]
fn a_long_line_wraps_at_a_space_or_mid_word_when_there_is_none() {
    assert_eq!(
        wrap("Notes: fixing the arrows", 12),
        ["Notes:", "fixing the", "arrows"]
    );
    assert_eq!(wrap("abcdefgh", 3), ["abc", "def", "gh"]);
    assert_eq!(wrap("short", 12), ["short"]);
    assert_eq!(wrap("", 12), [""]);
}

#[test]
fn the_page_fills_the_terminal_and_follows_the_cursor() {
    assert_eq!(page_size(50), 43, "a tall terminal shows 43 rows, not 7");
    assert_eq!(page_size(24), 17);
    assert_eq!(
        page_size(8),
        5,
        "floored, so a short terminal is still a list"
    );
    assert_eq!(
        page_size(0),
        5,
        "a terminal with no height does not underflow"
    );

    assert_eq!(top(0, 30, 10), 0);
    assert_eq!(top(4, 30, 10), 0, "the first half page does not scroll");
    assert_eq!(top(12, 30, 10), 7, "the cursor is held mid-page");
    assert_eq!(top(29, 30, 10), 20, "the last page is full, not half empty");
    assert_eq!(top(3, 4, 10), 0, "a list shorter than a page never scrolls");
}

#[test]
fn a_wide_terminal_gives_a_third_to_the_panel_and_a_narrow_one_none() {
    assert_eq!(split(120), (80, 34));
    assert_eq!(split(300), (236, 58), "the panel stops at 64 columns");
    assert_eq!(split(99), (99, 0));
}

#[test]
fn the_keys_are_spelt_out_under_the_window() {
    assert_eq!(
        footer(false, 3, ""),
        "Enter to select · ↑/↓ to navigate · 1-3 to choose · Esc to cancel"
    );
    assert_eq!(
        footer(true, 30, "← to refresh"),
        "Enter to select · ↑/↓ to navigate · type to filter · ← to refresh · Esc to cancel"
    );
    assert_eq!(
        footer(false, 1, ""),
        "Enter to select · ↑/↓ to navigate · 1 to choose · Esc to cancel"
    );
}

fn plain(code: Code) -> Key {
    Key::plain(code)
}

fn ctrl(c: char) -> Key {
    Key::ctrl(c)
}

fn typed(text: &str) -> Vec<Key> {
    text.chars().map(|c| plain(Code::Char(c))).collect()
}

fn options() -> Vec<String> {
    ["ada/VBSN-4-picker", "notes-scratch", "api", "vibestation"]
        .map(String::from)
        .to_vec()
}

fn ask(options: &[String]) -> Ask {
    Ask {
        message: String::new(),
        options: options.to_vec(),
        previews: Vec::new(),
        keys: String::new(),
        filter: false,
        arrows: false,
        cursor: 0,
    }
}

/// The picker: filtered, with the arrows and Tab bound.
fn picker(options: &[String]) -> Ask {
    Ask {
        filter: true,
        arrows: true,
        ..ask(options)
    }
}

/// The step the last of `keys` ended on.
fn press_at(ask: &Ask, keys: &[Key]) -> Step {
    let mut list = list_for(ask);
    let mut step = Step::Continue;
    for key in keys {
        step = apply(&mut list, ask, *key, 2);
    }
    step
}

fn press(keys: &[Key]) -> Step {
    press_at(&picker(&options()), keys)
}

/// The window as text, shades dropped.
fn text(ask: &Ask, keys: &[Key], width: usize) -> Vec<String> {
    let mut list = list_for(ask);
    for key in keys {
        apply(&mut list, ask, *key, 10);
    }
    frame(&list, ask, width, 10)
        .0
        .iter()
        .map(|line| line.iter().map(|span| span.0.as_str()).collect())
        .collect()
}

#[test]
fn enter_chooses_the_row_under_the_cursor_and_the_cursor_wraps() {

    assert_eq!(press(&[plain(Code::Enter)]), Step::Chose(Pick::Enter(0)));
    assert_eq!(
        press(&[plain(Code::Down), ctrl('n'), plain(Code::Enter)]),
        Step::Chose(Pick::Enter(2))
    );
    assert_eq!(
        press(&[plain(Code::Up), plain(Code::Enter)]),
        Step::Chose(Pick::Enter(3)),
        "up from the first row wraps to the last"
    );
    assert_eq!(
        press(&[plain(Code::End), plain(Code::Down), plain(Code::Enter)]),
        Step::Chose(Pick::Enter(0)),
        "and down from the last to the first"
    );
    assert_eq!(
        press(&[plain(Code::End), ctrl('p'), plain(Code::Home), plain(Code::Enter)]),
        Step::Chose(Pick::Enter(0))
    );
    assert_eq!(
        press(&[
            plain(Code::PageDown),
            plain(Code::PageDown),
            plain(Code::PageDown),
            plain(Code::Enter)
        ]),
        Step::Chose(Pick::Enter(3)),
        "a page stops at the end rather than wrapping"
    );
}

#[test]
fn typing_filters_and_enter_answers_with_the_original_index() {
    let mut keys = typed("vbsn");
    keys.push(plain(Code::Enter));
    assert_eq!(press(&keys), Step::Chose(Pick::Enter(0)));

    let mut keys = typed("api");
    keys.push(plain(Code::Enter));
    assert_eq!(press(&keys), Step::Chose(Pick::Enter(2)));

    let mut keys = typed("zzz");
    keys.push(plain(Code::Enter));
    assert_eq!(
        press(&keys),
        Step::Continue,
        "nothing matched, nothing chosen"
    );
}

#[test]
fn a_filter_that_matches_rows_equally_keeps_them_in_list_order() {
    let options = ["b-one", "a-one", "c-one"].map(String::from).to_vec();
    let ask = picker(&options);
    let mut list = list_for(&ask);
    for key in typed("one") {
        apply(&mut list, &ask, key, 5);
    }
    assert_eq!(list.shown, [0, 1, 2]);
}

#[test]
fn the_arrows_and_tab_choose_the_list_and_the_row() {

    assert_eq!(press(&[plain(Code::Left)]), Step::Chose(Pick::Left));
    assert_eq!(
        press(&[plain(Code::Down), plain(Code::Right)]),
        Step::Chose(Pick::Right(1))
    );
    assert_eq!(press(&[plain(Code::Down), plain(Code::Tab)]), Step::Chose(Pick::Tab(1)));

    let mut keys = typed("zzz");
    keys.push(plain(Code::Left));
    assert_eq!(press(&keys), Step::Chose(Pick::Left), "← needs no row");
    keys.pop();
    keys.push(plain(Code::Right));
    assert_eq!(press(&keys), Step::Continue, "→ does");
    keys.pop();
    keys.push(plain(Code::Tab));
    assert_eq!(press(&keys), Step::Continue, "and so does Tab");
}

#[test]
fn the_filter_edits_with_the_line_keys_and_the_cancel_keys_abort() {
    let mut keys = typed("zzz");
    keys.push(ctrl('w'));
    keys.push(plain(Code::Enter));
    assert_eq!(
        press(&keys),
        Step::Chose(Pick::Enter(0)),
        "C-w cleared the filter, so every row is back"
    );

    assert_eq!(press(&[plain(Code::Esc)]), Step::Cancel);
    assert_eq!(press(&[ctrl('c')]), Step::Cancel);
}

#[test]
fn a_numbered_list_chooses_by_digit_and_a_letter_moves_to_its_option() {
    let options = ["Join", "Kill", "Rename"].map(String::from).to_vec();
    let menu = ask(&options);

    assert_eq!(
        press_at(&menu, &[plain(Code::Char('3'))]),
        Step::Chose(Pick::Enter(2))
    );
    assert_eq!(
        press_at(&menu, &[plain(Code::Char('4'))]),
        Step::Continue,
        "no fourth option"
    );
    assert_eq!(
        press_at(&menu, &[plain(Code::Char('k'))]),
        Step::Continue,
        "a letter only moves the cursor…"
    );
    assert_eq!(
        press_at(&menu, &[plain(Code::Char('k')), plain(Code::Enter)]),
        Step::Chose(Pick::Enter(1)),
        "…for Enter to take, as `y` Enter always did"
    );
    assert_eq!(
        press_at(&menu, &[plain(Code::Left), plain(Code::Tab), plain(Code::Enter)]),
        Step::Chose(Pick::Enter(0)),
        "unbound, ← and Tab do nothing"
    );
    assert_eq!(press_at(&menu, &[plain(Code::Esc)]), Step::Cancel);

    let yes_no = ["Yes", "No"].map(String::from).to_vec();
    let confirm = Ask {
        cursor: 1,
        ..ask(&yes_no)
    };
    assert_eq!(
        press_at(&confirm, &[plain(Code::Enter)]),
        Step::Chose(Pick::Enter(1)),
        "the cursor starts on the default"
    );
    assert_eq!(
        press_at(&confirm, &[plain(Code::Char('y')), plain(Code::Enter)]),
        Step::Chose(Pick::Enter(0))
    );
}

#[test]
fn the_window_is_a_rule_the_question_the_rows_a_rule_and_the_keys() {
    let options = ["Join", "Kill"].map(String::from).to_vec();
    let menu = Ask {
        message: "ada/VBSN-4-picker".to_string(),
        keys: "← to go back".to_string(),
        arrows: true,
        ..ask(&options)
    };

    assert_eq!(
        text(&menu, &[plain(Code::Down)], 40),
        [
            "─".repeat(40).as_str(),
            "│ ada/VBSN-4-picker",
            "",
            "  1. Join",
            "❯ 2. Kill",
            "─".repeat(40).as_str(),
            "Enter to select · ↑/↓ to navigate · 1-2 ",
        ]
    );
}

#[test]
fn the_row_under_the_cursor_is_previewed_beside_the_list() {
    let options = ["one", "two"].map(String::from).to_vec();
    let ask = Ask {
        message: "Open".to_string(),
        previews: vec![vec!["first".to_string()], Vec::new()],
        ..picker(&options)
    };

    let window = text(&ask, &[], 120);
    let (left, inner) = split(120);
    assert_eq!((left, inner), (80, 34));
    assert_eq!(window[1], "│ Open  type to filter");
    assert_eq!(
        window[3],
        format!("{:<80}  ┌{}┐", "❯ one", "─".repeat(36)),
        "the panel starts where the list's width ends"
    );
    assert_eq!(window[4], format!("{:<80}  │ {:<34} │", "  two", "first"));
    assert_eq!(window[5], format!("{:<80}  └{}┘", "", "─".repeat(36)));

    let window = text(&ask, &[plain(Code::Down)], 120);
    assert_eq!(
        &window[3..5],
        ["  one", "❯ two"],
        "a row with nothing to preview has no panel"
    );
    assert_eq!(
        text(&ask, &[], 99)[3],
        "❯ one",
        "nor has a terminal too narrow for one"
    );
}

#[test]
fn each_option_is_shown_at_most_once_whatever_is_typed() {
    let ask = picker(&options());
    let mut list = list_for(&ask);
    let mut keys = typed("a");
    keys.push(plain(Code::Backspace));
    keys.extend(typed("vi"));
    for key in keys {
        apply(&mut list, &ask, key, 2);
        let mut seen = list.shown.clone();
        seen.sort();
        seen.dedup();
        assert_eq!(seen.len(), list.shown.len(), "{:?}", list.shown);
    }
    assert!(list.shown.contains(&3), "vibestation matches vi: {:?}", list.shown);
    assert!(!list.shown.contains(&2), "api does not: {:?}", list.shown);
}

#[test]
fn the_window_is_five_lines_more_than_its_page_and_no_wider_than_the_terminal() {
    let ask = picker(&options());
    for width in [20usize, 40, 80] {
        let lines = text(&ask, &typed("a"), width);
        let list = {
            let mut list = list_for(&ask);
            apply(&mut list, &ask, plain(Code::Char('a')), 10);
            list
        };
        assert_eq!(lines.len(), 5 + list.shown.len(), "{lines:?}");
        assert_eq!(lines[0], "─".repeat(width));
        assert_eq!(lines[lines.len() - 2], "─".repeat(width));
        assert_eq!(lines[2], "");
        assert!(lines[1].chars().count() <= width, "{lines:?}");
        assert!(lines[lines.len() - 1].chars().count() <= width, "{lines:?}");
    }
}
