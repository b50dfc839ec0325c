use karaconf::karabiner::ToEvent;
use karaconf::keys::{char_to_key, expand_text, key_code_only, key_event, looks_like_keycode, parse_key_expr, Layout};

fn layout() -> Layout {
    Layout::for_keyboard("qwerty-us").unwrap()
}

fn s(x: &str) -> String {
    x.to_string()
}

#[test]
fn parse_key_simple() {
    assert_eq!(parse_key_expr(&layout(), "left_arrow").unwrap(), (s("left_arrow"), vec![]));
}

#[test]
fn parse_key_with_modifier() {
    assert_eq!(parse_key_expr(&layout(), "shift+period").unwrap(), (s("period"), vec![s("shift")]));
}

#[test]
fn parse_key_multi_modifier() {
    assert_eq!(
        parse_key_expr(&layout(), "shift+option+left_arrow").unwrap(),
        (s("left_arrow"), vec![s("shift"), s("option")]),
    );
}

#[test]
fn parse_key_symbol_shifted() {
    assert_eq!(parse_key_expr(&layout(), "#").unwrap(), (s("3"), vec![s("shift")]));
}

#[test]
fn parse_key_symbol_unshifted() {
    assert_eq!(parse_key_expr(&layout(), "/").unwrap(), (s("slash"), vec![]));
}

#[test]
fn parse_key_symbol_pipe() {
    assert_eq!(parse_key_expr(&layout(), "|").unwrap(), (s("backslash"), vec![s("shift")]));
}

#[test]
fn parse_key_modifier_plus_symbol() {
    // `option+#` = option + (shift+3)
    assert_eq!(parse_key_expr(&layout(), "option+#").unwrap(), (s("3"), vec![s("shift"), s("option")]));
}

#[test]
fn parse_key_trailing_plus_is_literal_plus() {
    // `command++` = Cmd+Plus = Cmd+Shift+= on US QWERTY.
    assert_eq!(
        parse_key_expr(&layout(), "command++").unwrap(),
        (s("equal_sign"), vec![s("shift"), s("command")]),
    );
}

#[test]
fn parse_key_empty_part_errors() {
    assert!(parse_key_expr(&layout(), "command+").is_err());
    assert!(parse_key_expr(&layout(), "+command").is_err());
    assert!(parse_key_expr(&layout(), "a++b").is_err());
    assert!(parse_key_expr(&layout(), "").is_err());
}

#[test]
fn parse_key_unknown_shape_errors() {
    // A single non-ASCII char is neither a known symbol nor a valid keycode shape.
    let err = parse_key_expr(&layout(), "§").unwrap_err();
    assert!(err.contains("§"), "got: {err}");
    assert!(parse_key_expr(&layout(), "control+§").is_err());
    // 'left arrow' (with a space) doesn't match the keycode shape either.
    assert!(parse_key_expr(&layout(), "left arrow").is_err());
}

#[test]
fn char_to_key_letter() {
    assert_eq!(char_to_key(&layout(), 'a').unwrap(), (s("a"), vec![]));
}

#[test]
fn char_to_key_uppercase() {
    assert_eq!(char_to_key(&layout(), 'A').unwrap(), (s("a"), vec![s("shift")]));
}

#[test]
fn char_to_key_space() {
    assert_eq!(char_to_key(&layout(), ' ').unwrap(), (s("spacebar"), vec![]));
}

#[test]
fn char_to_key_unknown_errors() {
    assert!(char_to_key(&layout(), '→').is_err());
}

#[test]
fn expand_text_arrow() {
    assert_eq!(expand_text(&layout(), "->").unwrap().len(), 2);
}

#[test]
fn expand_text_with_special_keys() {
    assert_eq!(expand_text(&layout(), "{home}{shift+down_arrow}").unwrap().len(), 2);
}

#[test]
fn expand_text_mixed() {
    // g, i, t, spacebar, c, o, m, m, i, t = 10
    assert_eq!(expand_text(&layout(), "git{spacebar}commit").unwrap().len(), 10);
}

#[test]
fn expand_text_unclosed_brace_errors() {
    assert!(expand_text(&layout(), "hello{home").is_err());
}

#[test]
fn for_keyboard_unknown_lists_available() {
    let err = Layout::for_keyboard("nope").unwrap_err();
    assert!(err.contains("nope"));
    assert!(err.contains("qwerty-us"));
}

#[test]
fn qwerty_us_layout_has_no_symbol_conflicts() {
    let l = layout();
    for &(sym, _) in l.shifted.iter() {
        assert!(
            !l.unshifted.iter().any(|&(s, _)| s == sym),
            "{sym:?} appears in both shifted and unshifted",
        );
    }
}

// Exact error texts and further cases.

#[test]
fn for_keyboard_error_text() {
    let err = Layout::for_keyboard("azerty-fr").unwrap_err();
    assert_eq!(
        err,
        "unsupported os_layout \"azerty-fr\". Available: [\"qwerty-us\"]. Symbol shorthand (#, +, |, …) needs a known layout; on other layouts, write the underlying key directly (e.g. \"shift+4\" instead of \"$\")."
    );
}

#[test]
fn for_keyboard_known_layout_tables() {
    let l = layout();
    assert_eq!(l.unshifted.len(), 11);
    assert_eq!(l.shifted.len(), 21);
    assert_eq!(l.unshifted[0], ("-", "hyphen"));
    assert_eq!(l.shifted[11], ("+", "equal_sign"));
}

#[test]
fn resolve_symbol_unshifted_then_shifted() {
    let l = layout();
    assert_eq!(l.resolve_symbol("="), Some((s("equal_sign"), vec![])));
    assert_eq!(l.resolve_symbol("+"), Some((s("equal_sign"), vec![s("shift")])));
    assert_eq!(l.resolve_symbol("a"), None);
}

#[test]
fn parse_key_error_texts() {
    assert_eq!(parse_key_expr(&layout(), "").unwrap_err(), "empty key expression");
    assert_eq!(parse_key_expr(&layout(), "command+").unwrap_err(), "empty part in key expression \"command+\"");
    assert_eq!(
        parse_key_expr(&layout(), "left arrow").unwrap_err(),
        "unknown key \"left arrow\" in expression \"left arrow\" — not a Karabiner key code or a US-QWERTY symbol shorthand. Use a key code (e.g. 'left_arrow', 'spacebar', 'f12') or a known symbol (#, +, |, …)."
    );
}

#[test]
fn parse_key_whole_symbol_wins() {
    // "+" alone is the shifted symbol, not an empty split.
    assert_eq!(parse_key_expr(&layout(), "+").unwrap(), (s("equal_sign"), vec![s("shift")]));
}

#[test]
fn parse_key_symbol_modifier_not_repeated() {
    // `shift` is already carried by `#`; it is not added twice.
    assert_eq!(parse_key_expr(&layout(), "shift+#").unwrap(), (s("3"), vec![s("shift")]));
    assert_eq!(
        parse_key_expr(&layout(), "command+shift+#").unwrap(),
        (s("3"), vec![s("shift"), s("command")])
    );
}

#[test]
fn parse_key_modifiers_are_not_checked() {
    assert_eq!(parse_key_expr(&layout(), "hyper+a").unwrap(), (s("a"), vec![s("hyper")]));
}

#[test]
fn key_event_builds_key() {
    match key_event(&layout(), "shift+period").unwrap() {
        ToEvent::Key(k) => {
            assert_eq!(k.key_code, "period");
            assert_eq!(k.modifiers, vec![s("shift")]);
        }
        ToEvent::Variable(_) => panic!("expected a key"),
    }
    assert!(key_event(&layout(), "").is_err());
}

#[test]
fn key_code_only_refuses_modifiers() {
    assert_eq!(key_code_only(&layout(), "j").unwrap(), "j");
    assert_eq!(
        key_code_only(&layout(), "shift+j").unwrap_err(),
        "\"shift+j\" must be a plain key code (no modifiers)"
    );
    assert!(key_code_only(&layout(), "#").is_err());
}

#[test]
fn looks_like_keycode_shape() {
    assert!(looks_like_keycode("f12"));
    assert!(looks_like_keycode("Left_Arrow"));
    assert!(!looks_like_keycode(""));
    assert!(!looks_like_keycode("left-arrow"));
}

#[test]
fn char_to_key_digit_and_symbol() {
    assert_eq!(char_to_key(&layout(), '7').unwrap(), (s("7"), vec![]));
    assert_eq!(char_to_key(&layout(), 'Z').unwrap(), (s("z"), vec![s("shift")]));
    assert_eq!(char_to_key(&layout(), '>').unwrap(), (s("period"), vec![s("shift")]));
}

#[test]
fn char_to_key_error_text() {
    assert_eq!(
        char_to_key(&layout(), '→').unwrap_err(),
        "unknown character '→' in text macro — only ASCII letters/digits, space, and US-QWERTY symbols are recognized. For other keys, embed a key expression in {...} braces (e.g. {home}, {shift+down_arrow})."
    );
}

#[test]
fn expand_text_events_in_order() {
    let evs = expand_text(&layout(), "A{home}!").unwrap();
    let keys: Vec<(String, Vec<String>)> = evs
        .into_iter()
        .map(|e| match e {
            ToEvent::Key(k) => (k.key_code, k.modifiers),
            ToEvent::Variable(_) => panic!("expected keys"),
        })
        .collect();
    assert_eq!(
        keys,
        vec![(s("a"), vec![s("shift")]), (s("home"), vec![]), (s("1"), vec![s("shift")])]
    );
}

#[test]
fn expand_text_error_texts() {
    assert_eq!(expand_text(&layout(), "hello{home").unwrap_err(), "unclosed '{' in text macro: \"hello{home\"");
    assert_eq!(expand_text(&layout(), "{}").unwrap_err(), "empty key expression");
    assert_eq!(expand_text(&layout(), "").unwrap().len(), 0);
}

#[test]
fn expand_text_plain_text_one_event_per_char() {
    let text = "Hello, world!";
    assert_eq!(expand_text(&layout(), text).unwrap().len(), text.chars().count());
}
