use karaconf::config::{LayerValue, MacroDef, Profile};
use karaconf::converter::{convert, expand_macro, expand_macros, resolve_action, layer_trigger};
use karaconf::karabiner::{Manipulator, Rule, ToEvent};
use karaconf::keys::Layout;

fn layout() -> Layout {
    Layout::for_keyboard("qwerty-us").unwrap()
}

fn s(x: &str) -> String {
    x.to_string()
}

fn simple(x: &str) -> LayerValue {
    LayerValue::Simple(s(x))
}

fn tap_hold(tap: &str, hold: &str) -> LayerValue {
    LayerValue::TapHold([s(tap), s(hold)])
}

/// A profile with default settings and the given layers (listed in
/// ascending name order, as a TOML table gives them).
fn profile(layers: Vec<(&str, Vec<(&str, LayerValue)>)>) -> Profile {
    let mut p = Profile::default();
    p.layers = layers
        .into_iter()
        .map(|(n, keys)| (s(n), keys.into_iter().map(|(k, v)| (s(k), v)).collect()))
        .collect();
    p
}

fn var_of(e: &ToEvent) -> (String, u32) {
    match e {
        ToEvent::Variable(v) => (v.set_variable.name.clone(), v.set_variable.value),
        ToEvent::Key(_) => panic!("expected a variable"),
    }
}

fn key_of(e: &ToEvent) -> (String, Vec<String>) {
    match e {
        ToEvent::Key(k) => (k.key_code.clone(), k.modifiers.clone()),
        ToEvent::Variable(_) => panic!("expected a key"),
    }
}

#[test]
fn expand_macro_repeat() {
    let events = expand_macro(&layout(), &MacroDef::Repeat { key: s("down_arrow"), repeat: 5 }).unwrap();
    assert_eq!(events.len(), 5);
}

#[test]
fn expand_macro_sequence() {
    let events = expand_macro(&layout(), &MacroDef::Sequence(vec![s("hyphen"), s("shift+period")])).unwrap();
    assert_eq!(events.len(), 2);
}

#[test]
fn simple_value_matching_layer_name_is_a_trigger() {
    let p = profile(vec![
        ("base", vec![("right_command", simple("sym"))]),
        ("sym", vec![("a", simple("="))]),
    ]);
    let rules = convert(&p).unwrap();
    // rules[1] = "Base", manipulators[0] = right_command
    let m = &rules[1].manipulators[0];
    assert_eq!(m.from.key_code, "right_command");
    assert_eq!(var_of(&m.to[0]), (s("layer_sym"), 1));
    assert_eq!(var_of(&m.to_after_key_up[0]), (s("layer_sym"), 0));
    // No tap action and no timeout: it's a pure layer trigger.
    assert!(m.to_if_alone.is_empty());
    assert!(m.parameters.is_none());
}

#[test]
fn single_char_layer_name_is_rejected() {
    let p = profile(vec![("s", vec![("a", simple("b"))])]);
    let err = convert(&p).unwrap_err();
    assert!(err.contains("'s'"));
}

#[test]
fn reserved_layer_name_is_rejected() {
    let p = profile(vec![("escape", vec![("a", simple("b"))])]);
    let err = convert(&p).unwrap_err();
    assert!(err.contains("escape"));
}

#[test]
fn tap_hold_in_non_base_layer_errors() {
    let p = profile(vec![
        ("base", vec![("tab", tap_hold("tab", "nav"))]),
        ("nav", vec![("h", tap_hold("a", "b"))]),
    ]);
    let err = convert(&p).unwrap_err();
    assert!(err.contains("tap-hold"));
}

#[test]
fn missing_macro_errors() {
    let p = profile(vec![("base", vec![("quote", simple("$does_not_exist"))])]);
    let err = convert(&p).unwrap_err();
    assert!(err.contains("does_not_exist"));
}

#[test]
fn unknown_os_layout_error_is_informative() {
    let mut p = Profile::default();
    p.settings.os_layout = s("azerty-fr");
    let err = convert(&p).unwrap_err();
    assert!(err.contains("azerty-fr"), "missing user input: {err}");
    assert!(err.contains("qwerty-us"), "missing supported list: {err}");
    assert!(err.contains("shift+4"), "missing workaround example: {err}");
}

fn check_basic(m: &Manipulator, key: &str) {
    assert_eq!(m.type_, "basic");
    assert_eq!(m.from.key_code, key);
    assert_eq!(m.from.modifiers.optional, vec![s("any")]);
    assert!(m.from.simultaneous.is_empty());
}

#[test]
fn snapshot_full_conversion() {
    let p = profile(vec![
        ("base", vec![("caps_lock", tap_hold("escape", "left_control")), ("tab", tap_hold("tab", "nav"))]),
        ("nav", vec![("h", simple("left_arrow"))]),
    ]);
    let rules: Vec<Rule> = convert(&p).unwrap();
    assert_eq!(rules.len(), 2);

    assert_eq!(rules[0].description, "Layer: nav");
    assert_eq!(rules[0].manipulators.len(), 1);
    let h = &rules[0].manipulators[0];
    check_basic(h, "h");
    assert_eq!(h.to.len(), 1);
    assert_eq!(key_of(&h.to[0]), (s("left_arrow"), vec![]));
    assert!(h.to_if_alone.is_empty() && h.to_after_key_up.is_empty() && h.parameters.is_none());
    assert_eq!(h.conditions.len(), 1);
    assert_eq!(h.conditions[0].type_, "variable_if");
    assert_eq!(h.conditions[0].name, "layer_nav");
    assert_eq!(h.conditions[0].value, 1);

    assert_eq!(rules[1].description, "Base");
    assert_eq!(rules[1].manipulators.len(), 2);
    let caps = &rules[1].manipulators[0];
    check_basic(caps, "caps_lock");
    assert_eq!(caps.to.len(), 1);
    assert_eq!(key_of(&caps.to[0]), (s("left_control"), vec![]));
    assert_eq!(caps.to_if_alone.len(), 1);
    assert_eq!(key_of(&caps.to_if_alone[0]), (s("escape"), vec![]));
    assert!(caps.to_after_key_up.is_empty() && caps.conditions.is_empty());
    assert_eq!(caps.parameters.as_ref().unwrap().to_if_alone_timeout, Some(100));

    let tab = &rules[1].manipulators[1];
    check_basic(tab, "tab");
    assert_eq!(tab.to.len(), 1);
    assert_eq!(var_of(&tab.to[0]), (s("layer_nav"), 1));
    assert_eq!(tab.to_after_key_up.len(), 1);
    assert_eq!(var_of(&tab.to_after_key_up[0]), (s("layer_nav"), 0));
    assert_eq!(key_of(&tab.to_if_alone[0]), (s("tab"), vec![]));
    assert_eq!(tab.parameters.as_ref().unwrap().to_if_alone_timeout, Some(100));
    assert!(tab.conditions.is_empty());
}

// Further cases.

#[test]
fn expand_macro_repeat_zero_is_empty() {
    let events = expand_macro(&layout(), &MacroDef::Repeat { key: s("not a key"), repeat: 0 }).unwrap();
    assert!(events.is_empty());
    assert!(expand_macro(&layout(), &MacroDef::Repeat { key: s("not a key"), repeat: 2 }).is_err());
}

#[test]
fn expand_macro_text() {
    let events = expand_macro(&layout(), &MacroDef::Text(s("->"))).unwrap();
    assert_eq!(key_of(&events[0]), (s("hyphen"), vec![]));
    assert_eq!(key_of(&events[1]), (s("period"), vec![s("shift")]));
}

#[test]
fn expand_macros_keeps_order_and_stops_at_error() {
    let ok = expand_macros(
        &layout(),
        &vec![(s("a"), MacroDef::Text(s("x"))), (s("b"), MacroDef::Sequence(vec![s("y"), s("z")]))],
    )
    .unwrap();
    assert_eq!(ok.len(), 2);
    assert_eq!(ok[0].0, "a");
    assert_eq!(ok[0].1.len(), 1);
    assert_eq!(ok[1].0, "b");
    assert_eq!(ok[1].1.len(), 2);
    let err = expand_macros(
        &layout(),
        &vec![(s("a"), MacroDef::Text(s("{x"))), (s("b"), MacroDef::Sequence(vec![s("")]))],
    )
    .unwrap_err();
    assert_eq!(err, "unclosed '{' in text macro: \"{x\"");
}

#[test]
fn resolve_action_macro_and_key() {
    let macros = expand_macros(&layout(), &vec![(s("arrow"), MacroDef::Text(s("->")))]).unwrap();
    assert_eq!(resolve_action(&layout(), "$arrow", &macros).unwrap().len(), 2);
    assert_eq!(resolve_action(&layout(), "$nope", &macros).unwrap_err(), "macro '$nope' not found");
    let one = resolve_action(&layout(), "shift+a", &macros).unwrap();
    assert_eq!(one.len(), 1);
    assert_eq!(key_of(&one[0]), (s("a"), vec![s("shift")]));
}

#[test]
fn layer_trigger_sets_and_clears() {
    let m = layer_trigger("tab", "nav");
    check_basic(&m, "tab");
    assert_eq!(var_of(&m.to[0]), (s("layer_nav"), 1));
    assert_eq!(var_of(&m.to_after_key_up[0]), (s("layer_nav"), 0));
    assert!(m.to_if_alone.is_empty() && m.parameters.is_none() && m.conditions.is_empty());
}

#[test]
fn error_texts() {
    let p = profile(vec![("s", vec![("a", simple("b"))])]);
    assert_eq!(
        convert(&p).unwrap_err(),
        "layer name 's' shadows a Karabiner key code; rename it (e.g. 'nav', 'sym')"
    );
    let p = profile(vec![
        ("base", vec![("tab", tap_hold("tab", "nav"))]),
        ("nav", vec![("h", tap_hold("a", "b"))]),
    ]);
    assert_eq!(convert(&p).unwrap_err(), "tap-hold in non-base layer 'nav' for key 'h' is not supported");
    let p = profile(vec![("base", vec![("quote", simple("$does_not_exist"))])]);
    assert_eq!(convert(&p).unwrap_err(), "macro '$does_not_exist' not found");
}

#[test]
fn layer_names_that_do_not_shadow_pass() {
    // Two-letter names, a single non-alphanumeric character and `base` are fine.
    let p = profile(vec![
        ("-", vec![("a", simple("b"))]),
        ("base", vec![("a", simple("b"))]),
        ("nv", vec![("a", simple("b"))]),
    ]);
    let rules = convert(&p).unwrap();
    assert_eq!(rules.len(), 3);
    assert_eq!(rules[0].description, "Layer: -");
    assert_eq!(rules[1].description, "Layer: nv");
    assert_eq!(rules[2].description, "Base");
}

#[test]
fn empty_layers_give_no_rules() {
    let p = profile(vec![("base", vec![]), ("nav", vec![])]);
    assert!(convert(&p).unwrap().is_empty());
    assert!(convert(&Profile::default()).unwrap().is_empty());
}

#[test]
fn layer_rules_come_before_base_and_are_gated() {
    let mut p = profile(vec![
        ("base", vec![("a", simple("b"))]),
        ("fun", vec![("x", simple("$m"))]),
        ("sym", vec![("n", simple("!"))]),
    ]);
    p.macros = vec![(s("m"), MacroDef::Repeat { key: s("down_arrow"), repeat: 3 })];
    p.settings.tap_time = 250;
    let rules = convert(&p).unwrap();
    assert_eq!(rules.len(), 3);
    for (rule, layer) in rules[..2].iter().zip(["fun", "sym"]) {
        assert_eq!(rule.description, format!("Layer: {layer}"));
        for m in &rule.manipulators {
            assert_eq!(m.conditions.len(), 1);
            assert_eq!(m.conditions[0].name, format!("layer_{layer}"));
        }
    }
    assert_eq!(rules[0].manipulators[0].to.len(), 3);
    assert_eq!(rules[2].description, "Base");
    assert!(rules[2].manipulators.iter().all(|m| m.conditions.is_empty()));
}

#[test]
fn tap_hold_timeout_is_tap_time() {
    let mut p = profile(vec![("base", vec![("caps_lock", tap_hold("escape", "left_control"))])]);
    p.settings.tap_time = 175;
    let rules = convert(&p).unwrap();
    assert_eq!(rules[0].manipulators[0].parameters.as_ref().unwrap().to_if_alone_timeout, Some(175));
}

#[test]
fn base_hold_error_comes_before_tap_error() {
    let p = profile(vec![("base", vec![("k", tap_hold("bad tap", "bad hold"))])]);
    let err = convert(&p).unwrap_err();
    assert!(err.contains("\"bad hold\""), "got: {err}");
}

#[test]
fn base_value_base_is_a_key_not_a_layer() {
    let p = profile(vec![("base", vec![("a", simple("base"))])]);
    let rules = convert(&p).unwrap();
    assert_eq!(key_of(&rules[0].manipulators[0].to[0]), (s("base"), vec![]));
}

fn check_chord(m: &Manipulator, codes: &[&str], combo_time: u32) {
    assert_eq!(m.type_, "basic");
    assert_eq!(m.from.key_code, "");
    assert_eq!(m.from.simultaneous, codes.iter().map(|c| s(c)).collect::<Vec<_>>());
    assert_eq!(m.from.modifiers.optional, vec![s("any")]);
    let p = m.parameters.as_ref().unwrap();
    assert_eq!(p.simultaneous_threshold, Some(combo_time));
    assert_eq!(p.to_if_alone_timeout, None);
}

#[test]
fn combos_come_first_in_their_rule() {
    let mut p = profile(vec![
        ("base", vec![("d", simple("x")), ("d+f", simple("nav")), ("j+k", simple("escape")), ("u+i", simple("$arrow"))]),
        ("nav", vec![("h", simple("left_arrow")), ("h+j", simple("home"))]),
    ]);
    p.macros = vec![(s("arrow"), MacroDef::Text(s("->")))];
    let rules = convert(&p).unwrap();
    assert_eq!(rules.len(), 2);

    let nav = &rules[0].manipulators;
    assert_eq!(nav.len(), 2);
    check_chord(&nav[0], &["h", "j"], 50);
    assert_eq!(key_of(&nav[0].to[0]), (s("home"), vec![]));
    assert_eq!(nav[0].conditions[0].name, "layer_nav");
    check_basic(&nav[1], "h");

    let base = &rules[1].manipulators;
    assert_eq!(base.len(), 4);
    check_chord(&base[0], &["d", "f"], 50);
    assert_eq!(var_of(&base[0].to[0]), (s("layer_nav"), 1));
    assert_eq!(var_of(&base[0].to_after_key_up[0]), (s("layer_nav"), 0));
    check_chord(&base[1], &["j", "k"], 50);
    assert_eq!(key_of(&base[1].to[0]), (s("escape"), vec![]));
    check_chord(&base[2], &["u", "i"], 50);
    assert_eq!(base[2].to.len(), 2);
    check_basic(&base[3], "d");
}

#[test]
fn combo_time_sets_the_window() {
    let mut p = profile(vec![("base", vec![("j+k+l", simple("escape"))])]);
    p.settings.combo_time = 80;
    let rules = convert(&p).unwrap();
    check_chord(&rules[0].manipulators[0], &["j", "k", "l"], 80);
}

#[test]
fn combo_parts_must_be_plain_key_codes() {
    let p = profile(vec![("base", vec![("j+", simple("escape"))])]);
    assert_eq!(convert(&p).unwrap_err(), "empty key expression");
    let p = profile(vec![("base", vec![("j+#", simple("escape"))])]);
    assert_eq!(convert(&p).unwrap_err(), "\"#\" must be a plain key code (no modifiers)");
    // A symbol without modifiers names a plain key code.
    let p = profile(vec![("base", vec![("j+=", simple("escape"))])]);
    check_chord(&convert(&p).unwrap()[0].manipulators[0], &["j", "equal_sign"], 50);
}

#[test]
fn combo_cannot_be_tap_hold() {
    let p = profile(vec![("base", vec![("j+k", tap_hold("escape", "left_control"))])]);
    assert_eq!(convert(&p).unwrap_err(), "tap-hold on combo 'j+k' is not supported");
}

#[test]
fn unknown_layout_error_quotes_plain_names() {
    let mut p = Profile::default();
    p.settings.os_layout = s("dvorak");
    let err = convert(&p).unwrap_err();
    assert!(err.contains("\"dvorak\""));
    assert!(err.contains("[\"qwerty-us\"]"));
}
