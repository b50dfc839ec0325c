use karaconf::config::{LayerValue, MacroDef, Profile, Settings};
use karaconf::karabiner::{copy_events, copy_strings, Condition, Manipulator, ToEvent};

fn s(x: &str) -> String {
    x.to_string()
}

#[test]
fn from_key_is_a_basic_manipulator_that_does_nothing() {
    let m = Manipulator::from_key("caps_lock");
    assert_eq!(m.type_, "basic");
    assert_eq!(m.from.key_code, "caps_lock");
    assert!(m.from.simultaneous.is_empty());
    assert_eq!(m.from.modifiers.optional, vec![s("any")]);
    assert!(m.to.is_empty() && m.to_if_alone.is_empty() && m.to_after_key_up.is_empty());
    assert!(m.parameters.is_none() && m.conditions.is_empty());
}

#[test]
fn from_chord_has_no_single_key() {
    let m = Manipulator::from_chord(vec![s("j"), s("k")]);
    assert_eq!(m.from.key_code, "");
    assert_eq!(m.from.simultaneous, vec![s("j"), s("k")]);
    assert_eq!(m.from.modifiers.optional, vec![s("any")]);
}

#[test]
fn set_var_and_variable_if() {
    match ToEvent::set_var("layer_nav", 1) {
        ToEvent::Variable(v) => {
            assert_eq!(v.set_variable.name, "layer_nav");
            assert_eq!(v.set_variable.value, 1);
        }
        ToEvent::Key(_) => panic!("expected a variable"),
    }
    let c = Condition::variable_if("layer_nav", 1);
    assert_eq!(c.type_, "variable_if");
    assert_eq!(c.name, "layer_nav");
    assert_eq!(c.value, 1);
}

#[test]
fn copies_keep_contents() {
    let evs = vec![ToEvent::set_var("a", 0), ToEvent::set_var("b", 1)];
    let copy = copy_events(&evs);
    assert_eq!(copy.len(), 2);
    match &copy[1] {
        ToEvent::Variable(v) => assert_eq!((v.set_variable.name.as_str(), v.set_variable.value), ("b", 1)),
        ToEvent::Key(_) => panic!("expected a variable"),
    }
    assert_eq!(copy_strings(&vec![s("x"), s("y")]), vec![s("x"), s("y")]);
}

#[test]
fn default_settings() {
    let st = Settings::default();
    assert_eq!(st.os_layout, "qwerty-us");
    assert_eq!(st.tap_time, 100);
    assert_eq!(st.combo_time, 50);
    let p = Profile::default();
    assert!(p.macros.is_empty() && p.layers.is_empty());
    assert_eq!(p.settings.tap_time, 100);
}

#[test]
fn well_formed_profiles_have_ascending_unique_names() {
    let mut p = Profile::default();
    assert!(p.well_formed());
    p.macros = vec![(s("a"), MacroDef::Text(s("x"))), (s("b"), MacroDef::Text(s("y")))];
    p.layers = vec![
        (s("base"), vec![(s("a"), LayerValue::Simple(s("b"))), (s("a+b"), LayerValue::Simple(s("c")))]),
        (s("nav"), vec![]),
    ];
    assert!(p.well_formed());
    p.layers.swap(0, 1);
    assert!(!p.well_formed());
    p.layers.swap(0, 1);
    p.macros.push((s("b"), MacroDef::Text(s("z"))));
    assert!(!p.well_formed());
    p.macros.pop();
    p.layers[0].1.swap(0, 1);
    assert!(!p.well_formed());
}
