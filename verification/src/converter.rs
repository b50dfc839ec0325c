//! Compile a `Profile` into Karabiner rules.

use vstd::prelude::*;
use crate::config::{KeysView, LayerValue, LayerValueView, MacroDef, MacroView, Profile, ProfileView};
use crate::karabiner::{
    copy_events, spec_from_chord, spec_from_key, spec_set_var, spec_variable_if, Condition, EventView,
    Manipulator, ManipulatorView, Parameters, ParametersView, Rule, RuleView, ToEvent,
};
use crate::keys::{
    assoc, events_result_view, expand_text, key_code_only, key_event, lemma_assoc_skip,
    spec_expand_text, spec_for_keyboard, spec_key_code_only, spec_key_event, split_on, split_on_plus, Layout,
    LayoutView,
};
use crate::text::{concat2, concat3, contains_text, plain_text, str_eq};

verus! {

/// Macro name -> its events, in the order the profile lists the macros.
pub type MacrosView = Seq<(Seq<char>, Seq<EventView>)>;

/// `a` in front of the items of `r`, or the error of `r`.
pub open spec fn then_prepend<T>(a: Seq<T>, r: Result<Seq<T>, Seq<char>>) -> Result<Seq<T>, Seq<char>> {
    match r {
        Ok(s) => Ok(a + s),
        Err(e) => Err(e),
    }
}

pub proof fn lemma_then_prepend_assoc<T>(a: Seq<T>, b: Seq<T>, r: Result<Seq<T>, Seq<char>>)
    ensures
        then_prepend(a, then_prepend(b, r)) == then_prepend(a + b, r),
{
    if let Ok(s) = r {
        assert(a + (b + s) =~= (a + b) + s);
    }
}

pub proof fn lemma_then_prepend_empty<T>(a: Seq<T>)
    ensures
        then_prepend(a, Ok::<Seq<T>, Seq<char>>(seq![])) == Ok::<Seq<T>, Seq<char>>(a),
{
    assert(a + seq![] =~= a);
}

pub proof fn lemma_then_prepend_nothing<T>(r: Result<Seq<T>, Seq<char>>)
    ensures
        then_prepend(seq![], r) == r,
{
    if let Ok(s) = r {
        assert(Seq::<T>::empty() + s =~= s);
    }
}

/// The always-active layer; the others are gated by triggers declared here.
pub open spec fn base_layer() -> Seq<char> {
    "base"@
}

/// Karabiner variable name for a layer's active flag.
pub open spec fn spec_layer_var(name: Seq<char>) -> Seq<char> {
    "layer_"@ + name
}

/// `m` sets the layer's variable to 1 on press and to 0 on release.
pub open spec fn spec_trigger(m: ManipulatorView, layer: Seq<char>) -> ManipulatorView {
    ManipulatorView {
        to: seq![spec_set_var(spec_layer_var(layer), 1)],
        to_after_key_up: seq![spec_set_var(spec_layer_var(layer), 0)],
        ..m
    }
}

/// `key` sets the layer's variable to 1 on press and to 0 on release.
pub open spec fn spec_layer_trigger(key: Seq<char>, layer: Seq<char>) -> ManipulatorView {
    spec_trigger(spec_from_key(key), layer)
}

/// A layer-table key with `+` declares a chord of its parts.
pub open spec fn is_chord(key: Seq<char>) -> bool {
    key.contains('+')
}

/// The key code of each part of a chord, stopping at the first part that
/// is not a plain key code.
pub open spec fn spec_chord_codes(l: LayoutView, parts: Seq<Seq<char>>) -> Result<Seq<Seq<char>>, Seq<char>>
    decreases parts.len(),
{
    if parts.len() == 0 {
        Ok(seq![])
    } else {
        match spec_key_code_only(l, parts[0]) {
            Err(e) => Err(e),
            Ok(c) => then_prepend(seq![c], spec_chord_codes(l, parts.drop_first())),
        }
    }
}

/// The manipulator a layer key starts from: its single key, or the chord of
/// its `+`-separated parts, pressed within `combo_time` ms.
pub open spec fn spec_from_layer_key(l: LayoutView, key: Seq<char>, combo_time: u32) -> Result<ManipulatorView, Seq<char>> {
    if is_chord(key) {
        match spec_chord_codes(l, split_on(key, '+')) {
            Err(e) => Err(e),
            Ok(codes) => Ok(
                ManipulatorView {
                    parameters: Some(ParametersView { to_if_alone_timeout: None, simultaneous_threshold: Some(combo_time) }),
                    ..spec_from_chord(codes)
                },
            ),
        }
    } else {
        Ok(spec_from_key(key))
    }
}

pub open spec fn msg_tap_hold_chord(key: Seq<char>) -> Seq<char> {
    "tap-hold on combo '"@ + key + "' is not supported"@
}

pub open spec fn msg_macro_not_found(name: Seq<char>) -> Seq<char> {
    "macro '$"@ + name + "' not found"@
}

/// `$name` -> the events of that macro; anything else -> one key event.
pub open spec fn spec_resolve_action(l: LayoutView, action: Seq<char>, macros: MacrosView) -> Result<Seq<EventView>, Seq<char>> {
    if action.len() > 0 && action[0] == '$' {
        match assoc(macros, action.drop_first()) {
            Some(evs) => Ok(evs),
            None => Err(msg_macro_not_found(action.drop_first())),
        }
    } else {
        match spec_key_event(l, action) {
            Ok(e) => Ok(seq![e]),
            Err(x) => Err(x),
        }
    }
}

pub open spec fn msg_tap_hold_in_layer(layer: Seq<char>, key: Seq<char>) -> Seq<char> {
    "tap-hold in non-base layer '"@ + layer + "' for key '"@ + key + "' is not supported"@
}

/// A key (or chord) of a non-base layer: gated by the layer's variable;
/// tap-hold is base-only. The key is resolved before the action.
pub open spec fn spec_layer_manipulator(
    l: LayoutView,
    key: Seq<char>,
    value: LayerValueView,
    layer: Seq<char>,
    macros: MacrosView,
    combo_time: u32,
) -> Result<ManipulatorView, Seq<char>> {
    match value {
        LayerValueView::Simple(action) => match spec_from_layer_key(l, key, combo_time) {
            Err(e) => Err(e),
            Ok(from) => match spec_resolve_action(l, action, macros) {
                Ok(evs) => Ok(
                    ManipulatorView {
                        to: evs,
                        conditions: seq![spec_variable_if(spec_layer_var(layer), 1)],
                        ..from
                    },
                ),
                Err(e) => Err(e),
            },
        },
        LayerValueView::TapHold(_, _) => Err(msg_tap_hold_in_layer(layer, key)),
    }
}

/// A key (or chord) of the base layer. `Simple` is a remap, or a layer
/// trigger if it names a layer; `[tap, hold]` is tap-hold, where `hold` may
/// be a key or a layer name, resolved before the tap side. A chord cannot be
/// tap-hold.
pub open spec fn spec_base_manipulator(
    l: LayoutView,
    key: Seq<char>,
    value: LayerValueView,
    layer_names: Seq<Seq<char>>,
    macros: MacrosView,
    tap_time: u32,
    combo_time: u32,
) -> Result<ManipulatorView, Seq<char>> {
    match value {
        LayerValueView::Simple(action) => match spec_from_layer_key(l, key, combo_time) {
            Err(e) => Err(e),
            Ok(from) => if layer_names.contains(action) {
                Ok(spec_trigger(from, action))
            } else {
                match spec_resolve_action(l, action, macros) {
                    Ok(evs) => Ok(ManipulatorView { to: evs, ..from }),
                    Err(e) => Err(e),
                }
            },
        },
        LayerValueView::TapHold(tap, hold) => if is_chord(key) {
            Err(msg_tap_hold_chord(key))
        } else {
            let base = if layer_names.contains(hold) {
                Ok(spec_layer_trigger(key, hold))
            } else {
                match spec_key_event(l, hold) {
                    Ok(e) => Ok(ManipulatorView { to: seq![e], ..spec_from_key(key) }),
                    Err(x) => Err(x),
                }
            };
            match base {
                Err(e) => Err(e),
                Ok(b) => match spec_key_event(l, tap) {
                    Err(e) => Err(e),
                    Ok(t) => Ok(
                        ManipulatorView {
                            to_if_alone: seq![t],
                            parameters: Some(ParametersView { to_if_alone_timeout: Some(tap_time), simultaneous_threshold: None }),
                            ..b
                        },
                    ),
                },
            }
        },
    }
}

/// Key events for each step, stopping at the first that fails.
pub open spec fn spec_key_events(l: LayoutView, steps: Seq<Seq<char>>) -> Result<Seq<EventView>, Seq<char>>
    decreases steps.len(),
{
    if steps.len() == 0 {
        Ok(seq![])
    } else {
        match spec_key_event(l, steps[0]) {
            Err(e) => Err(e),
            Ok(ev) => then_prepend(seq![ev], spec_key_events(l, steps.drop_first())),
        }
    }
}

/// The events of one macro. A repeat of 0 is empty, whatever its key.
pub open spec fn spec_expand_macro(l: LayoutView, def: MacroView) -> Result<Seq<EventView>, Seq<char>> {
    match def {
        MacroView::Text(text) => spec_expand_text(l, text),
        MacroView::Sequence(steps) => spec_key_events(l, steps),
        MacroView::Repeat { key, repeat } => if repeat == 0 {
            Ok(seq![])
        } else {
            match spec_key_event(l, key) {
                Ok(e) => Ok(Seq::new(repeat as nat, |i: int| e)),
                Err(x) => Err(x),
            }
        },
    }
}

/// Every macro expanded, in order, stopping at the first that fails.
pub open spec fn spec_expand_macros(l: LayoutView, ms: Seq<(Seq<char>, MacroView)>) -> Result<MacrosView, Seq<char>>
    decreases ms.len(),
{
    if ms.len() == 0 {
        Ok(seq![])
    } else {
        match spec_expand_macro(l, ms[0].1) {
            Err(e) => Err(e),
            Ok(evs) => then_prepend(seq![(ms[0].0, evs)], spec_expand_macros(l, ms.drop_first())),
        }
    }
}

/// Manipulators split into chords and single keys, each in key order.
pub type Split = (Seq<ManipulatorView>, Seq<ManipulatorView>);

/// `m` in front of the chords (if `chord`) or of the single keys of `r`.
pub open spec fn then_add(m: ManipulatorView, chord: bool, r: Result<Split, Seq<char>>) -> Result<Split, Seq<char>> {
    match r {
        Ok(p) => if chord {
            Ok((seq![m] + p.0, p.1))
        } else {
            Ok((p.0, seq![m] + p.1))
        },
        Err(e) => Err(e),
    }
}

/// `a` in front of the chords and `b` in front of the single keys of `r`.
pub open spec fn then_join(a: Seq<ManipulatorView>, b: Seq<ManipulatorView>, r: Result<Split, Seq<char>>) -> Result<Split, Seq<char>> {
    match r {
        Ok(p) => Ok((a + p.0, b + p.1)),
        Err(e) => Err(e),
    }
}

/// Chords first, so each wins over its parts' single keys inside its window.
pub open spec fn chords_first(p: Split) -> Seq<ManipulatorView> {
    p.0 + p.1
}

/// The manipulators of a non-base layer, stopping at the first key that fails.
pub open spec fn spec_layer_keys(l: LayoutView, layer: Seq<char>, keys: KeysView, macros: MacrosView, combo_time: u32) -> Result<Split, Seq<char>>
    decreases keys.len(),
{
    if keys.len() == 0 {
        Ok((seq![], seq![]))
    } else {
        match spec_layer_manipulator(l, keys[0].0, keys[0].1, layer, macros, combo_time) {
            Err(e) => Err(e),
            Ok(m) => then_add(m, is_chord(keys[0].0), spec_layer_keys(l, layer, keys.drop_first(), macros, combo_time)),
        }
    }
}

/// The manipulators of the base layer, stopping at the first key that fails.
pub open spec fn spec_base_keys(
    l: LayoutView,
    keys: KeysView,
    layer_names: Seq<Seq<char>>,
    macros: MacrosView,
    tap_time: u32,
    combo_time: u32,
) -> Result<Split, Seq<char>>
    decreases keys.len(),
{
    if keys.len() == 0 {
        Ok((seq![], seq![]))
    } else {
        match spec_base_manipulator(l, keys[0].0, keys[0].1, layer_names, macros, tap_time, combo_time) {
            Err(e) => Err(e),
            Ok(m) => then_add(m, is_chord(keys[0].0), spec_base_keys(l, keys.drop_first(), layer_names, macros, tap_time, combo_time)),
        }
    }
}

/// One rule per non-base layer that has keys, in layer order.
pub open spec fn spec_layer_rules(l: LayoutView, layers: Seq<(Seq<char>, KeysView)>, macros: MacrosView, combo_time: u32) -> Result<Seq<RuleView>, Seq<char>>
    decreases layers.len(),
{
    if layers.len() == 0 {
        Ok(seq![])
    } else if layers[0].0 == base_layer() {
        spec_layer_rules(l, layers.drop_first(), macros, combo_time)
    } else {
        match spec_layer_keys(l, layers[0].0, layers[0].1, macros, combo_time) {
            Err(e) => Err(e),
            Ok(p) => then_prepend(
                if chords_first(p).len() == 0 {
                    seq![]
                } else {
                    seq![RuleView { description: "Layer: "@ + layers[0].0, manipulators: chords_first(p) }]
                },
                spec_layer_rules(l, layers.drop_first(), macros, combo_time),
            ),
        }
    }
}

/// The names of the layers other than `base`, in order.
pub open spec fn spec_layer_names(layers: Seq<(Seq<char>, KeysView)>) -> Seq<Seq<char>>
    decreases layers.len(),
{
    if layers.len() == 0 {
        seq![]
    } else if layers[0].0 == base_layer() {
        spec_layer_names(layers.drop_first())
    } else {
        seq![layers[0].0] + spec_layer_names(layers.drop_first())
    }
}

/// Layer names that would shadow a Karabiner key code.
pub open spec fn reserved_layer_names() -> Seq<Seq<char>> {
    seq![
        "shift"@, "left_shift"@, "right_shift"@, "control"@, "left_control"@, "right_control"@,
        "option"@, "left_option"@, "right_option"@, "command"@, "left_command"@, "right_command"@,
        "caps_lock"@, "fn"@, "tab"@, "escape"@, "return_or_enter"@, "spacebar"@, "space"@,
        "delete_or_backspace"@, "delete_forward"@, "home"@, "end"@, "page_up"@, "page_down"@,
        "up_arrow"@, "down_arrow"@, "left_arrow"@, "right_arrow"@,
    ]
}

/// ASCII letter or digit.
pub open spec fn is_ascii_alnum(c: char) -> bool {
    ('a' <= c && c <= 'z') || ('A' <= c && c <= 'Z') || ('0' <= c && c <= '9')
}

/// A non-base layer name that a key code would shadow: one ASCII letter or
/// digit, or a reserved name.
pub open spec fn shadows_key_code(name: Seq<char>) -> bool {
    name != base_layer() && ((name.len() == 1 && is_ascii_alnum(name[0])) || reserved_layer_names().contains(name))
}

pub open spec fn msg_bad_layer_name(name: Seq<char>) -> Seq<char> {
    "layer name '"@ + name + "' shadows a Karabiner key code; rename it (e.g. 'nav', 'sym')"@
}

/// The error for the first layer name that shadows a key code, if any.
pub open spec fn spec_validate_layer_names(layers: Seq<(Seq<char>, KeysView)>) -> Option<Seq<char>>
    decreases layers.len(),
{
    if layers.len() == 0 {
        None
    } else if shadows_key_code(layers[0].0) {
        Some(msg_bad_layer_name(layers[0].0))
    } else {
        spec_validate_layer_names(layers.drop_first())
    }
}

/// The base rule, if the profile has a base layer with keys.
pub open spec fn spec_base_rule(l: LayoutView, p: ProfileView, macros: MacrosView) -> Result<Seq<RuleView>, Seq<char>> {
    match assoc(p.layers, base_layer()) {
        None => Ok(seq![]),
        Some(keys) => match spec_base_keys(l, keys, spec_layer_names(p.layers), macros, p.tap_time, p.combo_time) {
            Err(e) => Err(e),
            Ok(s) => Ok(
                if chords_first(s).len() == 0 {
                    seq![]
                } else {
                    seq![RuleView { description: "Base"@, manipulators: chords_first(s) }]
                },
            ),
        },
    }
}

/// A profile compiled to rules: check the layout, check the layer names,
/// expand the macros, compile the non-base layers (conditioned, so they
/// win first-match order), then the base layer. Within a rule, chords come
/// before single keys.
pub open spec fn spec_convert(p: ProfileView) -> Result<Seq<RuleView>, Seq<char>> {
    match spec_for_keyboard(p.os_layout) {
        Err(e) => Err(e),
        Ok(l) => match spec_validate_layer_names(p.layers) {
            Some(e) => Err(e),
            None => match spec_expand_macros(l, p.macros) {
                Err(e) => Err(e),
                Ok(macros) => match spec_layer_rules(l, p.layers, macros, p.combo_time) {
                    Err(e) => Err(e),
                    Ok(rules) => then_prepend(rules, spec_base_rule(l, p, macros)),
                },
            },
        },
    }
}

/// The view of a manipulator result.
pub open spec fn manipulator_result_view(r: Result<Manipulator, String>) -> Result<ManipulatorView, Seq<char>> {
    match r {
        Ok(m) => Ok(m.deep_view()),
        Err(e) => Err(e@),
    }
}

/// Karabiner variable name for a layer's active flag.
pub fn layer_var(name: &str) -> (r: String)
    ensures
        r@ == spec_layer_var(name@),
{
    concat2("layer_", name)
}

/// `m`, set to flip `layer_<name>` on press / release.
pub fn trigger_on(m: Manipulator, layer: &str) -> (r: Manipulator)
    ensures
        r.deep_view() == spec_trigger(m.deep_view(), layer@),
{
    let var = layer_var(layer);
    let mut r = m;
    let mut to: Vec<ToEvent> = Vec::new();
    to.push(ToEvent::set_var(var.as_str(), 1));
    let mut after: Vec<ToEvent> = Vec::new();
    after.push(ToEvent::set_var(var.as_str(), 0));
    r.to = to;
    r.to_after_key_up = after;
    assert(r.to.deep_view() =~= seq![spec_set_var(spec_layer_var(layer@), 1)]);
    assert(r.to_after_key_up.deep_view() =~= seq![spec_set_var(spec_layer_var(layer@), 0)]);
    r
}

/// Flip `layer_<name>` on press / release.
pub fn layer_trigger(key: &str, layer: &str) -> (m: Manipulator)
    ensures
        m.deep_view() == spec_layer_trigger(key@, layer@),
{
    trigger_on(Manipulator::from_key(key), layer)
}

/// The key code of each part of a chord.
pub fn chord_codes(layout: &Layout, parts: &Vec<String>) -> (r: Result<Vec<String>, String>)
    ensures
        match r {
            Ok(v) => spec_chord_codes(layout.deep_view(), parts.deep_view()) == Ok::<Seq<Seq<char>>, Seq<char>>(v.deep_view()),
            Err(e) => spec_chord_codes(layout.deep_view(), parts.deep_view()) == Err::<Seq<Seq<char>>, Seq<char>>(e@),
        },
{
    let ghost l = layout.deep_view();
    let ghost s = parts.deep_view();
    let mut codes: Vec<String> = Vec::new();
    let mut i: usize = 0;
    proof {
        assert(s.skip(0) =~= s);
        lemma_then_prepend_nothing(spec_chord_codes(l, s));
        assert(codes.deep_view() =~= Seq::<Seq<char>>::empty());
    }
    while i < parts.len()
        invariant
            i <= parts.len(),
            l == layout.deep_view(),
            s == parts.deep_view(),
            spec_chord_codes(l, s) == then_prepend(codes.deep_view(), spec_chord_codes(l, s.skip(i as int))),
        decreases parts.len() - i,
    {
        proof {
            lemma_skip_step(s, i as int);
        }
        let c = key_code_only(layout, parts[i].as_str())?;
        let ghost before = codes.deep_view();
        let ghost cv = c@;
        proof {
            lemma_then_prepend_assoc(before, seq![cv], spec_chord_codes(l, s.skip(i + 1)));
        }
        codes.push(c);
        assert(codes.deep_view() =~= before + seq![cv]);
        i += 1;
    }
    proof {
        assert(s.skip(i as int).len() == 0);
        lemma_then_prepend_empty(codes.deep_view());
    }
    Ok(codes)
}

/// Whether `s` holds a `+`.
fn has_plus(s: &str) -> (r: bool)
    ensures
        r == s@.contains('+'),
{
    let n = s.unicode_len();
    let mut i: usize = 0;
    while i < n
        invariant
            n == s@.len(),
            i <= n,
            forall|j: int| 0 <= j < i ==> s@[j] != '+',
        decreases n - i,
    {
        if s.get_char(i) == '+' {
            return true;
        }
        i += 1;
    }
    false
}

/// The manipulator a layer key starts from: its single key, or the chord
/// of its `+`-separated parts with the combo window.
pub fn from_layer_key(layout: &Layout, key: &str, combo_time: u32) -> (r: Result<Manipulator, String>)
    ensures
        manipulator_result_view(r) == spec_from_layer_key(layout.deep_view(), key@, combo_time),
{
    if has_plus(key) {
        let parts = split_on_plus(key);
        let codes = chord_codes(layout, &parts)?;
        let mut m = Manipulator::from_chord(codes);
        m.parameters = Some(Parameters { to_if_alone_timeout: None, simultaneous_threshold: Some(combo_time) });
        Ok(m)
    } else {
        Ok(Manipulator::from_key(key))
    }
}

/// A copy of the events of the first macro named `name`.
fn find_macro(macros: &Vec<(String, Vec<ToEvent>)>, name: &str) -> (r: Option<Vec<ToEvent>>)
    ensures
        match r {
            Some(evs) => assoc(macros.deep_view(), name@) == Some(evs.deep_view()),
            None => assoc(macros.deep_view(), name@) is None,
        },
{
    let mut i: usize = 0;
    assert(macros.deep_view().skip(0) =~= macros.deep_view());
    while i < macros.len()
        invariant
            i <= macros.len(),
            assoc(macros.deep_view(), name@) == assoc(macros.deep_view().skip(i as int), name@),
        decreases macros.len() - i,
    {
        proof {
            lemma_assoc_skip(macros.deep_view(), name@, i as int);
        }
        if str_eq(macros[i].0.as_str(), name) {
            return Some(copy_events(&macros[i].1));
        }
        i += 1;
    }
    assert(macros.deep_view().skip(i as int).len() == 0);
    None
}

/// `"$name"` -> macro expansion, else a single key event.
pub fn resolve_action(layout: &Layout, action: &str, macros: &Vec<(String, Vec<ToEvent>)>) -> (r: Result<Vec<ToEvent>, String>)
    ensures
        events_result_view(r) == spec_resolve_action(layout.deep_view(), action@, macros.deep_view()),
{
    let n = action.unicode_len();
    if n > 0 && action.get_char(0) == '$' {
        let name = action.substring_char(1, n);
        assert(name@ =~= action@.drop_first());
        match find_macro(macros, name) {
            Some(evs) => Ok(evs),
            None => Err(concat3("macro '$", name, "' not found")),
        }
    } else {
        let ev = key_event(layout, action)?;
        let mut evs: Vec<ToEvent> = Vec::new();
        evs.push(ev);
        assert(evs.deep_view() =~= seq![ev.deep_view()]);
        Ok(evs)
    }
}

/// A non-base-layer key (or chord), gated by `variable_if`; tap-hold is
/// base-only.
pub fn layer_manipulator(
    layout: &Layout,
    key: &str,
    value: &LayerValue,
    layer: &str,
    macros: &Vec<(String, Vec<ToEvent>)>,
    combo_time: u32,
) -> (r: Result<Manipulator, String>)
    ensures
        manipulator_result_view(r) == spec_layer_manipulator(
            layout.deep_view(),
            key@,
            value.deep_view(),
            layer@,
            macros.deep_view(),
            combo_time,
        ),
{
    match value {
        LayerValue::Simple(action) => {
            let mut m = from_layer_key(layout, key, combo_time)?;
            let to = resolve_action(layout, action.as_str(), macros)?;
            m.to = to;
            let mut conditions: Vec<Condition> = Vec::new();
            conditions.push(Condition::variable_if(layer_var(layer).as_str(), 1));
            m.conditions = conditions;
            assert(m.conditions.deep_view() =~= seq![spec_variable_if(spec_layer_var(layer@), 1)]);
            Ok(m)
        },
        LayerValue::TapHold(_) => {
            let mut msg = concat3("tap-hold in non-base layer '", layer, "' for key '");
            msg.append(key);
            msg.append("' is not supported");
            Err(msg)
        },
    }
}

/// A base-layer key (or chord). `Simple` = remap (or layer trigger if it
/// names a layer); `[tap, hold]` = tap-hold, where `hold` may be a key or a
/// layer.
pub fn base_manipulator(
    layout: &Layout,
    key: &str,
    value: &LayerValue,
    layer_names: &Vec<String>,
    macros: &Vec<(String, Vec<ToEvent>)>,
    tap_time: u32,
    combo_time: u32,
) -> (r: Result<Manipulator, String>)
    ensures
        manipulator_result_view(r) == spec_base_manipulator(
            layout.deep_view(),
            key@,
            value.deep_view(),
            layer_names.deep_view(),
            macros.deep_view(),
            tap_time,
            combo_time,
        ),
{
    match value {
        LayerValue::Simple(action) => {
            let from = from_layer_key(layout, key, combo_time)?;
            if crate::text::contains_str(layer_names, action.as_str()) {
                Ok(trigger_on(from, action.as_str()))
            } else {
                let to = resolve_action(layout, action.as_str(), macros)?;
                let mut m = from;
                m.to = to;
                Ok(m)
            }
        },
        LayerValue::TapHold(pair) => {
            if has_plus(key) {
                return Err(concat3("tap-hold on combo '", key, "' is not supported"));
            }
            let tap = &pair[0];
            let hold = &pair[1];
            // Build the hold side first, then put the tap behavior on top.
            let mut m = if crate::text::contains_str(layer_names, hold.as_str()) {
                layer_trigger(key, hold.as_str())
            } else {
                let ev = key_event(layout, hold.as_str())?;
                let mut m = Manipulator::from_key(key);
                let mut to: Vec<ToEvent> = Vec::new();
                to.push(ev);
                assert(to.deep_view() =~= seq![ev.deep_view()]);
                m.to = to;
                m
            };
            let tap_ev = key_event(layout, tap.as_str())?;
            let mut alone: Vec<ToEvent> = Vec::new();
            alone.push(tap_ev);
            assert(alone.deep_view() =~= seq![tap_ev.deep_view()]);
            m.to_if_alone = alone;
            m.parameters = Some(Parameters { to_if_alone_timeout: Some(tap_time), simultaneous_threshold: None });
            Ok(m)
        },
    }
}

/// Facts about a suffix of a sequence used when a loop takes one more step.
pub proof fn lemma_skip_step<T>(s: Seq<T>, i: int)
    requires
        0 <= i < s.len(),
    ensures
        s.skip(i).len() > 0,
        s.skip(i)[0] == s[i],
        s.skip(i).drop_first() == s.skip(i + 1),
{
    assert(s.skip(i).drop_first() =~= s.skip(i + 1));
}

/// Key events for each step, stopping at the first that fails.
pub fn key_events(layout: &Layout, steps: &Vec<String>) -> (r: Result<Vec<ToEvent>, String>)
    ensures
        events_result_view(r) == spec_key_events(layout.deep_view(), steps.deep_view()),
{
    let ghost l = layout.deep_view();
    let ghost s = steps.deep_view();
    let mut evs: Vec<ToEvent> = Vec::new();
    let mut i: usize = 0;
    proof {
        assert(s.skip(0) =~= s);
        lemma_then_prepend_nothing(spec_key_events(l, s));
        assert(evs.deep_view() =~= Seq::<EventView>::empty());
    }
    while i < steps.len()
        invariant
            i <= steps.len(),
            l == layout.deep_view(),
            s == steps.deep_view(),
            spec_key_events(l, s) == then_prepend(evs.deep_view(), spec_key_events(l, s.skip(i as int))),
        decreases steps.len() - i,
    {
        proof {
            lemma_skip_step(s, i as int);
        }
        let ev = key_event(layout, steps[i].as_str())?;
        let ghost before = evs.deep_view();
        proof {
            lemma_then_prepend_assoc(before, seq![ev.deep_view()], spec_key_events(l, s.skip(i + 1)));
        }
        evs.push(ev);
        assert(evs.deep_view() =~= before + seq![ev.deep_view()]);
        i += 1;
    }
    proof {
        assert(s.skip(i as int).len() == 0);
        lemma_then_prepend_empty(evs.deep_view());
    }
    Ok(evs)
}

/// The events of one macro.
pub fn expand_macro(layout: &Layout, def: &MacroDef) -> (r: Result<Vec<ToEvent>, String>)
    ensures
        events_result_view(r) == spec_expand_macro(layout.deep_view(), def.deep_view()),
{
    match def {
        MacroDef::Text(text) => expand_text(layout, text.as_str()),
        MacroDef::Sequence(steps) => key_events(layout, steps),
        MacroDef::Repeat { key, repeat } => {
            let ghost l = layout.deep_view();
            let mut evs: Vec<ToEvent> = Vec::new();
            let mut i: u32 = 0;
            while i < *repeat
                invariant
                    i <= *repeat,
                    l == layout.deep_view(),
                    def.deep_view() == (MacroView::Repeat { key: key@, repeat: *repeat }),
                    i == 0 ==> evs@.len() == 0,
                    i > 0 ==> spec_key_event(l, key@) is Ok,
                    i > 0 ==> evs.deep_view() =~= Seq::new(i as nat, |j: int| spec_key_event(l, key@)->Ok_0),
                decreases *repeat - i,
            {
                let ev = key_event(layout, key.as_str())?;
                let ghost before = evs.deep_view();
                evs.push(ev);
                assert(evs.deep_view() =~= Seq::new((i + 1) as nat, |j: int| spec_key_event(l, key@)->Ok_0)) by {
                    assert(evs.deep_view() =~= before.push(ev.deep_view()));
                }
                i += 1;
            }
            proof {
                if *repeat == 0 {
                    assert(evs.deep_view() =~= Seq::<EventView>::empty());
                }
            }
            Ok(evs)
        },
    }
}

/// Expand every macro, in order.
pub fn expand_macros(layout: &Layout, macros: &Vec<(String, MacroDef)>) -> (r: Result<Vec<(String, Vec<ToEvent>)>, String>)
    ensures
        match r {
            Ok(v) => spec_expand_macros(layout.deep_view(), macros.deep_view()) == Ok::<MacrosView, Seq<char>>(v.deep_view()),
            Err(e) => spec_expand_macros(layout.deep_view(), macros.deep_view()) == Err::<MacrosView, Seq<char>>(e@),
        },
{
    let ghost l = layout.deep_view();
    let ghost s = macros.deep_view();
    let mut out: Vec<(String, Vec<ToEvent>)> = Vec::new();
    let mut i: usize = 0;
    proof {
        assert(s.skip(0) =~= s);
        lemma_then_prepend_nothing(spec_expand_macros(l, s));
        assert(out.deep_view() =~= Seq::<(Seq<char>, Seq<EventView>)>::empty());
    }
    while i < macros.len()
        invariant
            i <= macros.len(),
            l == layout.deep_view(),
            s == macros.deep_view(),
            spec_expand_macros(l, s) == then_prepend(out.deep_view(), spec_expand_macros(l, s.skip(i as int))),
        decreases macros.len() - i,
    {
        proof {
            lemma_skip_step(s, i as int);
        }
        let evs = expand_macro(layout, &macros[i].1)?;
        let item = (macros[i].0.clone(), evs);
        let ghost before = out.deep_view();
        proof {
            lemma_then_prepend_assoc(before, seq![item.deep_view()], spec_expand_macros(l, s.skip(i + 1)));
        }
        out.push(item);
        assert(out.deep_view() =~= before + seq![item.deep_view()]);
        i += 1;
    }
    proof {
        assert(s.skip(i as int).len() == 0);
        lemma_then_prepend_empty(out.deep_view());
    }
    Ok(out)
}

/// The reserved layer names.
fn reserved_names() -> (r: Vec<&'static str>)
    ensures
        r.deep_view() == reserved_layer_names(),
{
    let mut r: Vec<&'static str> = Vec::new();
    r.push("shift");
    r.push("left_shift");
    r.push("right_shift");
    r.push("control");
    r.push("left_control");
    r.push("right_control");
    r.push("option");
    r.push("left_option");
    r.push("right_option");
    r.push("command");
    r.push("left_command");
    r.push("right_command");
    r.push("caps_lock");
    r.push("fn");
    r.push("tab");
    r.push("escape");
    r.push("return_or_enter");
    r.push("spacebar");
    r.push("space");
    r.push("delete_or_backspace");
    r.push("delete_forward");
    r.push("home");
    r.push("end");
    r.push("page_up");
    r.push("page_down");
    r.push("up_arrow");
    r.push("down_arrow");
    r.push("left_arrow");
    r.push("right_arrow");
    assert(r.deep_view() =~= reserved_layer_names());
    r
}

/// Whether `name` is a reserved layer name.
fn is_reserved(name: &str) -> (r: bool)
    ensures
        r == reserved_layer_names().contains(name@),
{
    let names = reserved_names();
    let mut i: usize = 0;
    while i < names.len()
        invariant
            i <= names.len(),
            names.deep_view() == reserved_layer_names(),
            forall|j: int| 0 <= j < i ==> names@[j]@ != name@,
        decreases names.len() - i,
    {
        if str_eq(names[i], name) {
            assert(names.deep_view()[i as int] == name@);
            return true;
        }
        i += 1;
    }
    assert(!reserved_layer_names().contains(name@)) by {
        if reserved_layer_names().contains(name@) {
            let k = choose|k: int| 0 <= k < names.deep_view().len() && names.deep_view()[k] == name@;
            assert(names@[k]@ == name@);
        }
    }
    false
}

/// Whether a non-base layer name would shadow a key code.
fn shadows(name: &str) -> (r: bool)
    ensures
        r == shadows_key_code(name@),
{
    if str_eq(name, "base") {
        return false;
    }
    let single = if name.unicode_len() == 1 {
        let c = name.get_char(0);
        ('a' <= c && c <= 'z') || ('A' <= c && c <= 'Z') || ('0' <= c && c <= '9')
    } else {
        false
    };
    single || is_reserved(name)
}

/// Reject layer names that shadow a Karabiner key code; the first such name,
/// in the ascending order of a well-formed profile, is reported.
pub fn validate_layer_names(profile: &Profile) -> (r: Result<(), String>)
    requires
        profile.deep_view().wf(),
    ensures
        match r {
            Ok(()) => spec_validate_layer_names(profile.deep_view().layers) is None,
            Err(e) => spec_validate_layer_names(profile.deep_view().layers) == Some(e@),
        },
{
    let ghost s = profile.deep_view().layers;
    let mut i: usize = 0;
    assert(s.skip(0) =~= s);
    while i < profile.layers.len()
        invariant
            i <= profile.layers.len(),
            s == profile.layers.deep_view(),
            spec_validate_layer_names(s) == spec_validate_layer_names(s.skip(i as int)),
        decreases profile.layers.len() - i,
    {
        proof {
            lemma_skip_step(s, i as int);
        }
        let name = profile.layers[i].0.as_str();
        if shadows(name) {
            return Err(concat3("layer name '", name, "' shadows a Karabiner key code; rename it (e.g. 'nav', 'sym')"));
        }
        i += 1;
    }
    assert(s.skip(i as int).len() == 0);
    Ok(())
}

/// The names of the non-base layers, in order.
fn layer_names(layers: &Vec<(String, Vec<(String, LayerValue)>)>) -> (r: Vec<String>)
    ensures
        r.deep_view() == spec_layer_names(layers.deep_view()),
{
    let ghost s = layers.deep_view();
    let mut names: Vec<String> = Vec::new();
    let mut i: usize = 0;
    assert(s.skip(0) =~= s);
    assert(names.deep_view() + spec_layer_names(s) =~= spec_layer_names(s));
    while i < layers.len()
        invariant
            i <= layers.len(),
            s == layers.deep_view(),
            spec_layer_names(s) == names.deep_view() + spec_layer_names(s.skip(i as int)),
        decreases layers.len() - i,
    {
        proof {
            lemma_skip_step(s, i as int);
        }
        if !str_eq(layers[i].0.as_str(), "base") {
            let ghost before = names.deep_view();
            names.push(layers[i].0.clone());
            assert(names.deep_view() =~= before.push(s[i as int].0));
            assert(before + spec_layer_names(s.skip(i as int)) =~= names.deep_view() + spec_layer_names(s.skip(i + 1)));
        }
        i += 1;
    }
    assert(s.skip(i as int).len() == 0);
    assert(names.deep_view() + seq![] =~= names.deep_view());
    names
}

pub proof fn lemma_then_join_add(
    a: Seq<ManipulatorView>,
    b: Seq<ManipulatorView>,
    m: ManipulatorView,
    chord: bool,
    r: Result<Split, Seq<char>>,
)
    ensures
        then_join(a, b, then_add(m, chord, r)) == (if chord {
            then_join(a + seq![m], b, r)
        } else {
            then_join(a, b + seq![m], r)
        }),
{
    if let Ok(p) = r {
        assert(a + (seq![m] + p.0) =~= (a + seq![m]) + p.0);
        assert(b + (seq![m] + p.1) =~= (b + seq![m]) + p.1);
    }
}

pub proof fn lemma_then_join_nothing(r: Result<Split, Seq<char>>)
    ensures
        then_join(seq![], seq![], r) == r,
{
    if let Ok(p) = r {
        assert(Seq::<ManipulatorView>::empty() + p.0 =~= p.0);
        assert(Seq::<ManipulatorView>::empty() + p.1 =~= p.1);
    }
}

pub proof fn lemma_then_join_done(a: Seq<ManipulatorView>, b: Seq<ManipulatorView>)
    ensures
        then_join(a, b, Ok::<Split, Seq<char>>((seq![], seq![]))) == Ok::<Split, Seq<char>>((a, b)),
{
    assert(a + seq![] =~= a);
    assert(b + seq![] =~= b);
}

/// Push `m` onto the chords or the single keys.
fn push_split(chords: &mut Vec<Manipulator>, singles: &mut Vec<Manipulator>, m: Manipulator, chord: bool)
    ensures
        chord ==> final(chords).deep_view() == old(chords).deep_view() + seq![m.deep_view()]
            && final(singles).deep_view() == old(singles).deep_view(),
        !chord ==> final(singles).deep_view() == old(singles).deep_view() + seq![m.deep_view()]
            && final(chords).deep_view() == old(chords).deep_view(),
{
    let ghost mv = m.deep_view();
    if chord {
        let ghost before = chords.deep_view();
        chords.push(m);
        assert(chords.deep_view() =~= before + seq![mv]);
    } else {
        let ghost before = singles.deep_view();
        singles.push(m);
        assert(singles.deep_view() =~= before + seq![mv]);
    }
}

/// The chords, then the single keys.
fn join_split(chords: Vec<Manipulator>, singles: Vec<Manipulator>) -> (r: Vec<Manipulator>)
    ensures
        r.deep_view() == chords.deep_view() + singles.deep_view(),
{
    let ghost a = chords.deep_view();
    let ghost b = singles.deep_view();
    let mut out = chords;
    let mut rest = singles;
    out.append(&mut rest);
    assert(out.deep_view() =~= a + b);
    out
}

/// The manipulators of a non-base layer: chords first, then single keys.
fn layer_keys(
    layout: &Layout,
    layer: &str,
    keys: &Vec<(String, LayerValue)>,
    macros: &Vec<(String, Vec<ToEvent>)>,
    combo_time: u32,
) -> (r: Result<Vec<Manipulator>, String>)
    ensures
        match r {
            Ok(v) => spec_layer_keys(layout.deep_view(), layer@, keys.deep_view(), macros.deep_view(), combo_time) matches Ok(p)
                && v.deep_view() == chords_first(p),
            Err(e) => spec_layer_keys(layout.deep_view(), layer@, keys.deep_view(), macros.deep_view(), combo_time)
                == Err::<Split, Seq<char>>(e@),
        },
{
    let ghost l = layout.deep_view();
    let ghost s = keys.deep_view();
    let ghost ms = macros.deep_view();
    let mut chords: Vec<Manipulator> = Vec::new();
    let mut singles: Vec<Manipulator> = Vec::new();
    let mut i: usize = 0;
    proof {
        assert(s.skip(0) =~= s);
        lemma_then_join_nothing(spec_layer_keys(l, layer@, s, ms, combo_time));
        assert(chords.deep_view() =~= Seq::<ManipulatorView>::empty());
        assert(singles.deep_view() =~= Seq::<ManipulatorView>::empty());
    }
    while i < keys.len()
        invariant
            i <= keys.len(),
            l == layout.deep_view(),
            s == keys.deep_view(),
            ms == macros.deep_view(),
            spec_layer_keys(l, layer@, s, ms, combo_time) == then_join(
                chords.deep_view(),
                singles.deep_view(),
                spec_layer_keys(l, layer@, s.skip(i as int), ms, combo_time),
            ),
        decreases keys.len() - i,
    {
        proof {
            lemma_skip_step(s, i as int);
        }
        let key = keys[i].0.as_str();
        let m = layer_manipulator(layout, key, &keys[i].1, layer, macros, combo_time)?;
        let chord = has_plus(key);
        proof {
            lemma_then_join_add(chords.deep_view(), singles.deep_view(), m.deep_view(), chord,
                spec_layer_keys(l, layer@, s.skip(i + 1), ms, combo_time));
        }
        push_split(&mut chords, &mut singles, m, chord);
        i += 1;
    }
    proof {
        assert(s.skip(i as int).len() == 0);
        lemma_then_join_done(chords.deep_view(), singles.deep_view());
    }
    Ok(join_split(chords, singles))
}

/// The manipulators of the base layer: chords first, then single keys.
fn base_keys(
    layout: &Layout,
    keys: &Vec<(String, LayerValue)>,
    names: &Vec<String>,
    macros: &Vec<(String, Vec<ToEvent>)>,
    tap_time: u32,
    combo_time: u32,
) -> (r: Result<Vec<Manipulator>, String>)
    ensures
        match r {
            Ok(v) => spec_base_keys(layout.deep_view(), keys.deep_view(), names.deep_view(), macros.deep_view(), tap_time, combo_time) matches Ok(p)
                && v.deep_view() == chords_first(p),
            Err(e) => spec_base_keys(layout.deep_view(), keys.deep_view(), names.deep_view(), macros.deep_view(), tap_time, combo_time)
                == Err::<Split, Seq<char>>(e@),
        },
{
    let ghost l = layout.deep_view();
    let ghost s = keys.deep_view();
    let ghost ns = names.deep_view();
    let ghost ms = macros.deep_view();
    let mut chords: Vec<Manipulator> = Vec::new();
    let mut singles: Vec<Manipulator> = Vec::new();
    let mut i: usize = 0;
    proof {
        assert(s.skip(0) =~= s);
        lemma_then_join_nothing(spec_base_keys(l, s, ns, ms, tap_time, combo_time));
        assert(chords.deep_view() =~= Seq::<ManipulatorView>::empty());
        assert(singles.deep_view() =~= Seq::<ManipulatorView>::empty());
    }
    while i < keys.len()
        invariant
            i <= keys.len(),
            l == layout.deep_view(),
            s == keys.deep_view(),
            ns == names.deep_view(),
            ms == macros.deep_view(),
            spec_base_keys(l, s, ns, ms, tap_time, combo_time) == then_join(
                chords.deep_view(),
                singles.deep_view(),
                spec_base_keys(l, s.skip(i as int), ns, ms, tap_time, combo_time),
            ),
        decreases keys.len() - i,
    {
        proof {
            lemma_skip_step(s, i as int);
        }
        let key = keys[i].0.as_str();
        let m = base_manipulator(layout, key, &keys[i].1, names, macros, tap_time, combo_time)?;
        let chord = has_plus(key);
        proof {
            lemma_then_join_add(chords.deep_view(), singles.deep_view(), m.deep_view(), chord,
                spec_base_keys(l, s.skip(i + 1), ns, ms, tap_time, combo_time));
        }
        push_split(&mut chords, &mut singles, m, chord);
        i += 1;
    }
    proof {
        assert(s.skip(i as int).len() == 0);
        lemma_then_join_done(chords.deep_view(), singles.deep_view());
    }
    Ok(join_split(chords, singles))
}

/// The position of the first layer named `base`, if any.
fn find_base(layers: &Vec<(String, Vec<(String, LayerValue)>)>) -> (r: Option<usize>)
    ensures
        match r {
            Some(i) => i < layers.len() && assoc(layers.deep_view(), base_layer()) == Some(layers.deep_view()[i as int].1),
            None => assoc(layers.deep_view(), base_layer()) is None,
        },
{
    let ghost s = layers.deep_view();
    let mut i: usize = 0;
    assert(s.skip(0) =~= s);
    while i < layers.len()
        invariant
            i <= layers.len(),
            s == layers.deep_view(),
            assoc(s, base_layer()) == assoc(s.skip(i as int), base_layer()),
        decreases layers.len() - i,
    {
        proof {
            lemma_assoc_skip(s, base_layer(), i as int);
        }
        if str_eq(layers[i].0.as_str(), "base") {
            return Some(i);
        }
        i += 1;
    }
    assert(s.skip(i as int).len() == 0);
    None
}

/// Compile a profile to rules: validate -> expand macros -> compile non-base
/// layers (conditioned) -> compile the base layer. The profile's tables are
/// keyed as a TOML table gives them (`wf`): each name once, ascending. An
/// unknown layout is reported with the name asked for and the known names.
pub fn convert(profile: &Profile) -> (r: Result<Vec<Rule>, String>)
    requires
        profile.deep_view().wf(),
    ensures
        match r {
            Ok(rules) => spec_convert(profile.deep_view()) == Ok::<Seq<RuleView>, Seq<char>>(rules.deep_view()),
            Err(e) => spec_convert(profile.deep_view()) == Err::<Seq<RuleView>, Seq<char>>(e@),
        },
        r matches Err(e) ==> (spec_for_keyboard(profile.deep_view().os_layout) is Err && plain_text(
            profile.deep_view().os_layout,
        ) ==> contains_text(e@, profile.deep_view().os_layout) && contains_text(e@, "qwerty-us"@)),
{
    let ghost p = profile.deep_view();
    let layout = Layout::for_keyboard(profile.settings.os_layout.as_str())?;
    let ghost l = layout.deep_view();
    validate_layer_names(profile)?;
    let macros = expand_macros(&layout, &profile.macros)?;
    let ghost ms = macros.deep_view();
    let names = layer_names(&profile.layers);

    // Non-base layers first, so their conditioned rules win first-match order.
    let ghost s = p.layers;
    let mut rules: Vec<Rule> = Vec::new();
    let mut i: usize = 0;
    proof {
        assert(s.skip(0) =~= s);
        lemma_then_prepend_nothing(spec_layer_rules(l, s, ms, p.combo_time));
        assert(rules.deep_view() =~= Seq::<RuleView>::empty());
    }
    while i < profile.layers.len()
        invariant
            i <= profile.layers.len(),
            p == profile.deep_view(),
            s == p.layers,
            l == layout.deep_view(),
            ms == macros.deep_view(),
            spec_for_keyboard(p.os_layout) == Ok::<LayoutView, Seq<char>>(l),
            spec_validate_layer_names(p.layers) is None,
            spec_expand_macros(l, p.macros) == Ok::<MacrosView, Seq<char>>(ms),
            spec_layer_rules(l, s, ms, p.combo_time) == then_prepend(rules.deep_view(), spec_layer_rules(l, s.skip(i as int), ms, p.combo_time)),
        decreases profile.layers.len() - i,
    {
        proof {
            lemma_skip_step(s, i as int);
        }
        let name = profile.layers[i].0.as_str();
        if !str_eq(name, "base") {
            let manipulators = layer_keys(&layout, name, &profile.layers[i].1, &macros, profile.settings.combo_time)?;
            if manipulators.len() > 0 {
                let rule = Rule { description: concat2("Layer: ", name), manipulators };
                let ghost before = rules.deep_view();
                proof {
                    lemma_then_prepend_assoc(before, seq![rule.deep_view()], spec_layer_rules(l, s.skip(i + 1), ms, p.combo_time));
                }
                rules.push(rule);
                assert(rules.deep_view() =~= before + seq![rule.deep_view()]);
            } else {
                proof {
                    assert(rules.deep_view() + Seq::<RuleView>::empty() =~= rules.deep_view());
                    lemma_then_prepend_assoc(rules.deep_view(), Seq::<RuleView>::empty(), spec_layer_rules(l, s.skip(i + 1), ms, p.combo_time));
                }
            }
        }
        i += 1;
    }
    proof {
        assert(s.skip(i as int).len() == 0);
        lemma_then_prepend_empty(rules.deep_view());
    }
    let ghost layer_rules = rules.deep_view();
    assert(spec_layer_rules(l, s, ms, p.combo_time) == Ok::<Seq<RuleView>, Seq<char>>(layer_rules));

    if let Some(b) = find_base(&profile.layers) {
        let manipulators = base_keys(
            &layout,
            &profile.layers[b].1,
            &names,
            &macros,
            profile.settings.tap_time,
            profile.settings.combo_time,
        )?;
        if manipulators.len() > 0 {
            let rule = Rule { description: String::from_str("Base"), manipulators };
            rules.push(rule);
            assert(rules.deep_view() =~= layer_rules + seq![rule.deep_view()]);
        } else {
            assert(rules.deep_view() =~= layer_rules + Seq::<RuleView>::empty());
        }
    } else {
        assert(rules.deep_view() =~= layer_rules + Seq::<RuleView>::empty());
    }
    Ok(rules)
}

} // verus!
