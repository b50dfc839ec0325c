//! Karabiner JSON rule schema, with the mathematical view of each type.

use vstd::prelude::*;

verus! {

/// Group of manipulators with a label.
#[derive(Debug)]
pub struct Rule {
    pub description: String,
    pub manipulators: Vec<Manipulator>,
}

/// One key-mapping rule. Empty / `None` fields are left out of the JSON.
#[derive(Debug)]
pub struct Manipulator {
    /// The JSON field `type`.
    pub type_: String,
    pub from: FromKey,
    pub to: Vec<ToEvent>,
    pub to_if_alone: Vec<ToEvent>,
    pub to_after_key_up: Vec<ToEvent>,
    pub parameters: Option<Parameters>,
    pub conditions: Vec<Condition>,
}

#[derive(Debug)]
/// The key that fires a manipulator: one `key_code`, or, for a chord, the
/// `simultaneous` key codes (then `key_code` is empty and left out of the
/// JSON, as is an empty `simultaneous`).
pub struct FromKey {
    pub key_code: String,
    pub simultaneous: Vec<String>,
    pub modifiers: FromModifiers,
}

#[derive(Debug)]
pub struct FromModifiers {
    pub optional: Vec<String>,
}

/// An event Karabiner emits: a key press or a variable assignment.
#[derive(Debug)]
pub enum ToEvent {
    Key(ToKey),
    Variable(ToVariable),
}

#[derive(Debug)]
pub struct ToKey {
    pub key_code: String,
    pub modifiers: Vec<String>,
}

#[derive(Debug)]
pub struct ToVariable {
    pub set_variable: VariableValue,
}

#[derive(Debug)]
pub struct VariableValue {
    pub name: String,
    pub value: u32,
}

#[derive(Debug)]
pub struct Parameters {
    /// The JSON field `basic.to_if_alone_timeout_milliseconds`, left out if `None`.
    pub to_if_alone_timeout: Option<u32>,
    /// The JSON field `basic.simultaneous_threshold_milliseconds`, left out if `None`.
    pub simultaneous_threshold: Option<u32>,
}

#[derive(Debug)]
pub struct Condition {
    /// The JSON field `type`.
    pub type_: String,
    pub name: String,
    pub value: u32,
}

/// What an emitted event means.
pub enum EventView {
    Key { key_code: Seq<char>, modifiers: Seq<Seq<char>> },
    SetVar { name: Seq<char>, value: u32 },
}

pub struct ConditionView {
    pub type_: Seq<char>,
    pub name: Seq<char>,
    pub value: u32,
}

pub struct ParametersView {
    pub to_if_alone_timeout: Option<u32>,
    pub simultaneous_threshold: Option<u32>,
}

/// A manipulator as plain values.
pub struct ManipulatorView {
    pub type_: Seq<char>,
    pub from_key: Seq<char>,
    pub from_simultaneous: Seq<Seq<char>>,
    pub from_optional: Seq<Seq<char>>,
    pub to: Seq<EventView>,
    pub to_if_alone: Seq<EventView>,
    pub to_after_key_up: Seq<EventView>,
    pub parameters: Option<ParametersView>,
    pub conditions: Seq<ConditionView>,
}

pub struct RuleView {
    pub description: Seq<char>,
    pub manipulators: Seq<ManipulatorView>,
}

impl DeepView for ToEvent {
    type V = EventView;

    open spec fn deep_view(&self) -> EventView {
        match self {
            ToEvent::Key(k) => EventView::Key {
                key_code: k.key_code@,
                modifiers: k.modifiers.deep_view(),
            },
            ToEvent::Variable(v) => EventView::SetVar {
                name: v.set_variable.name@,
                value: v.set_variable.value,
            },
        }
    }
}

impl DeepView for Condition {
    type V = ConditionView;

    open spec fn deep_view(&self) -> ConditionView {
        ConditionView { type_: self.type_@, name: self.name@, value: self.value }
    }
}

impl DeepView for Manipulator {
    type V = ManipulatorView;

    open spec fn deep_view(&self) -> ManipulatorView {
        ManipulatorView {
            type_: self.type_@,
            from_key: self.from.key_code@,
            from_simultaneous: self.from.simultaneous.deep_view(),
            from_optional: self.from.modifiers.optional.deep_view(),
            to: self.to.deep_view(),
            to_if_alone: self.to_if_alone.deep_view(),
            to_after_key_up: self.to_after_key_up.deep_view(),
            parameters: match self.parameters {
                Some(p) => Some(
                    ParametersView {
                        to_if_alone_timeout: p.to_if_alone_timeout,
                        simultaneous_threshold: p.simultaneous_threshold,
                    },
                ),
                None => None,
            },
            conditions: self.conditions.deep_view(),
        }
    }
}

impl DeepView for Rule {
    type V = RuleView;

    open spec fn deep_view(&self) -> RuleView {
        RuleView { description: self.description@, manipulators: self.manipulators.deep_view() }
    }
}

/// A `basic` manipulator on `key` (any modifiers allowed) that does nothing yet.
pub open spec fn spec_from_key(key: Seq<char>) -> ManipulatorView {
    ManipulatorView {
        type_: "basic"@,
        from_key: key,
        from_simultaneous: seq![],
        from_optional: seq!["any"@],
        to: seq![],
        to_if_alone: seq![],
        to_after_key_up: seq![],
        parameters: None,
        conditions: seq![],
    }
}

/// A `basic` manipulator on the chord of `codes` that does nothing yet.
pub open spec fn spec_from_chord(codes: Seq<Seq<char>>) -> ManipulatorView {
    ManipulatorView { from_key: seq![], from_simultaneous: codes, ..spec_from_key(seq![]) }
}

pub open spec fn spec_set_var(name: Seq<char>, value: u32) -> EventView {
    EventView::SetVar { name, value }
}

pub open spec fn spec_variable_if(name: Seq<char>, value: u32) -> ConditionView {
    ConditionView { type_: "variable_if"@, name, value }
}

impl Manipulator {
    pub fn from_key(key: &str) -> (m: Self)
        ensures
            m.deep_view() == spec_from_key(key@),
    {
        let mut optional: Vec<String> = Vec::new();
        optional.push(String::from_str("any"));
        let m = Manipulator {
            type_: String::from_str("basic"),
            from: FromKey { key_code: key.to_owned(), simultaneous: Vec::new(), modifiers: FromModifiers { optional } },
            to: Vec::new(),
            to_if_alone: Vec::new(),
            to_after_key_up: Vec::new(),
            parameters: None,
            conditions: Vec::new(),
        };
        assert(m.from.modifiers.optional.deep_view() =~= seq!["any"@]);
        assert(m.from.simultaneous.deep_view() =~= Seq::<Seq<char>>::empty());
        assert(m.to.deep_view() =~= Seq::<EventView>::empty());
        assert(m.to_if_alone.deep_view() =~= Seq::<EventView>::empty());
        assert(m.to_after_key_up.deep_view() =~= Seq::<EventView>::empty());
        assert(m.conditions.deep_view() =~= Seq::<ConditionView>::empty());
        m
    }
}

impl Manipulator {
    /// A `basic` manipulator on the chord of `codes` (any modifiers allowed)
    /// that does nothing yet.
    pub fn from_chord(codes: Vec<String>) -> (m: Self)
        ensures
            m.deep_view() == spec_from_chord(codes.deep_view()),
    {
        let mut optional: Vec<String> = Vec::new();
        optional.push(String::from_str("any"));
        let m = Manipulator {
            type_: String::from_str("basic"),
            from: FromKey { key_code: String::new(), simultaneous: codes, modifiers: FromModifiers { optional } },
            to: Vec::new(),
            to_if_alone: Vec::new(),
            to_after_key_up: Vec::new(),
            parameters: None,
            conditions: Vec::new(),
        };
        assert(m.from.modifiers.optional.deep_view() =~= seq!["any"@]);
        assert(m.to.deep_view() =~= Seq::<EventView>::empty());
        assert(m.to_if_alone.deep_view() =~= Seq::<EventView>::empty());
        assert(m.to_after_key_up.deep_view() =~= Seq::<EventView>::empty());
        assert(m.conditions.deep_view() =~= Seq::<ConditionView>::empty());
        m
    }
}

impl ToEvent {
    pub fn set_var(name: &str, value: u32) -> (e: Self)
        ensures
            e.deep_view() == spec_set_var(name@, value),
    {
        ToEvent::Variable(ToVariable { set_variable: VariableValue { name: name.to_owned(), value } })
    }

    /// A copy of this event.
    pub fn duplicate(&self) -> (e: Self)
        ensures
            e.deep_view() == self.deep_view(),
    {
        match self {
            ToEvent::Key(k) => ToEvent::Key(ToKey { key_code: k.key_code.clone(), modifiers: copy_strings(&k.modifiers) }),
            ToEvent::Variable(v) => ToEvent::Variable(ToVariable {
                set_variable: VariableValue { name: v.set_variable.name.clone(), value: v.set_variable.value },
            }),
        }
    }
}

impl Condition {
    pub fn variable_if(name: &str, value: u32) -> (c: Self)
        ensures
            c.deep_view() == spec_variable_if(name@, value),
    {
        Condition { type_: String::from_str("variable_if"), name: name.to_owned(), value }
    }
}

/// A copy of a list of strings.
pub fn copy_strings(v: &Vec<String>) -> (r: Vec<String>)
    ensures
        r.deep_view() == v.deep_view(),
{
    let mut r: Vec<String> = Vec::new();
    let mut i: usize = 0;
    while i < v.len()
        invariant
            i <= v.len(),
            r@.len() == i,
            forall|j: int| 0 <= j < i ==> #[trigger] r@[j]@ == v@[j]@,
        decreases v.len() - i,
    {
        r.push(v[i].clone());
        i += 1;
    }
    assert(r.deep_view() =~= v.deep_view());
    r
}

/// A copy of a list of events.
pub fn copy_events(v: &Vec<ToEvent>) -> (r: Vec<ToEvent>)
    ensures
        r.deep_view() == v.deep_view(),
{
    let mut r: Vec<ToEvent> = Vec::new();
    let mut i: usize = 0;
    while i < v.len()
        invariant
            i <= v.len(),
            r@.len() == i,
            forall|j: int| 0 <= j < i ==> #[trigger] r@[j].deep_view() == v@[j].deep_view(),
        decreases v.len() - i,
    {
        r.push(v[i].duplicate());
        i += 1;
    }
    assert(r.deep_view() =~= v.deep_view());
    r
}

} // verus!
