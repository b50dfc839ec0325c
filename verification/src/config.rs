//! The schema of one karaconf profile (`<name>.toml`).

use vstd::prelude::*;
use crate::text::{lemma_str_lt_transitive, str_less, str_lt};

verus! {

/// One `<name>.toml` profile. Both lists are keyed by name, with each name
/// at most once and in ascending order (`wf`), as a TOML table gives them.
#[derive(Debug)]
pub struct Profile {
    pub settings: Settings,
    pub macros: Vec<(String, MacroDef)>,
    /// Layer name -> (key -> value). `base` is always active.
    pub layers: Vec<(String, Vec<(String, LayerValue)>)>,
}

#[derive(Debug)]
pub struct Settings {
    /// Symbol-shorthand contract; checked against the known layouts.
    pub os_layout: String,
    /// Tap-hold window, ms.
    pub tap_time: u32,
    /// Combo simultaneous-press window, ms.
    pub combo_time: u32,
}

/// A macro definition.
#[derive(Debug)]
pub enum MacroDef {
    /// `{ key = "down_arrow", repeat = 5 }`
    Repeat { key: String, repeat: u32 },
    /// `["hyphen", "shift+period"]`
    Sequence(Vec<String>),
    /// `"->"`; `{...}` for non-character keys
    Text(String),
}

/// One layer-table value.
#[derive(Debug)]
pub enum LayerValue {
    /// `[tap, hold]`; in base, `hold` may name a layer.
    TapHold([String; 2]),
    /// Key or macro, or a layer trigger in base.
    Simple(String),
}

pub enum MacroView {
    Repeat { key: Seq<char>, repeat: u32 },
    Sequence(Seq<Seq<char>>),
    Text(Seq<char>),
}

pub enum LayerValueView {
    TapHold(Seq<char>, Seq<char>),
    Simple(Seq<char>),
}

/// A layer's keys with their values.
pub type KeysView = Seq<(Seq<char>, LayerValueView)>;

pub struct ProfileView {
    pub os_layout: Seq<char>,
    pub tap_time: u32,
    pub combo_time: u32,
    pub macros: Seq<(Seq<char>, MacroView)>,
    pub layers: Seq<(Seq<char>, KeysView)>,
}

impl DeepView for MacroDef {
    type V = MacroView;

    open spec fn deep_view(&self) -> MacroView {
        match self {
            MacroDef::Repeat { key, repeat } => MacroView::Repeat { key: key@, repeat: *repeat },
            MacroDef::Sequence(steps) => MacroView::Sequence(steps.deep_view()),
            MacroDef::Text(t) => MacroView::Text(t@),
        }
    }
}

impl DeepView for LayerValue {
    type V = LayerValueView;

    open spec fn deep_view(&self) -> LayerValueView {
        match self {
            LayerValue::TapHold(a) => LayerValueView::TapHold(a@[0]@, a@[1]@),
            LayerValue::Simple(s) => LayerValueView::Simple(s@),
        }
    }
}

impl DeepView for Profile {
    type V = ProfileView;

    open spec fn deep_view(&self) -> ProfileView {
        ProfileView {
            os_layout: self.settings.os_layout@,
            tap_time: self.settings.tap_time,
            combo_time: self.settings.combo_time,
            macros: self.macros.deep_view(),
            layers: self.layers.deep_view(),
        }
    }
}

/// The keys of `t` strictly ascend, so no key occurs twice.
pub open spec fn keys_ascending<V>(t: Seq<(Seq<char>, V)>) -> bool {
    forall|i: int, j: int| 0 <= i < j < t.len() ==> str_lt(#[trigger] t[i].0, #[trigger] t[j].0)
}

impl ProfileView {
    /// Every table is keyed by name, each name once, in ascending order.
    pub open spec fn wf(self) -> bool {
        &&& keys_ascending(self.macros)
        &&& keys_ascending(self.layers)
        &&& forall|i: int| 0 <= i < self.layers.len() ==> keys_ascending(#[trigger] self.layers[i].1)
    }
}

/// Whether the keys of `t` strictly ascend.
pub fn keys_ascend<V: DeepView>(t: &Vec<(String, V)>) -> (r: bool)
    ensures
        r == keys_ascending(t.deep_view()),
{
    let ghost s = t.deep_view();
    if t.len() == 0 {
        return true;
    }
    let mut i: usize = 1;
    while i < t.len()
        invariant
            1 <= i <= t.len(),
            s == t.deep_view(),
            forall|a: int, b: int| 0 <= a < b < i ==> str_lt(#[trigger] s[a].0, #[trigger] s[b].0),
        decreases t.len() - i,
    {
        if !str_less(t[i - 1].0.as_str(), t[i].0.as_str()) {
            assert(s[i - 1].0 == t@[i - 1].0@ && s[i as int].0 == t@[i as int].0@);
            return false;
        }
        assert(s[i - 1].0 == t@[i - 1].0@ && s[i as int].0 == t@[i as int].0@);
        assert forall|a: int, b: int| 0 <= a < b < i + 1 implies str_lt(#[trigger] s[a].0, #[trigger] s[b].0) by {
            if b == i && a < i - 1 {
                lemma_str_lt_transitive(s[a].0, s[i - 1].0, s[b].0);
            }
        }
        i += 1;
    }
    true
}

impl Profile {
    /// Whether every table is keyed by name, each name once, in ascending
    /// order, as a TOML table gives them.
    pub fn well_formed(&self) -> (r: bool)
        ensures
            r == self.deep_view().wf(),
    {
        if !keys_ascend(&self.macros) || !keys_ascend(&self.layers) {
            return false;
        }
        let ghost s = self.layers.deep_view();
        let mut i: usize = 0;
        while i < self.layers.len()
            invariant
                i <= self.layers.len(),
                s == self.layers.deep_view(),
                forall|k: int| 0 <= k < i ==> keys_ascending(#[trigger] s[k].1),
            decreases self.layers.len() - i,
        {
            if !keys_ascend(&self.layers[i].1) {
                assert(s[i as int].1 == self.layers@[i as int].1.deep_view());
                return false;
            }
            assert(s[i as int].1 == self.layers@[i as int].1.deep_view());
            i += 1;
        }
        true
    }
}

impl Default for Settings {
    fn default() -> (s: Self)
        ensures
            s.os_layout@ == "qwerty-us"@,
            s.tap_time == 100,
            s.combo_time == 50,
    {
        Settings { os_layout: String::from_str("qwerty-us"), tap_time: 100, combo_time: 50 }
    }
}

impl Default for Profile {
    fn default() -> (p: Self)
        ensures
            p.deep_view().os_layout == "qwerty-us"@,
            p.deep_view().tap_time == 100,
            p.deep_view().combo_time == 50,
            p.deep_view().macros.len() == 0,
            p.deep_view().layers.len() == 0,
            p.deep_view().wf(),
    {
        Profile { settings: Settings::default(), macros: Vec::new(), layers: Vec::new() }
    }
}

} // verus!
