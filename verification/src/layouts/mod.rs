//! Symbol shorthand tables, by keyboard layout name.

pub mod qwerty_us;

use vstd::prelude::*;
use crate::keys::{Layout, LayoutView};
use self::qwerty_us::{qwerty_us, spec_qwerty_us};

verus! {

/// Every known layout with its name, in the order they are searched.
pub open spec fn spec_all() -> Seq<(Seq<char>, LayoutView)> {
    seq![("qwerty-us"@, spec_qwerty_us())]
}

/// The names of the known layouts.
pub open spec fn spec_names() -> Seq<Seq<char>> {
    spec_all().map_values(|p: (Seq<char>, LayoutView)| p.0)
}

pub fn all() -> (r: Vec<(&'static str, Layout)>)
    ensures
        r.deep_view() == spec_all(),
{
    let mut r: Vec<(&'static str, Layout)> = Vec::new();
    r.push(("qwerty-us", qwerty_us()));
    assert(r.deep_view() =~= spec_all());
    r
}

} // verus!
