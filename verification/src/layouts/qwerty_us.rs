//! US QWERTY: symbol -> key_code.

use vstd::prelude::*;
use crate::keys::{Layout, LayoutView, Table};

verus! {

/// Symbols typed without a modifier.
pub open spec fn spec_qwerty_us_unshifted() -> Table {
    seq![
        ("-"@, "hyphen"@),
        ("="@, "equal_sign"@),
        ("["@, "open_bracket"@),
        ("]"@, "close_bracket"@),
        ("\\"@, "backslash"@),
        (";"@, "semicolon"@),
        ("'"@, "quote"@),
        (","@, "comma"@),
        ("."@, "period"@),
        ("/"@, "slash"@),
        ("`"@, "grave_accent_and_tilde"@),
    ]
}

/// Symbols typed with `shift`.
pub open spec fn spec_qwerty_us_shifted() -> Table {
    seq![
        ("!"@, "1"@),
        ("@"@, "2"@),
        ("#"@, "3"@),
        ("$"@, "4"@),
        ("%"@, "5"@),
        ("^"@, "6"@),
        ("&"@, "7"@),
        ("*"@, "8"@),
        ("("@, "9"@),
        (")"@, "0"@),
        ("_"@, "hyphen"@),
        ("+"@, "equal_sign"@),
        ("{"@, "open_bracket"@),
        ("}"@, "close_bracket"@),
        ("|"@, "backslash"@),
        (":"@, "semicolon"@),
        ("\""@, "quote"@),
        ("<"@, "comma"@),
        (">"@, "period"@),
        ("?"@, "slash"@),
        ("~"@, "grave_accent_and_tilde"@),
    ]
}

pub open spec fn spec_qwerty_us() -> LayoutView {
    LayoutView { unshifted: spec_qwerty_us_unshifted(), shifted: spec_qwerty_us_shifted() }
}

/// The US QWERTY symbol table.
pub fn qwerty_us() -> (l: Layout)
    ensures
        l.deep_view() == spec_qwerty_us(),
{
    let mut unshifted: Vec<(&'static str, &'static str)> = Vec::new();
    unshifted.push(("-", "hyphen"));
    unshifted.push(("=", "equal_sign"));
    unshifted.push(("[", "open_bracket"));
    unshifted.push(("]", "close_bracket"));
    unshifted.push(("\\", "backslash"));
    unshifted.push((";", "semicolon"));
    unshifted.push(("'", "quote"));
    unshifted.push((",", "comma"));
    unshifted.push((".", "period"));
    unshifted.push(("/", "slash"));
    unshifted.push(("`", "grave_accent_and_tilde"));
    let mut shifted: Vec<(&'static str, &'static str)> = Vec::new();
    shifted.push(("!", "1"));
    shifted.push(("@", "2"));
    shifted.push(("#", "3"));
    shifted.push(("$", "4"));
    shifted.push(("%", "5"));
    shifted.push(("^", "6"));
    shifted.push(("&", "7"));
    shifted.push(("*", "8"));
    shifted.push(("(", "9"));
    shifted.push((")", "0"));
    shifted.push(("_", "hyphen"));
    shifted.push(("+", "equal_sign"));
    shifted.push(("{", "open_bracket"));
    shifted.push(("}", "close_bracket"));
    shifted.push(("|", "backslash"));
    shifted.push((":", "semicolon"));
    shifted.push(("\"", "quote"));
    shifted.push(("<", "comma"));
    shifted.push((">", "period"));
    shifted.push(("?", "slash"));
    shifted.push(("~", "grave_accent_and_tilde"));
    let l = Layout { unshifted, shifted };
    assert(l.unshifted.deep_view() =~= spec_qwerty_us_unshifted());
    assert(l.shifted.deep_view() =~= spec_qwerty_us_shifted());
    l
}

} // verus!
