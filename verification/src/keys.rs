//! Key expressions (`shift+period`, `#`, `command++`) and text macros,
//! resolved against a keyboard layout's symbol shorthand.

use vstd::prelude::*;
use crate::karabiner::{EventView, ToEvent, ToKey};
use crate::layouts::{all, spec_all, spec_names};
use crate::text::{
    contains_text, lemma_contains_middle, plain_text, quoted, char_debug, chars_of, concat2, contains_str, debug_char, debug_str, str_debug, str_eq,
    string_from_char,
};

verus! {

/// A symbol table: `(symbol, key_code)` pairs, searched front to back.
pub type Table = Seq<(Seq<char>, Seq<char>)>;

/// A resolved key: `(key_code, modifiers)`.
pub type Parsed = (Seq<char>, Seq<Seq<char>>);

/// Symbol-shorthand table for a given physical keyboard layout.
#[derive(Debug)]
pub struct Layout {
    /// Symbols that resolve with no modifier.
    pub unshifted: Vec<(&'static str, &'static str)>,
    /// Symbols that resolve with `["shift"]`.
    pub shifted: Vec<(&'static str, &'static str)>,
}

pub struct LayoutView {
    pub unshifted: Table,
    pub shifted: Table,
}

impl DeepView for Layout {
    type V = LayoutView;

    open spec fn deep_view(&self) -> LayoutView {
        LayoutView { unshifted: self.unshifted.deep_view(), shifted: self.shifted.deep_view() }
    }
}

/// The value paired with the first entry whose key is `k`.
pub open spec fn assoc<V>(t: Seq<(Seq<char>, V)>, k: Seq<char>) -> Option<V>
    decreases t.len(),
{
    if t.len() == 0 {
        None
    } else if t[0].0 == k {
        Some(t[0].1)
    } else {
        assoc(t.drop_first(), k)
    }
}

/// `assoc` over a suffix of a table that skips no match.
pub proof fn lemma_assoc_skip<V>(t: Seq<(Seq<char>, V)>, k: Seq<char>, i: int)
    requires
        0 <= i < t.len(),
    ensures
        assoc(t.skip(i), k) == (if t[i].0 == k { Some(t[i].1) } else { assoc(t.skip(i + 1), k) }),
{
    assert(t.skip(i).drop_first() =~= t.skip(i + 1));
}

/// `Debug` of a list of strings: `["a", "b"]`.
pub open spec fn debug_list(names: Seq<Seq<char>>) -> Seq<char> {
    "["@ + debug_items(names) + "]"@
}

/// The `Debug` renderings of `names`, separated by `", "`.
pub open spec fn debug_items(names: Seq<Seq<char>>) -> Seq<char>
    decreases names.len(),
{
    if names.len() == 0 {
        seq![]
    } else if names.len() == 1 {
        str_debug(names[0])
    } else {
        debug_items(names.drop_last()) + ", "@ + str_debug(names.last())
    }
}

pub open spec fn msg_unsupported_layout(name: Seq<char>) -> Seq<char> {
    "unsupported os_layout "@ + str_debug(name) + ". Available: "@ + debug_list(spec_names())
        + ". Symbol shorthand (#, +, |, …) needs a known layout; on other layouts, write the underlying key directly (e.g. \"shift+4\" instead of \"$\")."@
}

/// The layout named `name`, or the error that lists the known names.
pub open spec fn spec_for_keyboard(name: Seq<char>) -> Result<LayoutView, Seq<char>> {
    match assoc(spec_all(), name) {
        Some(l) => Ok(l),
        None => Err(msg_unsupported_layout(name)),
    }
}

/// Symbol shorthand -> `(key_code, modifiers)`: unshifted symbols first,
/// then shifted ones, which carry `shift`.
pub open spec fn spec_resolve_symbol(l: LayoutView, s: Seq<char>) -> Option<Parsed> {
    match assoc(l.unshifted, s) {
        Some(k) => Some((k, seq![])),
        None => match assoc(l.shifted, s) {
            Some(k) => Some((k, seq!["shift"@])),
            None => None,
        },
    }
}

/// The view of a parse result.
pub open spec fn parsed_view(r: Result<(String, Vec<String>), String>) -> Result<Parsed, Seq<char>> {
    match r {
        Ok((k, m)) => Ok((k@, m.deep_view())),
        Err(e) => Err(e@),
    }
}

/// The view of a single-event result.
pub open spec fn event_result_view(r: Result<ToEvent, String>) -> Result<EventView, Seq<char>> {
    match r {
        Ok(e) => Ok(e.deep_view()),
        Err(e) => Err(e@),
    }
}

/// A key press with modifiers.
pub open spec fn key_view(p: Parsed) -> EventView {
    EventView::Key { key_code: p.0, modifiers: p.1 }
}

impl Layout {
    /// Look up a layout by name among the known layouts. Errors with the
    /// list of known names.
    pub fn for_keyboard(name: &str) -> (r: Result<Layout, String>)
        ensures
            match r {
                Ok(l) => spec_for_keyboard(name@) == Ok::<LayoutView, Seq<char>>(l.deep_view()),
                Err(e) => spec_for_keyboard(name@) == Err::<LayoutView, Seq<char>>(e@),
            },
            r matches Err(e) ==> (plain_text(name@) ==> contains_text(e@, name@) && contains_text(e@, "qwerty-us"@)),
    {
        let mut layouts = all();
        let mut i: usize = 0;
        assert(spec_all().skip(0) =~= spec_all());
        while i < layouts.len()
            invariant
                i <= layouts.len(),
                layouts.deep_view() == spec_all(),
                assoc(spec_all(), name@) == assoc(spec_all().skip(i as int), name@),
            decreases layouts.len() - i,
        {
            proof {
                lemma_assoc_skip(spec_all(), name@, i as int);
            }
            assert(layouts.deep_view()[i as int].0 == layouts@[i as int].0@);
            if str_eq(layouts[i].0, name) {
                let (_, l) = layouts.remove(i);
                return Ok(l);
            }
            i += 1;
        }
        assert(spec_all().skip(i as int).len() == 0);
        Err(unsupported_layout_message(name))
    }

    /// Symbol shorthand (`#`, `+`, `|`, ...) -> `(key_code, modifiers)`.
    pub fn resolve_symbol(&self, expr: &str) -> (r: Option<(String, Vec<String>)>)
        ensures
            match r {
                Some((k, m)) => spec_resolve_symbol(self.deep_view(), expr@) == Some((k@, m.deep_view())),
                None => spec_resolve_symbol(self.deep_view(), expr@) is None,
            },
    {
        match table_find(&self.unshifted, expr) {
            Some(k) => {
                let mods: Vec<String> = Vec::new();
                assert(mods.deep_view() =~= Seq::<Seq<char>>::empty());
                Some((k.to_owned(), mods))
            },
            None => match table_find(&self.shifted, expr) {
                Some(k) => {
                    let mut mods: Vec<String> = Vec::new();
                    mods.push(String::from_str("shift"));
                    assert(mods.deep_view() =~= seq!["shift"@]);
                    Some((k.to_owned(), mods))
                },
                None => None,
            },
        }
    }
}

/// The key code paired with the first entry for symbol `s`.
fn table_find(t: &Vec<(&'static str, &'static str)>, s: &str) -> (r: Option<&'static str>)
    ensures
        match r {
            Some(k) => assoc(t.deep_view(), s@) == Some(k@),
            None => assoc(t.deep_view(), s@) is None,
        },
{
    let mut i: usize = 0;
    assert(t.deep_view().skip(0) =~= t.deep_view());
    while i < t.len()
        invariant
            i <= t.len(),
            assoc(t.deep_view(), s@) == assoc(t.deep_view().skip(i as int), s@),
        decreases t.len() - i,
    {
        proof {
            lemma_assoc_skip(t.deep_view(), s@, i as int);
        }
        let (sym, k) = t[i];
        if str_eq(sym, s) {
            return Some(k);
        }
        i += 1;
    }
    assert(t.deep_view().skip(i as int).len() == 0);
    None
}

fn unsupported_layout_message(name: &str) -> (r: String)
    ensures
        r@ == msg_unsupported_layout(name@),
        plain_text(name@) ==> contains_text(r@, name@) && contains_text(r@, "qwerty-us"@),
{
    let layouts = all();
    let mut items = String::new();
    let mut i: usize = 0;
    while i < layouts.len()
        invariant
            i <= layouts.len(),
            layouts.deep_view() == spec_all(),
            items@ == debug_items(spec_names().take(i as int)),
            i > 0 ==> str_debug(spec_names()[0]) == quoted(spec_names()[0]),
        decreases layouts.len() - i,
    {
        proof {
            reveal_strlit("qwerty-us");
            assert(plain_text(spec_names()[0]));
        }
        let d = debug_str(layouts[i].0);
        proof {
            let names = spec_names();
            assert(names.take(i + 1).drop_last() =~= names.take(i as int));
            assert(names[i as int] == layouts@[i as int].0@);
        }
        if i == 0 {
            assert(spec_names().take(1) =~= seq![spec_names()[0]]);
            items = d;
        } else {
            items.append(", ");
            items.append(d.as_str());
        }
        i += 1;
    }
    assert(spec_names().take(i as int) =~= spec_names());
    let mut r = String::from_str("unsupported os_layout ");
    let dn = debug_str(name);
    r.append(dn.as_str());
    r.append(". Available: ");
    r.append("[");
    r.append(items.as_str());
    r.append("]");
    r.append(
        ". Symbol shorthand (#, +, |, …) needs a known layout; on other layouts, write the underlying key directly (e.g. \"shift+4\" instead of \"$\").",
    );
    proof {
        let a = "unsupported os_layout "@;
        let rest = ". Available: "@ + "["@ + items@ + "]"@
            + ". Symbol shorthand (#, +, |, …) needs a known layout; on other layouts, write the underlying key directly (e.g. \"shift+4\" instead of \"$\")."@;
        assert(r@ =~= a + dn@ + rest);
        if plain_text(name@) {
            assert(a + dn@ + rest =~= (a + seq!['"']) + name@ + (seq!['"'] + rest));
            lemma_contains_middle(a + seq!['"'], name@, seq!['"'] + rest);
        }
        let q = "qwerty-us"@;
        assert(items@ == quoted(q));
        let b = a + dn@ + ". Available: "@ + "["@ + seq!['"'];
        let c = seq!['"'] + "]"@
            + ". Symbol shorthand (#, +, |, …) needs a known layout; on other layouts, write the underlying key directly (e.g. \"shift+4\" instead of \"$\")."@;
        assert(r@ =~= b + q + c);
        lemma_contains_middle(b, q, c);
    }
    r
}

/// The pieces of `s` between the separators `sep`, as `str::split` gives them
/// (an empty `s` gives one empty piece).
pub open spec fn split_on(s: Seq<char>, sep: char) -> Seq<Seq<char>>
    decreases s.len(),
{
    if s.len() == 0 {
        seq![seq![]]
    } else {
        let init = split_on(s.drop_last(), sep);
        if s.last() == sep {
            init.push(seq![])
        } else {
            init.update(init.len() - 1, init.last().push(s.last()))
        }
    }
}

pub proof fn lemma_split_on_nonempty(s: Seq<char>, sep: char)
    ensures
        split_on(s, sep).len() >= 1,
    decreases s.len(),
{
    if s.len() > 0 {
        lemma_split_on_nonempty(s.drop_last(), sep);
    }
}

/// Whether `s` ends in `++`, the spelling of a literal `+` key.
pub open spec fn ends_with_double_plus(s: Seq<char>) -> bool {
    s.len() >= 2 && s[s.len() - 1] == '+' && s[s.len() - 2] == '+'
}

/// The `+`-separated parts of a key expression; a trailing `++` makes the
/// last part the `+` key itself.
pub open spec fn expr_parts(expr: Seq<char>) -> Seq<Seq<char>> {
    if ends_with_double_plus(expr) {
        split_on(expr.take(expr.len() - 2), '+').push(seq!['+'])
    } else {
        split_on(expr, '+')
    }
}

pub open spec fn has_empty_part(parts: Seq<Seq<char>>) -> bool {
    exists|i: int| 0 <= i < parts.len() && #[trigger] parts[i].len() == 0
}

/// `mods` followed by each of `extra` that is not already there, in order.
pub open spec fn add_missing(mods: Seq<Seq<char>>, extra: Seq<Seq<char>>) -> Seq<Seq<char>>
    decreases extra.len(),
{
    if extra.len() == 0 {
        mods
    } else {
        let m = add_missing(mods, extra.drop_last());
        if m.contains(extra.last()) {
            m
        } else {
            m.push(extra.last())
        }
    }
}

/// ASCII letter, digit or `_`.
pub open spec fn is_keycode_char(c: char) -> bool {
    ('a' <= c && c <= 'z') || ('A' <= c && c <= 'Z') || ('0' <= c && c <= '9') || c == '_'
}

/// Whether `s` has the shape of a Karabiner key code.
pub open spec fn spec_looks_like_keycode(s: Seq<char>) -> bool {
    s.len() > 0 && forall|i: int| 0 <= i < s.len() ==> #[trigger] is_keycode_char(s[i])
}

pub open spec fn msg_empty_expr() -> Seq<char> {
    "empty key expression"@
}

pub open spec fn msg_empty_part(expr: Seq<char>) -> Seq<char> {
    "empty part in key expression "@ + str_debug(expr)
}

pub open spec fn msg_unknown_key(last: Seq<char>, expr: Seq<char>) -> Seq<char> {
    "unknown key "@ + str_debug(last) + " in expression "@ + str_debug(expr)
        + " — not a Karabiner key code or a US-QWERTY symbol shorthand. Use a key code (e.g. 'left_arrow', 'spacebar', 'f12') or a known symbol (#, +, |, …)."@
}

/// `mod+...+key_or_symbol` -> `(key_code, modifiers)`. A whole-expression
/// symbol wins; otherwise the last part is a symbol (whose own modifiers
/// come first) or a key code, and the other parts are modifiers.
pub open spec fn spec_parse_key_expr(l: LayoutView, expr: Seq<char>) -> Result<Parsed, Seq<char>> {
    if expr.len() == 0 {
        Err(msg_empty_expr())
    } else {
        match spec_resolve_symbol(l, expr) {
            Some(p) => Ok(p),
            None => {
                let parts = expr_parts(expr);
                if has_empty_part(parts) {
                    Err(msg_empty_part(expr))
                } else {
                    let last = parts.last();
                    let prefix = parts.drop_last();
                    match spec_resolve_symbol(l, last) {
                        Some(p) => Ok((p.0, add_missing(p.1, prefix))),
                        None => if spec_looks_like_keycode(last) {
                            Ok((last, prefix))
                        } else {
                            Err(msg_unknown_key(last, expr))
                        },
                    }
                }
            },
        }
    }
}

/// Split `s` at every `+`.
pub fn split_on_plus(s: &str) -> (r: Vec<String>)
    ensures
        r.deep_view() == split_on(s@, '+'),
{
    let n = s.unicode_len();
    let mut parts: Vec<String> = Vec::new();
    let mut start: usize = 0;
    let mut i: usize = 0;
    assert(s@.take(0) =~= Seq::<char>::empty());
    assert(parts.deep_view().push(s@.subrange(0, 0)) =~= split_on(s@.take(0), '+'));
    while i < n
        invariant
            n == s@.len(),
            start <= i <= n,
            parts.deep_view().push(s@.subrange(start as int, i as int)) == split_on(s@.take(i as int), '+'),
        decreases n - i,
    {
        let c = s.get_char(i);
        let ghost old_parts = parts.deep_view();
        let ghost old_start = start;
        let ghost t = s@.take(i + 1);
        proof {
            assert(t.drop_last() =~= s@.take(i as int));
            assert(t.last() == c);
            lemma_split_on_nonempty(s@.take(i as int), '+');
        }
        if c == '+' {
            parts.push(s.substring_char(start, i).to_owned());
            start = i + 1;
            proof {
                assert(parts.deep_view() =~= old_parts.push(s@.subrange(old_start as int, i as int)));
                assert(s@.subrange(start as int, (i + 1) as int) =~= Seq::<char>::empty());
                assert(parts.deep_view().push(s@.subrange(start as int, (i + 1) as int))
                    =~= split_on(t, '+'));
            }
        } else {
            proof {
                let init = split_on(s@.take(i as int), '+');
                assert(init.last() == s@.subrange(start as int, i as int));
                assert(s@.subrange(start as int, i as int).push(c) =~= s@.subrange(start as int, (i + 1) as int));
                assert(parts.deep_view().push(s@.subrange(start as int, (i + 1) as int))
                    =~= split_on(t, '+'));
            }
        }
        i += 1;
    }
    assert(s@.take(n as int) =~= s@);
    let ghost before = parts.deep_view();
    parts.push(s.substring_char(start, n).to_owned());
    assert(parts.deep_view() =~= before.push(s@.subrange(start as int, n as int)));
    parts
}

/// `mods`, then each of `extra` that `mods` does not hold yet.
fn add_missing_mods(mods: Vec<String>, extra: &Vec<String>) -> (r: Vec<String>)
    ensures
        r.deep_view() == add_missing(mods.deep_view(), extra.deep_view()),
{
    let ghost m0 = mods.deep_view();
    let mut r = mods;
    let mut i: usize = 0;
    assert(extra.deep_view().take(0) =~= Seq::<Seq<char>>::empty());
    while i < extra.len()
        invariant
            i <= extra.len(),
            r.deep_view() == add_missing(m0, extra.deep_view().take(i as int)),
        decreases extra.len() - i,
    {
        proof {
            let t = extra.deep_view().take(i + 1);
            assert(t.drop_last() =~= extra.deep_view().take(i as int));
            assert(t.last() == extra@[i as int]@);
        }
        if !contains_str(&r, extra[i].as_str()) {
            let ghost before = r.deep_view();
            r.push(extra[i].clone());
            assert(r.deep_view() =~= before.push(extra@[i as int]@));
        }
        i += 1;
    }
    assert(extra.deep_view().take(extra.len() as int) =~= extra.deep_view());
    r
}

/// Whether `s` is made of ASCII letters, digits and `_`, and is not empty.
pub fn looks_like_keycode(s: &str) -> (r: bool)
    ensures
        r == spec_looks_like_keycode(s@),
{
    let n = s.unicode_len();
    if n == 0 {
        return false;
    }
    let mut i: usize = 0;
    while i < n
        invariant
            n == s@.len(),
            i <= n,
            forall|j: int| 0 <= j < i ==> #[trigger] is_keycode_char(s@[j]),
        decreases n - i,
    {
        let c = s.get_char(i);
        if !(('a' <= c && c <= 'z') || ('A' <= c && c <= 'Z') || ('0' <= c && c <= '9') || c == '_') {
            assert(!is_keycode_char(s@[i as int]));
            return false;
        }
        i += 1;
    }
    true
}

fn unknown_key_message(last: &str, expr: &str) -> (r: String)
    ensures
        r@ == msg_unknown_key(last@, expr@),
{
    let mut r = String::from_str("unknown key ");
    r.append(debug_str(last).as_str());
    r.append(" in expression ");
    r.append(debug_str(expr).as_str());
    r.append(
        " — not a Karabiner key code or a US-QWERTY symbol shorthand. Use a key code (e.g. 'left_arrow', 'spacebar', 'f12') or a known symbol (#, +, |, …).",
    );
    r
}

/// Parse `mod+...+key_or_symbol`.
pub fn parse_key_expr(layout: &Layout, expr: &str) -> (r: Result<(String, Vec<String>), String>)
    ensures
        parsed_view(r) == spec_parse_key_expr(layout.deep_view(), expr@),
{
    let n = expr.unicode_len();
    if n == 0 {
        return Err(String::from_str("empty key expression"));
    }
    if let Some(resolved) = layout.resolve_symbol(expr) {
        return Ok(resolved);
    }
    let trailing = n >= 2 && expr.get_char(n - 1) == '+' && expr.get_char(n - 2) == '+';
    let mut parts = if trailing {
        let mut p = split_on_plus(expr.substring_char(0, n - 2));
        let ghost before = p.deep_view();
        p.push(string_from_char('+'));
        assert(expr@.subrange(0, n - 2) =~= expr@.take(n - 2));
        assert(p.deep_view() =~= before.push(seq!['+']));
        p
    } else {
        split_on_plus(expr)
    };
    assert(parts.deep_view() == expr_parts(expr@));
    proof {
        lemma_split_on_nonempty(expr@, '+');
        lemma_split_on_nonempty(expr@.take(n - 2), '+');
    }
    let mut i: usize = 0;
    while i < parts.len()
        invariant
            i <= parts.len(),
            parts.deep_view() == expr_parts(expr@),
            expr@.len() > 0,
            spec_resolve_symbol(layout.deep_view(), expr@) is None,
            forall|j: int| 0 <= j < i ==> parts@[j]@.len() != 0,
        decreases parts.len() - i,
    {
        if parts[i].as_str().unicode_len() == 0 {
            assert(parts.deep_view()[i as int].len() == 0);
            assert(has_empty_part(expr_parts(expr@)));
            return Err(concat2("empty part in key expression ", debug_str(expr).as_str()));
        }
        i += 1;
    }
    assert(!has_empty_part(expr_parts(expr@))) by {
        if has_empty_part(expr_parts(expr@)) {
            let k = choose|k: int| 0 <= k < expr_parts(expr@).len() && #[trigger] expr_parts(expr@)[k].len() == 0;
            assert(parts@[k]@.len() == 0);
        }
    }
    let ghost all_parts = parts.deep_view();
    let last = parts.pop().unwrap();
    let prefix = parts;
    assert(prefix.deep_view() =~= all_parts.drop_last());
    assert(last@ == all_parts.last());
    match layout.resolve_symbol(last.as_str()) {
        Some((key, mods)) => Ok((key, add_missing_mods(mods, &prefix))),
        None => {
            if looks_like_keycode(last.as_str()) {
                Ok((last, prefix))
            } else {
                Err(unknown_key_message(last.as_str(), expr))
            }
        },
    }
}

/// The view of a many-event result.
pub open spec fn events_result_view(r: Result<Vec<ToEvent>, String>) -> Result<Seq<EventView>, Seq<char>> {
    match r {
        Ok(v) => Ok(v.deep_view()),
        Err(e) => Err(e@),
    }
}

/// Key-press event for an expression like `shift+period`.
pub open spec fn spec_key_event(l: LayoutView, expr: Seq<char>) -> Result<EventView, Seq<char>> {
    match spec_parse_key_expr(l, expr) {
        Ok(p) => Ok(key_view(p)),
        Err(e) => Err(e),
    }
}

pub open spec fn msg_not_plain(expr: Seq<char>) -> Seq<char> {
    str_debug(expr) + " must be a plain key code (no modifiers)"@
}

/// A key code that carries no modifiers.
pub open spec fn spec_key_code_only(l: LayoutView, expr: Seq<char>) -> Result<Seq<char>, Seq<char>> {
    match spec_parse_key_expr(l, expr) {
        Ok(p) => if p.1.len() == 0 {
            Ok(p.0)
        } else {
            Err(msg_not_plain(expr))
        },
        Err(e) => Err(e),
    }
}

/// The lower-case letter for an ASCII upper-case one.
pub open spec fn ascii_lower(c: char) -> char {
    ((c as u8) + 32) as char
}

pub open spec fn msg_unknown_char(c: char) -> Seq<char> {
    "unknown character "@ + char_debug(c)
        + " in text macro — only ASCII letters/digits, space, and US-QWERTY symbols are recognized. For other keys, embed a key expression in {...} braces (e.g. {home}, {shift+down_arrow})."@
}

/// One character of a text macro -> `(key_code, modifiers)`: a symbol of the
/// layout, a lower-case letter or digit, an upper-case letter (with `shift`),
/// or a space.
pub open spec fn spec_char_to_key(l: LayoutView, c: char) -> Result<Parsed, Seq<char>> {
    match spec_resolve_symbol(l, seq![c]) {
        Some(p) => Ok(p),
        None => if ('a' <= c && c <= 'z') || ('0' <= c && c <= '9') {
            Ok((seq![c], seq![]))
        } else if 'A' <= c && c <= 'Z' {
            Ok((seq![ascii_lower(c)], seq!["shift"@]))
        } else if c == ' ' {
            Ok(("spacebar"@, seq![]))
        } else {
            Err(msg_unknown_char(c))
        },
    }
}

/// `e` in front of the events of `r`, or the error of `r`.
pub open spec fn prepend(e: Seq<EventView>, r: Result<Seq<EventView>, Seq<char>>) -> Result<Seq<EventView>, Seq<char>> {
    match r {
        Ok(s) => Ok(e + s),
        Err(x) => Err(x),
    }
}

pub open spec fn msg_unclosed(text: Seq<char>) -> Seq<char> {
    "unclosed '{' in text macro: "@ + str_debug(text)
}

/// The events for `text` from position `i` on: `{expr}` is one key
/// expression, any other character is typed as itself.
pub open spec fn expand_from(l: LayoutView, text: Seq<char>, i: int) -> Result<Seq<EventView>, Seq<char>>
    decreases text.len() - i, 1int,
{
    if i < 0 || i >= text.len() {
        Ok(seq![])
    } else if text[i] == '{' {
        expand_brace(l, text, i + 1, i + 1)
    } else {
        match spec_char_to_key(l, text[i]) {
            Err(e) => Err(e),
            Ok(p) => prepend(seq![key_view(p)], expand_from(l, text, i + 1)),
        }
    }
}

/// Inside `{...}` that opened before `start`, looking at position `k`.
pub open spec fn expand_brace(l: LayoutView, text: Seq<char>, start: int, k: int) -> Result<Seq<EventView>, Seq<char>>
    decreases text.len() - k, 0int,
{
    if k < 0 || k >= text.len() {
        Err(msg_unclosed(text))
    } else if text[k] == '}' {
        match spec_parse_key_expr(l, text.subrange(start, k)) {
            Err(e) => Err(e),
            Ok(p) => prepend(seq![key_view(p)], expand_from(l, text, k + 1)),
        }
    } else {
        expand_brace(l, text, start, k + 1)
    }
}

/// Text -> events.
pub open spec fn spec_expand_text(l: LayoutView, text: Seq<char>) -> Result<Seq<EventView>, Seq<char>> {
    expand_from(l, text, 0)
}

pub proof fn lemma_prepend_prepend(a: Seq<EventView>, b: Seq<EventView>, r: Result<Seq<EventView>, Seq<char>>)
    ensures
        prepend(a, prepend(b, r)) == prepend(a + b, r),
{
    if let Ok(s) = r {
        assert(a + (b + s) =~= (a + b) + s);
    }
}

/// Key-press event from an expression like `"shift+period"`.
pub fn key_event(layout: &Layout, expr: &str) -> (r: Result<ToEvent, String>)
    ensures
        event_result_view(r) == spec_key_event(layout.deep_view(), expr@),
{
    let (key_code, modifiers) = parse_key_expr(layout, expr)?;
    Ok(ToEvent::Key(ToKey { key_code, modifiers }))
}

/// Plain key code (no modifiers), for contexts that can't carry modifiers,
/// like a combo part.
pub fn key_code_only(layout: &Layout, expr: &str) -> (r: Result<String, String>)
    ensures
        match r {
            Ok(k) => spec_key_code_only(layout.deep_view(), expr@) == Ok::<Seq<char>, Seq<char>>(k@),
            Err(e) => spec_key_code_only(layout.deep_view(), expr@) == Err::<Seq<char>, Seq<char>>(e@),
        },
{
    let (key_code, modifiers) = parse_key_expr(layout, expr)?;
    if modifiers.len() != 0 {
        return Err(concat2(debug_str(expr).as_str(), " must be a plain key code (no modifiers)"));
    }
    Ok(key_code)
}

fn unknown_char_message(ch: char) -> (r: String)
    ensures
        r@ == msg_unknown_char(ch),
{
    concat2(
        concat2("unknown character ", debug_char(ch).as_str()).as_str(),
        " in text macro — only ASCII letters/digits, space, and US-QWERTY symbols are recognized. For other keys, embed a key expression in {...} braces (e.g. {home}, {shift+down_arrow}).",
    )
}

/// Character -> `(key_code, modifiers)`.
pub fn char_to_key(layout: &Layout, ch: char) -> (r: Result<(String, Vec<String>), String>)
    ensures
        parsed_view(r) == spec_char_to_key(layout.deep_view(), ch),
{
    let one = string_from_char(ch);
    if let Some(resolved) = layout.resolve_symbol(one.as_str()) {
        return Ok(resolved);
    }
    let none: Vec<String> = Vec::new();
    assert(none.deep_view() =~= Seq::<Seq<char>>::empty());
    if ('a' <= ch && ch <= 'z') || ('0' <= ch && ch <= '9') {
        Ok((one, none))
    } else if 'A' <= ch && ch <= 'Z' {
        let lower = ((ch as u8) + 32) as char;
        let mut shift: Vec<String> = Vec::new();
        shift.push(String::from_str("shift"));
        assert(shift.deep_view() =~= seq!["shift"@]);
        Ok((string_from_char(lower), shift))
    } else if ch == ' ' {
        Ok((String::from_str("spacebar"), none))
    } else {
        Err(unknown_char_message(ch))
    }
}

/// Text -> events.
pub fn expand_text(layout: &Layout, text: &str) -> (r: Result<Vec<ToEvent>, String>)
    ensures
        events_result_view(r) == spec_expand_text(layout.deep_view(), text@),
{
    let ghost l = layout.deep_view();
    let ghost t = text@;
    let chars = chars_of(text);
    let n = chars.len();
    let mut events: Vec<ToEvent> = Vec::new();
    let mut i: usize = 0;
    assert(prepend(events.deep_view(), expand_from(l, t, 0)) == expand_from(l, t, 0)) by {
        assert(events.deep_view() =~= Seq::<EventView>::empty());
        if let Ok(s) = expand_from(l, t, 0) {
            assert(Seq::<EventView>::empty() + s =~= s);
        }
    }
    while i < n
        invariant
            chars@ == t,
            t == text@,
            n == t.len(),
            i <= n,
            l == layout.deep_view(),
            expand_from(l, t, 0) == prepend(events.deep_view(), expand_from(l, t, i as int)),
        decreases n - i,
    {
        let ch = chars[i];
        if ch == '{' {
            let mut k: usize = i + 1;
            while k < n && chars[k] != '}'
                invariant
                    chars@ == t,
                    t == text@,
                    n == t.len(),
                    i < k <= n,
                    t[i as int] == '{',
                    l == layout.deep_view(),
                    expand_from(l, t, 0) == prepend(events.deep_view(), expand_from(l, t, i as int)),
                    expand_from(l, t, i as int) == expand_brace(l, t, i + 1, k as int),
                decreases n - k,
            {
                k += 1;
            }
            if k >= n {
                return Err(concat2("unclosed '{' in text macro: ", debug_str(text).as_str()));
            }
            let ev = key_event(layout, text.substring_char(i + 1, k))?;
            let ghost before = events.deep_view();
            proof {
                lemma_prepend_prepend(before, seq![ev.deep_view()], expand_from(l, t, k + 1));
            }
            events.push(ev);
            assert(events.deep_view() =~= before + seq![ev.deep_view()]);
            i = k + 1;
        } else {
            let (key_code, modifiers) = char_to_key(layout, ch)?;
            let ev = ToEvent::Key(ToKey { key_code, modifiers });
            let ghost before = events.deep_view();
            proof {
                lemma_prepend_prepend(before, seq![ev.deep_view()], expand_from(l, t, i + 1));
            }
            events.push(ev);
            assert(events.deep_view() =~= before + seq![ev.deep_view()]);
            i = i + 1;
        }
    }
    proof {
        assert(events.deep_view() + Seq::<EventView>::empty() =~= events.deep_view());
    }
    Ok(events)
}

} // verus!
