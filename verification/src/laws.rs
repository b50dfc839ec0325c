//! Properties of the library as a whole, proved over the specifications
//! that the functions' contracts use.

use vstd::prelude::*;
use crate::config::{KeysView, LayerValueView, MacroView, ProfileView};
use crate::converter::{
    base_layer, chords_first, is_chord, shadows_key_code, spec_base_keys, spec_base_manipulator, spec_base_rule,
    spec_chord_codes, spec_convert, spec_expand_macros, spec_from_layer_key, spec_layer_keys,
    spec_layer_manipulator, spec_layer_names, spec_layer_rules, spec_layer_var, spec_resolve_action,
    spec_validate_layer_names, spec_expand_macro, spec_key_events, MacrosView,
};
use crate::layouts::qwerty_us::spec_qwerty_us;
use crate::sync::{last_index_of, toml_stem};
use crate::text::str_lt;
use crate::karabiner::{spec_variable_if, ConditionView, EventView, ManipulatorView, ParametersView, RuleView};
use crate::keys::{
    add_missing, assoc, ends_with_double_plus, expand_brace, expand_from, key_view, lemma_prepend_prepend, prepend, expr_parts, has_empty_part, lemma_split_on_nonempty,
    msg_unknown_key, spec_char_to_key, spec_expand_text, spec_for_keyboard, spec_looks_like_keycode,
    spec_parse_key_expr, spec_resolve_symbol, split_on, LayoutView, Parsed,
};
use crate::json::{
    first_named, fresh_profile, get, json_wf, key_index, set_member, spec_sync, spec_sync_all, lemma_first_named, lemma_first_named_push,
    lemma_first_named_same_names, lemma_key_index, lemma_member_after_set, lemma_member_push,
    lemma_member_update, member, msg_missing_profiles, name_of, profiles_of, rules_holder_member,
    spec_sync_step, spec_upsert, with_rules, JsonView, Members,
};
use crate::layouts::qwerty_us::{spec_qwerty_us_shifted, spec_qwerty_us_unshifted};

verus! {

/// On US QWERTY no symbol is both a shifted and an unshifted symbol, and
/// every symbol is a single character.
pub proof fn lemma_qwerty_us_no_symbol_conflicts()
    ensures
        forall|i: int, j: int|
            0 <= i < spec_qwerty_us_shifted().len() && 0 <= j < spec_qwerty_us_unshifted().len()
                ==> #[trigger] spec_qwerty_us_shifted()[i].0 != #[trigger] spec_qwerty_us_unshifted()[j].0,
        forall|i: int| 0 <= i < spec_qwerty_us_shifted().len() ==> #[trigger] spec_qwerty_us_shifted()[i].0.len() == 1,
        forall|j: int| 0 <= j < spec_qwerty_us_unshifted().len() ==> #[trigger] spec_qwerty_us_unshifted()[j].0.len() == 1,
{
    reveal_strlit("-");
    reveal_strlit("=");
    reveal_strlit("[");
    reveal_strlit("]");
    reveal_strlit("\\");
    reveal_strlit(";");
    reveal_strlit("'");
    reveal_strlit(",");
    reveal_strlit(".");
    reveal_strlit("/");
    reveal_strlit("`");
    reveal_strlit("!");
    reveal_strlit("@");
    reveal_strlit("#");
    reveal_strlit("$");
    reveal_strlit("%");
    reveal_strlit("^");
    reveal_strlit("&");
    reveal_strlit("*");
    reveal_strlit("(");
    reveal_strlit(")");
    reveal_strlit("_");
    reveal_strlit("+");
    reveal_strlit("{");
    reveal_strlit("}");
    reveal_strlit("|");
    reveal_strlit(":");
    reveal_strlit("\"");
    reveal_strlit("<");
    reveal_strlit(">");
    reveal_strlit("?");
    reveal_strlit("~");
    let sh = spec_qwerty_us_shifted();
    let un = spec_qwerty_us_unshifted();
    assert forall|i: int, j: int| 0 <= i < sh.len() && 0 <= j < un.len() implies #[trigger] sh[i].0 != #[trigger] un[j].0 by {
        assert(sh[i].0.len() == 1);
        assert(un[j].0.len() == 1);
        assert(sh[i].0[0] != un[j].0[0]);
    }
}

/// `parts` joined with `+` between them.
pub open spec fn join_plus(parts: Seq<Seq<char>>) -> Seq<char>
    decreases parts.len(),
{
    if parts.len() == 0 {
        seq![]
    } else if parts.len() == 1 {
        parts[0]
    } else {
        join_plus(parts.drop_last()) + seq!['+'] + parts.last()
    }
}

/// A piece of a key expression: not empty and without `+`.
pub open spec fn plain_part(p: Seq<char>) -> bool {
    p.len() > 0 && !p.contains('+')
}

/// What a key expression whose parts are `mods` then `last` parses to,
/// once the whole expression is not itself a symbol.
pub open spec fn chain_result(l: LayoutView, mods: Seq<Seq<char>>, last: Seq<char>, expr: Seq<char>) -> Result<Parsed, Seq<char>> {
    match spec_resolve_symbol(l, last) {
        Some(p) => Ok((p.0, add_missing(p.1, mods))),
        None => if spec_looks_like_keycode(last) {
            Ok((last, mods))
        } else {
            Err(msg_unknown_key(last, expr))
        },
    }
}

proof fn lemma_split_append(x: Seq<char>, y: Seq<char>)
    requires
        !y.contains('+'),
    ensures
        split_on(x + seq!['+'] + y, '+') == split_on(x, '+').push(y),
    decreases y.len(),
{
    let s = x + seq!['+'] + y;
    if y.len() == 0 {
        assert(y =~= Seq::<char>::empty());
        assert(s =~= x.push('+'));
        assert(s.drop_last() =~= x);
        assert(s.last() == '+');
    } else {
        let y0 = y.drop_last();
        assert(!y0.contains('+')) by {
            if y0.contains('+') {
                let k = choose|k: int| 0 <= k < y0.len() && y0[k] == '+';
                assert(y[k] == '+');
            }
        }
        lemma_split_append(x, y0);
        assert(s.drop_last() =~= x + seq!['+'] + y0);
        assert(s.last() == y.last());
        assert(y.last() != '+') by {
            assert(y[y.len() - 1] == y.last());
        }
        assert(y0.push(y.last()) =~= y);
        assert(split_on(s, '+') =~= split_on(x, '+').push(y));
    }
}

proof fn lemma_split_single(y: Seq<char>)
    requires
        !y.contains('+'),
    ensures
        split_on(y, '+') == seq![y],
    decreases y.len(),
{
    if y.len() > 0 {
        let y0 = y.drop_last();
        assert(!y0.contains('+')) by {
            if y0.contains('+') {
                let k = choose|k: int| 0 <= k < y0.len() && y0[k] == '+';
                assert(y[k] == '+');
            }
        }
        lemma_split_single(y0);
        assert(y.last() != '+') by {
            assert(y[y.len() - 1] == y.last());
        }
        assert(y0.push(y.last()) =~= y);
        assert(split_on(y, '+') =~= seq![y]);
    } else {
        assert(y =~= Seq::<char>::empty());
    }
}

/// Splitting at `+` undoes joining with `+`, for parts without `+`.
pub proof fn lemma_split_join(parts: Seq<Seq<char>>)
    requires
        parts.len() >= 1,
        forall|i: int| 0 <= i < parts.len() ==> !(#[trigger] parts[i]).contains('+'),
    ensures
        split_on(join_plus(parts), '+') == parts,
    decreases parts.len(),
{
    if parts.len() == 1 {
        lemma_split_single(parts[0]);
        assert(seq![parts[0]] =~= parts);
    } else {
        let init = parts.drop_last();
        assert(forall|i: int| 0 <= i < init.len() ==> !(#[trigger] init[i]).contains('+')) by {
            assert forall|i: int| 0 <= i < init.len() implies !(#[trigger] init[i]).contains('+') by {
                assert(init[i] == parts[i]);
            }
        }
        lemma_split_join(init);
        assert(!parts.last().contains('+')) by {
            assert(parts[parts.len() - 1] == parts.last());
        }
        lemma_split_append(join_plus(init), parts.last());
        assert(init.push(parts.last()) =~= parts);
    }
}

proof fn lemma_join_last(parts: Seq<Seq<char>>)
    requires
        parts.len() >= 1,
        parts.last().len() > 0,
    ensures
        join_plus(parts).len() > 0,
        join_plus(parts).last() == parts.last().last(),
{
    if parts.len() > 1 {
        let j = join_plus(parts);
        assert(j == join_plus(parts.drop_last()) + seq!['+'] + parts.last());
        assert(j[j.len() - 1] == parts.last()[parts.last().len() - 1]);
    }
}

/// Any number of modifiers joined by `+` before a key: `m1+...+mk+last`
/// parses to the key `last` (or the symbol it names, whose own modifiers
/// come first) with the modifiers in order, each once.
pub proof fn lemma_parse_modifier_chain(l: LayoutView, mods: Seq<Seq<char>>, last: Seq<char>)
    requires
        forall|i: int| 0 <= i < mods.len() ==> plain_part(#[trigger] mods[i]),
        plain_part(last),
        spec_resolve_symbol(l, join_plus(mods.push(last))) is None,
    ensures
        spec_parse_key_expr(l, join_plus(mods.push(last)))
            == chain_result(l, mods, last, join_plus(mods.push(last))),
{
    let parts = mods.push(last);
    let expr = join_plus(parts);
    assert(parts.last() == last);
    assert(forall|i: int| 0 <= i < parts.len() ==> plain_part(#[trigger] parts[i])) by {
        assert forall|i: int| 0 <= i < parts.len() implies plain_part(#[trigger] parts[i]) by {
            if i < mods.len() {
                assert(parts[i] == mods[i]);
            }
        }
    }
    lemma_split_join(parts);
    lemma_join_last(parts);
    assert(last.last() != '+') by {
        assert(last[last.len() - 1] == last.last());
    }
    assert(!ends_with_double_plus(expr));
    assert(expr_parts(expr) == parts);
    assert(!has_empty_part(parts));
    assert(parts.drop_last() =~= mods);
}

/// A doubled `+` at the end is the `+` key itself: `m1+...+mk++` parses as
/// the chain `m1+...+mk` before the key `+` (k >= 1).
pub proof fn lemma_parse_literal_plus(l: LayoutView, mods: Seq<Seq<char>>)
    requires
        mods.len() >= 1,
        forall|i: int| 0 <= i < mods.len() ==> plain_part(#[trigger] mods[i]),
        spec_resolve_symbol(l, join_plus(mods) + seq!['+', '+']) is None,
    ensures
        spec_parse_key_expr(l, join_plus(mods) + seq!['+', '+'])
            == chain_result(l, mods, seq!['+'], join_plus(mods) + seq!['+', '+']),
{
    let expr = join_plus(mods) + seq!['+', '+'];
    assert(forall|i: int| 0 <= i < mods.len() ==> !(#[trigger] mods[i]).contains('+'));
    lemma_split_join(mods);
    assert(ends_with_double_plus(expr));
    assert(expr.take(expr.len() - 2) =~= join_plus(mods));
    let parts = mods.push(seq!['+']);
    assert(expr_parts(expr) == parts);
    assert(!has_empty_part(parts)) by {
        assert forall|i: int| 0 <= i < parts.len() implies #[trigger] parts[i].len() != 0 by {
            if i < mods.len() {
                assert(parts[i] == mods[i]);
            }
        }
    }
    assert(parts.drop_last() =~= mods);
}

/// A `basic` manipulator that accepts any modifiers on its key.
pub open spec fn basic_any(m: ManipulatorView) -> bool {
    m.type_ == "basic"@ && m.from_optional == seq!["any"@]
}

/// A chord: two or more keys pressed within `combo_time` ms.
pub open spec fn chord_of(m: ManipulatorView, combo_time: u32) -> bool {
    &&& m.from_key.len() == 0
    &&& m.from_simultaneous.len() >= 2
    &&& m.parameters == Some(ParametersView { to_if_alone_timeout: None, simultaneous_threshold: Some(combo_time) })
}

/// A manipulator on one key.
pub open spec fn single_key(m: ManipulatorView) -> bool {
    m.from_simultaneous.len() == 0
}

/// The first `k` manipulators are chords and the rest single keys.
pub open spec fn split_point(ms: Seq<ManipulatorView>, k: int, combo_time: u32) -> bool {
    &&& 0 <= k <= ms.len()
    &&& forall|j: int| 0 <= j < k ==> chord_of(#[trigger] ms[j], combo_time)
    &&& forall|j: int| k <= j < ms.len() ==> single_key(#[trigger] ms[j])
}

/// Chords come before single keys, so a chord wins inside its window.
pub open spec fn chords_then_singles(ms: Seq<ManipulatorView>, combo_time: u32) -> bool {
    exists|k: int| #[trigger] split_point(ms, k, combo_time)
}

/// Every manipulator is basic and runs only while layer `n` is active.
pub open spec fn gated_by(ms: Seq<ManipulatorView>, n: Seq<char>) -> bool {
    forall|j: int|
        #![trigger ms[j]]
        0 <= j < ms.len() ==> basic_any(ms[j]) && ms[j].conditions == seq![spec_variable_if(spec_layer_var(n), 1)]
}

/// Every manipulator is basic and always active.
pub open spec fn ungated(ms: Seq<ManipulatorView>) -> bool {
    forall|j: int| #![trigger ms[j]] 0 <= j < ms.len() ==> basic_any(ms[j]) && ms[j].conditions.len() == 0
}

pub open spec fn all_chords(ms: Seq<ManipulatorView>, combo_time: u32) -> bool {
    forall|j: int| 0 <= j < ms.len() ==> chord_of(#[trigger] ms[j], combo_time)
}

pub open spec fn all_single(ms: Seq<ManipulatorView>) -> bool {
    forall|j: int| 0 <= j < ms.len() ==> single_key(#[trigger] ms[j])
}

/// The rule of a non-base layer `n`: labelled `Layer: n`, gated by `n`,
/// chords first.
pub open spec fn layer_rule_of(r: RuleView, n: Seq<char>, combo_time: u32) -> bool {
    &&& n != base_layer()
    &&& r.description == "Layer: "@ + n
    &&& r.manipulators.len() > 0
    &&& gated_by(r.manipulators, n)
    &&& chords_then_singles(r.manipulators, combo_time)
}

pub open spec fn is_layer_rule(r: RuleView, combo_time: u32) -> bool {
    exists|n: Seq<char>| #[trigger] layer_rule_of(r, n, combo_time)
}

/// The base rule: labelled `Base`, ungated, chords first.
pub open spec fn is_base_rule(r: RuleView, combo_time: u32) -> bool {
    &&& r.description == "Base"@
    &&& r.manipulators.len() > 0
    &&& ungated(r.manipulators)
    &&& chords_then_singles(r.manipulators, combo_time)
}

/// A key with `+` has at least two `+`-separated parts.
pub proof fn lemma_split_has_two_parts(s: Seq<char>)
    requires
        s.contains('+'),
    ensures
        split_on(s, '+').len() >= 2,
    decreases s.len(),
{
    let k = choose|k: int| 0 <= k < s.len() && s[k] == '+';
    lemma_split_on_nonempty(s.drop_last(), '+');
    if s.last() != '+' {
        assert(k < s.len() - 1) by {
            if k == s.len() - 1 {
                assert(s[k] == s.last());
            }
        }
        assert(s.drop_last()[k] == '+');
        lemma_split_has_two_parts(s.drop_last());
    }
}

proof fn lemma_chord_codes_len(l: LayoutView, parts: Seq<Seq<char>>)
    ensures
        spec_chord_codes(l, parts) matches Ok(c) ==> c.len() == parts.len(),
    decreases parts.len(),
{
    if parts.len() > 0 {
        lemma_chord_codes_len(l, parts.drop_first());
    }
}

proof fn lemma_from_layer_key(l: LayoutView, key: Seq<char>, combo_time: u32)
    ensures
        spec_from_layer_key(l, key, combo_time) matches Ok(m) ==> {
            &&& basic_any(m)
            &&& m.conditions.len() == 0
            &&& is_chord(key) ==> chord_of(m, combo_time)
            &&& !is_chord(key) ==> single_key(m)
        },
{
    if is_chord(key) {
        lemma_split_has_two_parts(key);
        lemma_chord_codes_len(l, split_on(key, '+'));
    }
}

proof fn lemma_join_split(a: Seq<ManipulatorView>, b: Seq<ManipulatorView>, combo_time: u32)
    requires
        all_chords(a, combo_time),
        all_single(b),
    ensures
        chords_then_singles(a + b, combo_time),
{
    let ms = a + b;
    assert forall|j: int| 0 <= j < a.len() implies chord_of(#[trigger] ms[j], combo_time) by {
        assert(ms[j] == a[j]);
    }
    assert forall|j: int| a.len() <= j < ms.len() implies single_key(#[trigger] ms[j]) by {
        assert(ms[j] == b[j - a.len()]);
    }
    assert(split_point(ms, a.len() as int, combo_time));
}

proof fn lemma_layer_keys_shape(l: LayoutView, layer: Seq<char>, keys: KeysView, ms: MacrosView, combo_time: u32)
    ensures
        spec_layer_keys(l, layer, keys, ms, combo_time) matches Ok(p) ==> {
            &&& gated_by(p.0, layer)
            &&& gated_by(p.1, layer)
            &&& all_chords(p.0, combo_time)
            &&& all_single(p.1)
        },
    decreases keys.len(),
{
    if keys.len() > 0 {
        lemma_layer_keys_shape(l, layer, keys.drop_first(), ms, combo_time);
        lemma_from_layer_key(l, keys[0].0, combo_time);
        if let Ok(p) = spec_layer_keys(l, layer, keys, ms, combo_time) {
            let m = spec_layer_manipulator(l, keys[0].0, keys[0].1, layer, ms, combo_time)->Ok_0;
            let rest = spec_layer_keys(l, layer, keys.drop_first(), ms, combo_time)->Ok_0;
            if is_chord(keys[0].0) {
                assert(p.0 == seq![m] + rest.0 && p.1 == rest.1);
                assert forall|j: int| #![trigger p.0[j]] 0 <= j < p.0.len() implies basic_any(p.0[j])
                    && p.0[j].conditions == seq![spec_variable_if(spec_layer_var(layer), 1)]
                    && chord_of(p.0[j], combo_time) by {
                    if j > 0 {
                        assert(p.0[j] == rest.0[j - 1]);
                    }
                }
            } else {
                assert(p.1 == seq![m] + rest.1 && p.0 == rest.0);
                assert forall|j: int| #![trigger p.1[j]] 0 <= j < p.1.len() implies basic_any(p.1[j])
                    && p.1[j].conditions == seq![spec_variable_if(spec_layer_var(layer), 1)]
                    && single_key(p.1[j]) by {
                    if j > 0 {
                        assert(p.1[j] == rest.1[j - 1]);
                    }
                }
            }
        }
    }
}

proof fn lemma_base_keys_shape(l: LayoutView, keys: KeysView, names: Seq<Seq<char>>, ms: MacrosView, tap: u32, combo_time: u32)
    ensures
        spec_base_keys(l, keys, names, ms, tap, combo_time) matches Ok(p) ==> {
            &&& ungated(p.0)
            &&& ungated(p.1)
            &&& all_chords(p.0, combo_time)
            &&& all_single(p.1)
        },
    decreases keys.len(),
{
    if keys.len() > 0 {
        lemma_base_keys_shape(l, keys.drop_first(), names, ms, tap, combo_time);
        lemma_from_layer_key(l, keys[0].0, combo_time);
        if let Ok(p) = spec_base_keys(l, keys, names, ms, tap, combo_time) {
            let m = spec_base_manipulator(l, keys[0].0, keys[0].1, names, ms, tap, combo_time)->Ok_0;
            let rest = spec_base_keys(l, keys.drop_first(), names, ms, tap, combo_time)->Ok_0;
            assert(basic_any(m) && m.conditions.len() == 0);
            if is_chord(keys[0].0) {
                assert(chord_of(m, combo_time));
                assert(p.0 == seq![m] + rest.0 && p.1 == rest.1);
                assert forall|j: int| #![trigger p.0[j]] 0 <= j < p.0.len() implies basic_any(p.0[j])
                    && p.0[j].conditions.len() == 0 && chord_of(p.0[j], combo_time) by {
                    if j > 0 {
                        assert(p.0[j] == rest.0[j - 1]);
                    }
                }
            } else {
                assert(single_key(m));
                assert(p.1 == seq![m] + rest.1 && p.0 == rest.0);
                assert forall|j: int| #![trigger p.1[j]] 0 <= j < p.1.len() implies basic_any(p.1[j])
                    && p.1[j].conditions.len() == 0 && single_key(p.1[j]) by {
                    if j > 0 {
                        assert(p.1[j] == rest.1[j - 1]);
                    }
                }
            }
        }
    }
}

proof fn lemma_gated_concat(a: Seq<ManipulatorView>, b: Seq<ManipulatorView>, n: Seq<char>)
    requires
        gated_by(a, n),
        gated_by(b, n),
    ensures
        gated_by(a + b, n),
{
    let ms = a + b;
    assert forall|j: int| #![trigger ms[j]] 0 <= j < ms.len() implies basic_any(ms[j])
        && ms[j].conditions == seq![spec_variable_if(spec_layer_var(n), 1)] by {
        if j < a.len() {
            assert(ms[j] == a[j]);
        } else {
            assert(ms[j] == b[j - a.len()]);
        }
    }
}

proof fn lemma_ungated_concat(a: Seq<ManipulatorView>, b: Seq<ManipulatorView>)
    requires
        ungated(a),
        ungated(b),
    ensures
        ungated(a + b),
{
    let ms = a + b;
    assert forall|j: int| #![trigger ms[j]] 0 <= j < ms.len() implies basic_any(ms[j]) && ms[j].conditions.len() == 0 by {
        if j < a.len() {
            assert(ms[j] == a[j]);
        } else {
            assert(ms[j] == b[j - a.len()]);
        }
    }
}

proof fn lemma_layer_rules_shape(l: LayoutView, layers: Seq<(Seq<char>, KeysView)>, ms: MacrosView, combo_time: u32)
    ensures
        spec_layer_rules(l, layers, ms, combo_time) matches Ok(rs) ==> forall|i: int|
            0 <= i < rs.len() ==> #[trigger] is_layer_rule(rs[i], combo_time),
    decreases layers.len(),
{
    if layers.len() > 0 {
        lemma_layer_rules_shape(l, layers.drop_first(), ms, combo_time);
        if layers[0].0 != base_layer() {
            lemma_layer_keys_shape(l, layers[0].0, layers[0].1, ms, combo_time);
            if let Ok(rs) = spec_layer_rules(l, layers, ms, combo_time) {
                let p = spec_layer_keys(l, layers[0].0, layers[0].1, ms, combo_time)->Ok_0;
                let rest = spec_layer_rules(l, layers.drop_first(), ms, combo_time)->Ok_0;
                if chords_first(p).len() > 0 {
                    let r = RuleView { description: "Layer: "@ + layers[0].0, manipulators: chords_first(p) };
                    assert(rs == seq![r] + rest);
                    lemma_gated_concat(p.0, p.1, layers[0].0);
                    lemma_join_split(p.0, p.1, combo_time);
                    assert(layer_rule_of(r, layers[0].0, combo_time));
                    assert forall|i: int| 0 <= i < rs.len() implies #[trigger] is_layer_rule(rs[i], combo_time) by {
                        if i > 0 {
                            assert(rs[i] == rest[i - 1]);
                        }
                    }
                } else {
                    assert(rs =~= rest);
                }
            }
        }
    }
}

/// Rules come out as the layer rules, in layer order, and then the base rule
/// if there is one: the rules gated by a layer come before the ungated base
/// rule, so they win Karabiner's first-match order. Within each rule the
/// chords (two or more keys within `combo_time`) come before the single
/// keys, so a chord wins inside its window. Every manipulator is a `basic`
/// one that accepts any modifiers.
pub proof fn lemma_convert_rule_order(p: ProfileView)
    ensures
        spec_convert(p) matches Ok(rules) ==> forall|i: int|
            0 <= i < rules.len() ==> #[trigger] is_layer_rule(rules[i], p.combo_time) || (i == rules.len() - 1
                && is_base_rule(rules[i], p.combo_time)),
{
    if let Ok(rules) = spec_convert(p) {
        let l = spec_for_keyboard(p.os_layout)->Ok_0;
        let ms = spec_expand_macros(l, p.macros)->Ok_0;
        let lr = spec_layer_rules(l, p.layers, ms, p.combo_time)->Ok_0;
        lemma_layer_rules_shape(l, p.layers, ms, p.combo_time);
        let br = spec_base_rule(l, p, ms)->Ok_0;
        assert(rules == lr + br);
        if let Some(keys) = assoc(p.layers, base_layer()) {
            lemma_base_keys_shape(l, keys, spec_layer_names(p.layers), ms, p.tap_time, p.combo_time);
            if let Ok(s) = spec_base_keys(l, keys, spec_layer_names(p.layers), ms, p.tap_time, p.combo_time) {
                lemma_ungated_concat(s.0, s.1);
                lemma_join_split(s.0, s.1, p.combo_time);
            }
        }
        assert forall|i: int| 0 <= i < rules.len() implies #[trigger] is_layer_rule(rules[i], p.combo_time) || (i
            == rules.len() - 1 && is_base_rule(rules[i], p.combo_time)) by {
            if i < lr.len() {
                assert(rules[i] == lr[i]);
            } else {
                assert(rules[i] == br[i - lr.len()]);
            }
        }
    }
}

proof fn lemma_validate_finds(layers: Seq<(Seq<char>, KeysView)>, i: int)
    requires
        0 <= i < layers.len(),
        shadows_key_code(layers[i].0),
    ensures
        spec_validate_layer_names(layers) is Some,
    decreases i,
{
    if i > 0 && !shadows_key_code(layers[0].0) {
        lemma_validate_finds(layers.drop_first(), i - 1);
    }
}

/// A profile with a non-base layer whose name a key code would shadow (one
/// ASCII letter or digit, or a reserved name) is refused.
pub proof fn lemma_convert_rejects_shadowing_layer(p: ProfileView, i: int)
    requires
        0 <= i < p.layers.len(),
        shadows_key_code(p.layers[i].0),
    ensures
        spec_convert(p) is Err,
{
    lemma_validate_finds(p.layers, i);
}

proof fn lemma_layer_keys_fails(l: LayoutView, layer: Seq<char>, keys: KeysView, ms: MacrosView, c: u32, j: int)
    requires
        0 <= j < keys.len(),
        spec_layer_manipulator(l, keys[j].0, keys[j].1, layer, ms, c) is Err,
    ensures
        spec_layer_keys(l, layer, keys, ms, c) is Err,
    decreases j,
{
    if j > 0 && spec_layer_manipulator(l, keys[0].0, keys[0].1, layer, ms, c) is Ok {
        lemma_layer_keys_fails(l, layer, keys.drop_first(), ms, c, j - 1);
    }
}

proof fn lemma_layer_rules_fails(l: LayoutView, layers: Seq<(Seq<char>, KeysView)>, ms: MacrosView, c: u32, i: int, j: int)
    requires
        0 <= i < layers.len(),
        layers[i].0 != base_layer(),
        0 <= j < layers[i].1.len(),
        spec_layer_manipulator(l, layers[i].1[j].0, layers[i].1[j].1, layers[i].0, ms, c) is Err,
    ensures
        spec_layer_rules(l, layers, ms, c) is Err,
    decreases i,
{
    if i == 0 {
        lemma_layer_keys_fails(l, layers[0].0, layers[0].1, ms, c, j);
    } else {
        lemma_layer_rules_fails(l, layers.drop_first(), ms, c, i - 1, j);
    }
}

/// Tap-hold is base-only: a profile with a `[tap, hold]` value in a layer
/// other than `base` is refused.
pub proof fn lemma_convert_rejects_tap_hold_outside_base(p: ProfileView, i: int, j: int)
    requires
        0 <= i < p.layers.len(),
        p.layers[i].0 != base_layer(),
        0 <= j < p.layers[i].1.len(),
        p.layers[i].1[j].1 is TapHold,
    ensures
        spec_convert(p) is Err,
{
    if let Ok(l) = spec_for_keyboard(p.os_layout) {
        if let Ok(ms) = spec_expand_macros(l, p.macros) {
            lemma_layer_rules_fails(l, p.layers, ms, p.combo_time, i, j);
        }
    }
}

proof fn lemma_expand_macros_names(l: LayoutView, m: Seq<(Seq<char>, crate::config::MacroView)>, k: Seq<char>)
    ensures
        spec_expand_macros(l, m) matches Ok(ms) ==> (assoc(ms, k) is None <==> assoc(m, k) is None),
    decreases m.len(),
{
    if m.len() > 0 {
        lemma_expand_macros_names(l, m.drop_first(), k);
        if let Ok(ms) = spec_expand_macros(l, m) {
            let rest = spec_expand_macros(l, m.drop_first())->Ok_0;
            assert(ms[0].0 == m[0].0);
            assert(ms.drop_first() =~= rest);
        }
    }
}

/// Referring to a macro that the profile does not define (`"$name"`) from a
/// layer other than `base` makes the profile refused.
pub proof fn lemma_convert_rejects_missing_macro(p: ProfileView, i: int, j: int, action: Seq<char>)
    requires
        0 <= i < p.layers.len(),
        p.layers[i].0 != base_layer(),
        0 <= j < p.layers[i].1.len(),
        p.layers[i].1[j].1 == LayerValueView::Simple(action),
        action.len() > 0,
        action[0] == '$',
        assoc(p.macros, action.drop_first()) is None,
    ensures
        spec_convert(p) is Err,
{
    if let Ok(l) = spec_for_keyboard(p.os_layout) {
        lemma_expand_macros_names(l, p.macros, action.drop_first());
        if let Ok(ms) = spec_expand_macros(l, p.macros) {
            assert(spec_resolve_action(l, action, ms) is Err);
            lemma_layer_rules_fails(l, p.layers, ms, p.combo_time, i, j);
        }
    }
}

proof fn lemma_expand_plain_from(l: LayoutView, t: Seq<char>, i: int)
    requires
        0 <= i <= t.len(),
        !t.contains('{'),
    ensures
        expand_from(l, t, i) matches Ok(evs) ==> evs.len() == t.len() - i,
        (forall|k: int| i <= k < t.len() ==> #[trigger] spec_char_to_key(l, t[k]) is Ok) ==> expand_from(l, t, i) is Ok,
    decreases t.len() - i,
{
    if i < t.len() {
        assert(t[i] != '{');
        lemma_expand_plain_from(l, t, i + 1);
    }
}

/// Text without `{` types one key per character: it expands exactly when
/// every character is known, to one event per character.
pub proof fn lemma_expand_plain_text(l: LayoutView, t: Seq<char>)
    requires
        !t.contains('{'),
    ensures
        spec_expand_text(l, t) matches Ok(evs) ==> evs.len() == t.len(),
        (forall|k: int| 0 <= k < t.len() ==> #[trigger] spec_char_to_key(l, t[k]) is Ok) ==> spec_expand_text(l, t) is Ok,
{
    lemma_expand_plain_from(l, t, 0);
}

/// Some `}` comes after position `k` of `t`.
pub open spec fn has_close_after(t: Seq<char>, k: int) -> bool {
    exists|j: int| k < j < t.len() && t[j] == '}'
}

/// Every `{` of `t` from position `i` on has a later `}`.
pub open spec fn braces_close_from(t: Seq<char>, i: int) -> bool {
    forall|k: int| i <= k < t.len() && t[k] == '{' ==> #[trigger] has_close_after(t, k)
}

/// Every `{` of `t` has a later `}`, so no brace is left open.
pub open spec fn braces_close(t: Seq<char>) -> bool {
    braces_close_from(t, 0)
}

/// The events of `first` followed by those of `then`, or the first error.
pub open spec fn then_events(
    first: Result<Seq<EventView>, Seq<char>>,
    then: Result<Seq<EventView>, Seq<char>>,
) -> Result<Seq<EventView>, Seq<char>> {
    match first {
        Ok(a) => prepend(a, then),
        Err(e) => Err(e),
    }
}

proof fn lemma_then_events_prepend(x: Seq<EventView>, r: Result<Seq<EventView>, Seq<char>>, rest: Result<Seq<EventView>, Seq<char>>)
    ensures
        then_events(prepend(x, r), rest) == prepend(x, then_events(r, rest)),
{
    if let Ok(s) = r {
        lemma_prepend_prepend(x, s, rest);
    }
}

proof fn lemma_prepend_nothing(r: Result<Seq<EventView>, Seq<char>>)
    ensures
        prepend(seq![], r) == r,
{
    if let Ok(s) = r {
        assert(Seq::<EventView>::empty() + s =~= s);
    }
}

proof fn lemma_prefix_from(l: LayoutView, a: Seq<char>, b: Seq<char>, i: int)
    requires
        0 <= i <= a.len(),
        braces_close_from(a, i),
    ensures
        expand_from(l, a + b, i) == then_events(expand_from(l, a, i), expand_from(l, a + b, a.len() as int)),
    decreases a.len() - i, 1int,
{
    let t = a + b;
    if i == a.len() {
        lemma_prepend_nothing(expand_from(l, t, a.len() as int));
    } else {
        assert(t[i] == a[i]);
        if a[i] == '{' {
            assert(has_close_after(a, i));
            lemma_prefix_brace(l, a, b, i + 1, i + 1);
        } else {
            lemma_prefix_from(l, a, b, i + 1);
            if let Ok(p) = spec_char_to_key(l, a[i]) {
                lemma_then_events_prepend(seq![key_view(p)], expand_from(l, a, i + 1), expand_from(l, t, a.len() as int));
            }
        }
    }
}

proof fn lemma_prefix_brace(l: LayoutView, a: Seq<char>, b: Seq<char>, start: int, k: int)
    requires
        1 <= start <= k <= a.len(),
        has_close_after(a, k - 1),
        braces_close_from(a, start),
    ensures
        expand_brace(l, a + b, start, k) == then_events(expand_brace(l, a, start, k), expand_from(l, a + b, a.len() as int)),
    decreases a.len() - k, 0int,
{
    let t = a + b;
    let j = choose|j: int| k - 1 < j < a.len() && a[j] == '}';
    assert(k < a.len());
    assert(t[k] == a[k]);
    if a[k] == '}' {
        assert(t.subrange(start, k) =~= a.subrange(start, k));
        lemma_prefix_from(l, a, b, k + 1);
        if let Ok(p) = spec_parse_key_expr(l, a.subrange(start, k)) {
            lemma_then_events_prepend(seq![key_view(p)], expand_from(l, a, k + 1), expand_from(l, t, a.len() as int));
        }
    } else {
        assert(j > k);
        assert(has_close_after(a, k));
        lemma_prefix_brace(l, a, b, start, k + 1);
    }
}

proof fn lemma_suffix_from(l: LayoutView, a: Seq<char>, b: Seq<char>, j: int)
    requires
        0 <= j <= b.len(),
        braces_close_from(b, j),
    ensures
        expand_from(l, a + b, a.len() + j) == expand_from(l, b, j),
    decreases b.len() - j, 1int,
{
    let t = a + b;
    if j < b.len() {
        assert(t[a.len() + j] == b[j]);
        if b[j] == '{' {
            assert(has_close_after(b, j));
            lemma_suffix_brace(l, a, b, j + 1, j + 1);
        } else {
            lemma_suffix_from(l, a, b, j + 1);
        }
    }
}

proof fn lemma_suffix_brace(l: LayoutView, a: Seq<char>, b: Seq<char>, start: int, k: int)
    requires
        1 <= start <= k <= b.len(),
        has_close_after(b, k - 1),
        braces_close_from(b, start),
    ensures
        expand_brace(l, a + b, a.len() + start, a.len() + k) == expand_brace(l, b, start, k),
    decreases b.len() - k, 0int,
{
    let t = a + b;
    let j = choose|j: int| k - 1 < j < b.len() && b[j] == '}';
    assert(k < b.len());
    assert(t[a.len() + k] == b[k]);
    if b[k] == '}' {
        assert(t.subrange(a.len() + start, a.len() + k) =~= b.subrange(start, k));
        lemma_suffix_from(l, a, b, k + 1);
    } else {
        assert(j > k);
        assert(has_close_after(b, k));
        lemma_suffix_brace(l, a, b, start, k + 1);
    }
}

/// Text macros compose: when neither piece leaves a `{` open, the events
/// of `a + b` are those of `a` followed by those of `b`, and the error of
/// `a + b` is that of the first piece that fails.
pub proof fn lemma_expand_text_concat(l: LayoutView, a: Seq<char>, b: Seq<char>)
    requires
        braces_close(a),
        braces_close(b),
    ensures
        spec_expand_text(l, a + b) == then_events(spec_expand_text(l, a), spec_expand_text(l, b)),
{
    lemma_prefix_from(l, a, b, 0);
    lemma_suffix_from(l, a, b, 0);
}

proof fn lemma_ok_closes_from(l: LayoutView, t: Seq<char>, i: int)
    requires
        0 <= i <= t.len(),
    ensures
        expand_from(l, t, i) is Ok ==> braces_close_from(t, i),
    decreases t.len() - i, 1int,
{
    if i < t.len() {
        if t[i] == '{' {
            lemma_ok_closes_brace(l, t, i + 1, i + 1);
        } else {
            lemma_ok_closes_from(l, t, i + 1);
        }
    }
}

proof fn lemma_ok_closes_brace(l: LayoutView, t: Seq<char>, start: int, k: int)
    requires
        1 <= start <= k <= t.len(),
    ensures
        expand_brace(l, t, start, k) is Ok ==> braces_close_from(t, k) && has_close_after(t, k - 1),
    decreases t.len() - k, 0int,
{
    if k < t.len() {
        if t[k] == '}' {
            lemma_ok_closes_from(l, t, k + 1);
        } else {
            lemma_ok_closes_brace(l, t, start, k + 1);
            if expand_brace(l, t, start, k) is Ok {
                let j = choose|j: int| k < j < t.len() && t[j] == '}';
                assert(k - 1 < j);
            }
        }
    }
}

/// A text macro that expands has no open `{`.
pub proof fn lemma_expand_text_ok_closes(l: LayoutView, t: Seq<char>)
    ensures
        spec_expand_text(l, t) is Ok ==> braces_close(t),
{
    lemma_ok_closes_from(l, t, 0);
}

/// If `a` and `b` expand, `a + b` expands to their events one after the other.
pub proof fn lemma_expand_text_append(l: LayoutView, a: Seq<char>, b: Seq<char>)
    requires
        spec_expand_text(l, a) is Ok,
        spec_expand_text(l, b) is Ok,
    ensures
        spec_expand_text(l, a + b) == Ok::<Seq<EventView>, Seq<char>>(
            spec_expand_text(l, a)->Ok_0 + spec_expand_text(l, b)->Ok_0,
        ),
{
    lemma_expand_text_ok_closes(l, a);
    lemma_expand_text_ok_closes(l, b);
    lemma_expand_text_concat(l, a, b);
}

/// A character other than `{` types that character.
pub proof fn lemma_expand_char_token(l: LayoutView, c: char)
    requires
        c != '{',
    ensures
        spec_expand_text(l, seq![c]) == match spec_char_to_key(l, c) {
            Ok(p) => Ok::<Seq<EventView>, Seq<char>>(seq![key_view(p)]),
            Err(e) => Err(e),
        },
{
    let t = seq![c];
    assert(t[0] == c);
    assert(expand_from(l, t, 1) == Ok::<Seq<EventView>, Seq<char>>(seq![]));
    assert(spec_expand_text(l, t) == match spec_char_to_key(l, c) {
        Err(e) => Err(e),
        Ok(p) => prepend(seq![key_view(p)], expand_from(l, t, 1)),
    });
    if let Ok(p) = spec_char_to_key(l, c) {
        assert(seq![key_view(p)] + Seq::<EventView>::empty() =~= seq![key_view(p)]);
    }
}

proof fn lemma_brace_scan(l: LayoutView, e: Seq<char>, k: int)
    requires
        1 <= k <= e.len() + 1,
        !e.contains('}'),
    ensures
        expand_brace(l, seq!['{'] + e + seq!['}'], 1, k) == expand_brace(l, seq!['{'] + e + seq!['}'], 1, (e.len() + 1) as int),
    decreases e.len() + 1 - k,
{
    let t = seq!['{'] + e + seq!['}'];
    if k <= e.len() {
        assert(t[k] == e[k - 1]);
        assert(e[k - 1] != '}');
        lemma_brace_scan(l, e, k + 1);
    }
}

/// `{e}`, with no `}` in `e`, types the key expression `e`.
pub proof fn lemma_expand_brace_token(l: LayoutView, e: Seq<char>)
    requires
        !e.contains('}'),
    ensures
        spec_expand_text(l, seq!['{'] + e + seq!['}']) == match spec_parse_key_expr(l, e) {
            Ok(p) => Ok::<Seq<EventView>, Seq<char>>(seq![key_view(p)]),
            Err(x) => Err(x),
        },
{
    let t = seq!['{'] + e + seq!['}'];
    assert(t[0] == '{');
    lemma_brace_scan(l, e, 1);
    let k = (e.len() + 1) as int;
    assert(t[k] == '}');
    assert(t.subrange(1, k) =~= e);
    assert(t.len() == k + 1);
    assert(expand_from(l, t, k + 1) == Ok::<Seq<EventView>, Seq<char>>(seq![]));
    assert(spec_expand_text(l, t) == expand_brace(l, t, 1, 1));
    assert(expand_brace(l, t, 1, k) == match spec_parse_key_expr(l, e) {
        Err(x) => Err(x),
        Ok(p) => prepend(seq![key_view(p)], expand_from(l, t, k + 1)),
    });
    if let Ok(p) = spec_parse_key_expr(l, e) {
        assert(seq![key_view(p)] + Seq::<EventView>::empty() =~= seq![key_view(p)]);
    }
}

/// A token of a text macro: a character typed as itself, or `{e}`.
pub enum TextToken {
    Char(char),
    Expr(Seq<char>),
}

/// The token can stand in a text: a character other than `{`, or an
/// expression without `}`.
pub open spec fn token_ok(tok: TextToken) -> bool {
    match tok {
        TextToken::Char(c) => c != '{',
        TextToken::Expr(e) => !e.contains('}'),
    }
}

pub open spec fn token_text(tok: TextToken) -> Seq<char> {
    match tok {
        TextToken::Char(c) => seq![c],
        TextToken::Expr(e) => seq!['{'] + e + seq!['}'],
    }
}

/// The text the tokens spell, in order.
pub open spec fn tokens_text(toks: Seq<TextToken>) -> Seq<char>
    decreases toks.len(),
{
    if toks.len() == 0 {
        seq![]
    } else {
        token_text(toks[0]) + tokens_text(toks.drop_first())
    }
}

/// The event of one token.
pub open spec fn token_events(l: LayoutView, tok: TextToken) -> Result<Seq<EventView>, Seq<char>> {
    match tok {
        TextToken::Char(c) => match spec_char_to_key(l, c) {
            Ok(p) => Ok(seq![key_view(p)]),
            Err(e) => Err(e),
        },
        TextToken::Expr(e) => match spec_parse_key_expr(l, e) {
            Ok(p) => Ok(seq![key_view(p)]),
            Err(x) => Err(x),
        },
    }
}

/// One event per token in order, or the error of the first token that fails.
pub open spec fn tokens_events(l: LayoutView, toks: Seq<TextToken>) -> Result<Seq<EventView>, Seq<char>>
    decreases toks.len(),
{
    if toks.len() == 0 {
        Ok(seq![])
    } else {
        then_events(token_events(l, toks[0]), tokens_events(l, toks.drop_first()))
    }
}

proof fn lemma_braces_close_concat(a: Seq<char>, b: Seq<char>)
    requires
        braces_close(a),
        braces_close(b),
    ensures
        braces_close(a + b),
{
    let t = a + b;
    assert forall|k: int| 0 <= k < t.len() && t[k] == '{' implies #[trigger] has_close_after(t, k) by {
        if k < a.len() {
            assert(a[k] == '{');
            assert(has_close_after(a, k));
            let j = choose|j: int| k < j < a.len() && a[j] == '}';
            assert(t[j] == '}');
        } else {
            assert(b[k - a.len()] == '{');
            assert(has_close_after(b, k - a.len()));
            let j = choose|j: int| k - a.len() < j < b.len() && b[j] == '}';
            assert(t[a.len() + j] == '}');
        }
    }
}

proof fn lemma_token_closes(tok: TextToken)
    requires
        token_ok(tok),
    ensures
        braces_close(token_text(tok)),
{
    let t = token_text(tok);
    if let TextToken::Expr(e) = tok {
        assert forall|k: int| 0 <= k < t.len() && t[k] == '{' implies #[trigger] has_close_after(t, k) by {
            assert(t[t.len() - 1] == '}');
            if k > 0 && k < t.len() - 1 {
                assert(e[k - 1] == t[k]);
            }
        }
    } else {
        assert forall|k: int| 0 <= k < t.len() && t[k] == '{' implies #[trigger] has_close_after(t, k) by {}
    }
}

proof fn lemma_tokens_close(toks: Seq<TextToken>)
    requires
        forall|i: int| 0 <= i < toks.len() ==> token_ok(#[trigger] toks[i]),
    ensures
        braces_close(tokens_text(toks)),
    decreases toks.len(),
{
    if toks.len() == 0 {
        assert forall|k: int| 0 <= k < tokens_text(toks).len() && tokens_text(toks)[k] == '{'
            implies #[trigger] has_close_after(tokens_text(toks), k) by {}
    } else {
        let rest = toks.drop_first();
        assert(forall|i: int| 0 <= i < rest.len() ==> token_ok(#[trigger] rest[i])) by {
            assert forall|i: int| 0 <= i < rest.len() implies token_ok(#[trigger] rest[i]) by {
                assert(rest[i] == toks[i + 1]);
            }
        }
        lemma_tokens_close(rest);
        lemma_token_closes(toks[0]);
        lemma_braces_close_concat(token_text(toks[0]), tokens_text(rest));
    }
}

/// Text macros read token by token, left to right: a text spelled by
/// tokens (characters other than `{`, and `{e}` with no `}` in `e`) expands
/// to one event per token, each a typed character or a key expression, or
/// to the error of the first token that fails.
pub proof fn lemma_expand_text_tokens(l: LayoutView, toks: Seq<TextToken>)
    requires
        forall|i: int| 0 <= i < toks.len() ==> token_ok(#[trigger] toks[i]),
    ensures
        spec_expand_text(l, tokens_text(toks)) == tokens_events(l, toks),
    decreases toks.len(),
{
    if toks.len() == 0 {
        assert(tokens_text(toks).len() == 0);
    } else {
        let rest = toks.drop_first();
        assert(forall|i: int| 0 <= i < rest.len() ==> token_ok(#[trigger] rest[i])) by {
            assert forall|i: int| 0 <= i < rest.len() implies token_ok(#[trigger] rest[i]) by {
                assert(rest[i] == toks[i + 1]);
            }
        }
        assert(token_ok(toks[0]));
        lemma_expand_text_tokens(l, rest);
        lemma_tokens_close(rest);
        lemma_token_closes(toks[0]);
        lemma_expand_text_concat(l, token_text(toks[0]), tokens_text(rest));
        match toks[0] {
            TextToken::Char(c) => lemma_expand_char_token(l, c),
            TextToken::Expr(e) => lemma_expand_brace_token(l, e),
        }
    }
}

/// The only members of a one-member object.
proof fn lemma_single_member(key: Seq<char>, v: JsonView, other: Seq<char>)
    ensures
        member(seq![(key, v)], key) == Some(v),
        other != key ==> member(seq![(key, v)], other) is None,
{
    let e = Seq::<(Seq<char>, JsonView)>::empty();
    assert(seq![(key, v)] =~= e.push((key, v)));
    lemma_key_index(e, key);
    lemma_key_index(e, other);
    lemma_member_push(e, (key, v), key);
    lemma_member_push(e, (key, v), other);
}

/// The members of a fresh profile, as lookups find them.
proof fn lemma_fresh_profile(name: Seq<char>, rules: JsonView)
    ensures
        name_of(fresh_profile(name, rules)) == Some(name),
        rules_holder_member(fresh_profile(name, rules), "rules"@) == Some(rules),
{
    reveal_strlit("complex_modifications");
    reveal_strlit("name");
    reveal_strlit("selected");
    let a = ("complex_modifications"@, JsonView::Object(seq![("rules"@, rules)]));
    let b = ("name"@, JsonView::Str(name));
    let c = ("selected"@, JsonView::Bool(false));
    let e = Seq::<(Seq<char>, JsonView)>::empty();
    assert(seq![a, b, c] =~= e.push(a).push(b).push(c));
    lemma_key_index(e, "name"@);
    lemma_key_index(e, "complex_modifications"@);
    lemma_member_push(e, a, "name"@);
    lemma_member_push(e.push(a), b, "name"@);
    lemma_member_push(e.push(a).push(b), c, "name"@);
    lemma_member_push(e, a, "complex_modifications"@);
    lemma_member_push(e.push(a), b, "complex_modifications"@);
    lemma_member_push(e.push(a).push(b), c, "complex_modifications"@);
    lemma_single_member("rules"@, rules, "rules"@);
    assert("complex_modifications"@.len() != "name"@.len());
    assert(member(seq![a, b, c], "name"@) == Some(JsonView::Str(name)));
    assert(fresh_profile(name, rules) == JsonView::Object(seq![a, b, c]));
}

/// What `with_rules` changes in a profile: the member `rules` of its
/// `complex_modifications`, and nothing else.
proof fn lemma_with_rules(p: JsonView, rules: JsonView)
    ensures
        with_rules(p, rules) matches Ok(q) ==> {
            &&& forall|key: Seq<char>| key != "complex_modifications"@ ==> #[trigger] get(q, key) == get(p, key)
            &&& forall|key: Seq<char>| key != "rules"@ ==> #[trigger] rules_holder_member(q, key) == rules_holder_member(p, key)
            &&& rules_holder_member(q, "rules"@) == Some(rules)
        },
{
    let cm = "complex_modifications"@;
    if let JsonView::Object(fs) = p {
        lemma_key_index(fs, cm);
        match key_index(fs, cm) {
            None => {
                let holder = JsonView::Object(seq![("rules"@, rules)]);
                lemma_member_push(fs, (cm, holder), cm);
                assert forall|key: Seq<char>| key != cm implies #[trigger] get(with_rules(p, rules)->Ok_0, key) == get(p, key) by {
                    lemma_member_push(fs, (cm, holder), key);
                }
                assert forall|key: Seq<char>| key != "rules"@ implies #[trigger] rules_holder_member(with_rules(p, rules)->Ok_0, key) == rules_holder_member(p, key) by {
                    lemma_single_member("rules"@, rules, key);
                }
                lemma_single_member("rules"@, rules, "rules"@);
            },
            Some(k) => {
                if let JsonView::Object(holder) = fs[k].1 {
                    let v = JsonView::Object(crate::json::set_member(holder, "rules"@, rules));
                    assert(fs[k].0 == cm);
                    lemma_member_update(fs, k, v, cm);
                    assert forall|key: Seq<char>| key != cm implies #[trigger] get(with_rules(p, rules)->Ok_0, key) == get(p, key) by {
                        lemma_member_update(fs, k, v, key);
                        lemma_key_index(fs, key);
                    }
                    assert forall|key: Seq<char>| key != "rules"@ implies #[trigger] rules_holder_member(with_rules(p, rules)->Ok_0, key) == rules_holder_member(p, key) by {
                        lemma_member_after_set(holder, "rules"@, rules, key);
                    }
                    lemma_member_after_set(holder, "rules"@, rules, "rules"@);
                }
            },
        }
    }
}

/// An upsert changes nothing but the rules it writes. Where a profile has
/// the name, only the first such profile changes, and in it only the member
/// `rules` of `complex_modifications` (added where it is missing); where
/// none has, a fresh profile of that name and those rules is appended.
pub proof fn lemma_upsert_changes_only_rules(ps: Seq<JsonView>, name: Seq<char>, rules: JsonView)
    ensures
        spec_upsert(ps, name, rules) matches Ok(ps2) ==> match first_named(ps, name) {
            None => ps2 == ps.push(fresh_profile(name, rules)),
            Some(i) => {
                &&& ps2.len() == ps.len()
                &&& forall|j: int| 0 <= j < ps.len() && j != i ==> #[trigger] ps2[j] == ps[j]
                &&& forall|key: Seq<char>| key != "complex_modifications"@ ==> #[trigger] get(ps2[i], key) == get(ps[i], key)
                &&& forall|key: Seq<char>| key != "rules"@ ==> #[trigger] rules_holder_member(ps2[i], key) == rules_holder_member(ps[i], key)
                &&& rules_holder_member(ps2[i], "rules"@) == Some(rules)
            },
        },
{
    lemma_first_named(ps, name);
    if let Some(i) = first_named(ps, name) {
        lemma_with_rules(ps[i], rules);
    }
}

/// After an upsert of `name`, the profile that a lookup of `name` finds is
/// the one written (the first of that name, else the appended one), and it
/// holds the new rules.
pub proof fn lemma_upsert_then_lookup(ps: Seq<JsonView>, name: Seq<char>, rules: JsonView)
    ensures
        spec_upsert(ps, name, rules) matches Ok(ps2) ==> {
            let i = match first_named(ps, name) {
                Some(i) => i,
                None => ps.len() as int,
            };
            &&& first_named(ps2, name) == Some(i)
            &&& rules_holder_member(ps2[i], "rules"@) == Some(rules)
        },
{
    reveal_strlit("name");
    reveal_strlit("complex_modifications");
    lemma_first_named(ps, name);
    lemma_upsert_changes_only_rules(ps, name, rules);
    if let Ok(ps2) = spec_upsert(ps, name, rules) {
        match first_named(ps, name) {
            None => {
                lemma_fresh_profile(name, rules);
                lemma_first_named_push(ps, fresh_profile(name, rules), name);
            },
            Some(i) => {
                assert(get(ps2[i], "name"@) == get(ps[i], "name"@));
                assert forall|j: int| 0 <= j < ps2.len() implies name_of(#[trigger] ps2[j]) == name_of(ps[j]) by {
                    if j != i {
                        assert(ps2[j] == ps[j]);
                    }
                }
                lemma_first_named_same_names(ps2, ps, name);
            },
        }
    }
}

/// A sync step keeps every member of `karabiner.json` but `profiles`, and
/// writes into `profiles` what the upsert gives; a document without a
/// `profiles` array is refused.
pub proof fn lemma_sync_step_keeps_document(k: JsonView, name: Seq<char>, rules: JsonView)
    ensures
        profiles_of(k) is None ==> spec_sync_step(k, name, rules) == Err::<JsonView, Seq<char>>(msg_missing_profiles()),
        spec_sync_step(k, name, rules) matches Ok(k2) ==> {
            &&& forall|key: Seq<char>| key != "profiles"@ ==> #[trigger] get(k2, key) == get(k, key)
            &&& profiles_of(k) matches Some(ps)
            &&& spec_upsert(ps, name, rules) matches Ok(ps2)
            &&& profiles_of(k2) == Some(ps2)
        },
{
    if let JsonView::Object(fs) = k {
        lemma_key_index(fs, "profiles"@);
        if let Some(i) = key_index(fs, "profiles"@) {
            if let JsonView::Array(ps) = fs[i].1 {
                if let Ok(ps2) = spec_upsert(ps, name, rules) {
                    let v = JsonView::Array(ps2);
                    assert(fs[i].0 == "profiles"@);
                    lemma_member_update(fs, i, v, "profiles"@);
                    assert forall|key: Seq<char>| key != "profiles"@ implies #[trigger] get(spec_sync_step(k, name, rules)->Ok_0, key) == get(k, key) by {
                        lemma_member_update(fs, i, v, key);
                        lemma_key_index(fs, key);
                    }
                }
            }
        }
    }
}

/// Setting a member keeps an object valid.
proof fn lemma_set_member_wf(fs: Members, key: Seq<char>, v: JsonView)
    requires
        json_wf(JsonView::Object(fs)),
        json_wf(v),
    ensures
        json_wf(JsonView::Object(set_member(fs, key, v))),
{
    lemma_key_index(fs, key);
    let g = set_member(fs, key, v);
    match key_index(fs, key) {
        Some(k) => {
            assert forall|a: int, b: int| 0 <= a < b < g.len() implies #[trigger] g[a].0 != #[trigger] g[b].0 by {
                assert(g[a].0 == fs[a].0);
                assert(g[b].0 == fs[b].0);
                assert(fs[a].0 != fs[b].0);
            }
            assert forall|i: int| 0 <= i < g.len() implies json_wf(#[trigger] g[i].1) by {
                if i != k {
                    assert(g[i] == fs[i]);
                    assert(json_wf(fs[i].1));
                }
            }
        },
        None => {
            assert forall|a: int, b: int| 0 <= a < b < g.len() implies #[trigger] g[a].0 != #[trigger] g[b].0 by {
                assert(g[a] == fs[a]);
                if b < fs.len() {
                    assert(g[b] == fs[b]);
                    assert(fs[a].0 != fs[b].0);
                } else {
                    assert(fs[a].0 != key);
                }
            }
            assert forall|i: int| 0 <= i < g.len() implies json_wf(#[trigger] g[i].1) by {
                if i < fs.len() {
                    assert(g[i] == fs[i]);
                    assert(json_wf(fs[i].1));
                }
            }
        },
    }
}

/// A fresh profile of valid rules is valid.
proof fn lemma_fresh_profile_wf(name: Seq<char>, rules: JsonView)
    requires
        json_wf(rules),
    ensures
        json_wf(fresh_profile(name, rules)),
{
    reveal_strlit("complex_modifications");
    reveal_strlit("name");
    reveal_strlit("selected");
    let holder = JsonView::Object(seq![("rules"@, rules)]);
    assert(json_wf(holder));
    let fs = seq![
        ("complex_modifications"@, holder),
        ("name"@, JsonView::Str(name)),
        ("selected"@, JsonView::Bool(false)),
    ];
    assert(fresh_profile(name, rules) == JsonView::Object(fs));
    assert(json_wf(fs[1].1) && json_wf(fs[2].1));
    assert(fs[0].0.len() != fs[1].0.len() && fs[0].0.len() != fs[2].0.len() && fs[1].0.len() != fs[2].0.len());
}

/// Writing valid rules into a valid profile gives a valid profile.
proof fn lemma_with_rules_wf(p: JsonView, rules: JsonView)
    requires
        json_wf(p),
        json_wf(rules),
    ensures
        with_rules(p, rules) matches Ok(q) ==> json_wf(q),
{
    let cm = "complex_modifications"@;
    if let JsonView::Object(fs) = p {
        lemma_key_index(fs, cm);
        match key_index(fs, cm) {
            None => {
                let holder = JsonView::Object(seq![("rules"@, rules)]);
                assert(json_wf(holder));
                lemma_set_member_wf(fs, cm, holder);
                assert(set_member(fs, cm, holder) == fs.push((cm, holder)));
            },
            Some(k) => {
                if let JsonView::Object(hfs) = fs[k].1 {
                    assert(json_wf(fs[k].1));
                    lemma_set_member_wf(hfs, "rules"@, rules);
                    let holder = JsonView::Object(set_member(hfs, "rules"@, rules));
                    lemma_set_member_wf(fs, cm, holder);
                    assert(set_member(fs, cm, holder) == fs.update(k, (cm, holder)));
                }
            },
        }
    }
}

/// An upsert of valid rules keeps valid profiles valid.
pub proof fn lemma_upsert_keeps_profiles_valid(ps: Seq<JsonView>, name: Seq<char>, rules: JsonView)
    requires
        forall|i: int| 0 <= i < ps.len() ==> json_wf(#[trigger] ps[i]),
        json_wf(rules),
    ensures
        spec_upsert(ps, name, rules) matches Ok(ps2) ==> forall|i: int| 0 <= i < ps2.len() ==> json_wf(#[trigger] ps2[i]),
{
    lemma_first_named(ps, name);
    match first_named(ps, name) {
        None => {
            lemma_fresh_profile_wf(name, rules);
            let ps2 = ps.push(fresh_profile(name, rules));
            assert forall|i: int| 0 <= i < ps2.len() implies json_wf(#[trigger] ps2[i]) by {
                if i < ps.len() {
                    assert(ps2[i] == ps[i]);
                }
            }
        },
        Some(j) => {
            lemma_with_rules_wf(ps[j], rules);
            if let Ok(q) = with_rules(ps[j], rules) {
                let ps2 = ps.update(j, q);
                assert forall|i: int| 0 <= i < ps2.len() implies json_wf(#[trigger] ps2[i]) by {
                    if i != j {
                        assert(ps2[i] == ps[i]);
                    }
                }
            }
        },
    }
}

/// A sync step with valid rules keeps a valid `karabiner.json` valid.
pub proof fn lemma_sync_step_keeps_document_valid(k: JsonView, name: Seq<char>, rules: JsonView)
    requires
        json_wf(k),
        json_wf(rules),
    ensures
        spec_sync_step(k, name, rules) matches Ok(k2) ==> json_wf(k2),
{
    if let JsonView::Object(fs) = k {
        lemma_key_index(fs, "profiles"@);
        if let Some(i) = key_index(fs, "profiles"@) {
            if let JsonView::Array(ps) = fs[i].1 {
                assert(json_wf(fs[i].1));
                lemma_upsert_keeps_profiles_valid(ps, name, rules);
                if let Ok(ps2) = spec_upsert(ps, name, rules) {
                    let v = JsonView::Array(ps2);
                    assert(json_wf(v));
                    lemma_set_member_wf(fs, "profiles"@, v);
                    assert(set_member(fs, "profiles"@, v) == fs.update(i, ("profiles"@, v)));
                }
            }
        }
    }
}

proof fn lemma_sync_all_keeps_document_valid(k: JsonView, items: Seq<(Seq<char>, JsonView)>)
    requires
        json_wf(k),
        forall|i: int| 0 <= i < items.len() ==> json_wf(#[trigger] items[i].1),
    ensures
        spec_sync_all(k, items) matches Ok(k2) ==> json_wf(k2),
    decreases items.len(),
{
    if items.len() > 0 && items[0].0 != crate::sync::system_default() {
        assert(json_wf(items[0].1));
        lemma_sync_step_keeps_document_valid(k, items[0].0, items[0].1);
        if let Ok(k1) = spec_sync_step(k, items[0].0, items[0].1) {
            let rest = items.drop_first();
            assert forall|i: int| 0 <= i < rest.len() implies json_wf(#[trigger] rest[i].1) by {
                assert(rest[i] == items[i + 1]);
            }
            lemma_sync_all_keeps_document_valid(k1, rest);
        }
    }
}

/// A whole sync with valid compiled rules keeps a valid `karabiner.json`
/// valid: no object in the document written back repeats a key.
pub proof fn lemma_sync_keeps_document_valid(k: JsonView, items: Seq<(Seq<char>, JsonView)>)
    requires
        json_wf(k),
        forall|i: int| 0 <= i < items.len() ==> json_wf(#[trigger] items[i].1),
    ensures
        spec_sync(k, items) matches Ok(k2) ==> json_wf(k2),
{
    let none = JsonView::Array(Seq::<JsonView>::empty());
    assert(json_wf(none));
    lemma_sync_step_keeps_document_valid(k, crate::sync::system_default(), none);
    if let Ok(k1) = spec_sync_step(k, crate::sync::system_default(), none) {
        lemma_sync_all_keeps_document_valid(k1, items);
    }
}

/// Base-layer tap-hold `[tap, hold]`: tapping the key alone sends the key
/// event of `tap`, modifiers included, with `tap_time` as the timeout;
/// holding sends the key event of `hold`, or, where `hold` names a layer,
/// turns that layer on while the key is held. It compiles exactly when the
/// key is no chord and both sides resolve.
pub proof fn lemma_base_tap_hold(
    l: LayoutView,
    key: Seq<char>,
    tap: Seq<char>,
    hold: Seq<char>,
    layer_names: Seq<Seq<char>>,
    macros: MacrosView,
    tap_time: u32,
    combo_time: u32,
)
    ensures
        key.contains('+') ==> spec_base_manipulator(
            l, key, LayerValueView::TapHold(tap, hold), layer_names, macros, tap_time, combo_time,
        ) is Err,
        !key.contains('+') && spec_parse_key_expr(l, tap) is Ok
            && (layer_names.contains(hold) || spec_parse_key_expr(l, hold) is Ok) ==> spec_base_manipulator(
            l, key, LayerValueView::TapHold(tap, hold), layer_names, macros, tap_time, combo_time,
        ) is Ok,
        spec_base_manipulator(l, key, LayerValueView::TapHold(tap, hold), layer_names, macros, tap_time, combo_time)
            matches Ok(m) ==> {
            &&& spec_parse_key_expr(l, tap) matches Ok(t)
            &&& m.to_if_alone == seq![EventView::Key { key_code: t.0, modifiers: t.1 }]
            &&& m.parameters == Some(ParametersView { to_if_alone_timeout: Some(tap_time), simultaneous_threshold: None })
            &&& m.type_ == "basic"@
            &&& m.from_key == key
            &&& m.from_simultaneous.len() == 0
            &&& m.from_optional == seq!["any"@]
            &&& m.conditions.len() == 0
            &&& if layer_names.contains(hold) {
                &&& m.to == seq![EventView::SetVar { name: "layer_"@ + hold, value: 1 }]
                &&& m.to_after_key_up == seq![EventView::SetVar { name: "layer_"@ + hold, value: 0 }]
            } else {
                &&& spec_parse_key_expr(l, hold) matches Ok(h)
                &&& m.to == seq![EventView::Key { key_code: h.0, modifiers: h.1 }]
                &&& m.to_after_key_up.len() == 0
            }
        },
{
}

/// A key expression that is one word of ASCII letters, digits and `_`, and
/// not a symbol of the layout, is a key code: it parses to itself with no
/// modifiers (so `1` is the number-row key `1`).
pub proof fn lemma_parse_plain_key_code(l: LayoutView, s: Seq<char>)
    requires
        s.len() > 0,
        forall|i: int|
            0 <= i < s.len() ==> ('a' <= #[trigger] s[i] && s[i] <= 'z') || ('A' <= s[i] && s[i] <= 'Z') || ('0'
                <= s[i] && s[i] <= '9') || s[i] == '_',
        spec_resolve_symbol(l, s) is None,
    ensures
        spec_parse_key_expr(l, s) == Ok::<Parsed, Seq<char>>((s, seq![])),
{
    assert(!s.contains('+')) by {
        if s.contains('+') {
            let k = choose|k: int| 0 <= k < s.len() && s[k] == '+';
            assert(s[k] == '+');
        }
    }
    assert(s[s.len() - 1] != '+');
    assert(!ends_with_double_plus(s));
    lemma_split_single(s);
    assert(expr_parts(s) == seq![s]);
    assert(!has_empty_part(seq![s]));
    assert(seq![s].drop_last() =~= Seq::<Seq<char>>::empty());
    assert(spec_looks_like_keycode(s));
}

/// A text macro of one character: a lower-case ASCII letter or a digit
/// types that key, an upper-case letter types its lower-case key with
/// `shift`, and a space types `spacebar`, where the character is no symbol
/// of the layout.
pub proof fn lemma_expand_single_char(l: LayoutView, c: char)
    requires
        spec_resolve_symbol(l, seq![c]) is None,
    ensures
        ('a' <= c && c <= 'z') || ('0' <= c && c <= '9') ==> spec_expand_text(l, seq![c]) == Ok::<
            Seq<EventView>,
            Seq<char>,
        >(seq![EventView::Key { key_code: seq![c], modifiers: seq![] }]),
        'A' <= c && c <= 'Z' ==> spec_expand_text(l, seq![c]) == Ok::<Seq<EventView>, Seq<char>>(
            seq![EventView::Key { key_code: seq![((c as u8) + 32) as char], modifiers: seq!["shift"@] }],
        ),
        c == ' ' ==> spec_expand_text(l, seq![c]) == Ok::<Seq<EventView>, Seq<char>>(
            seq![EventView::Key { key_code: "spacebar"@, modifiers: seq![] }],
        ),
{
    let t = seq![c];
    assert(expand_from(l, t, 1) == Ok::<Seq<EventView>, Seq<char>>(seq![]));
    if let Ok(p) = spec_char_to_key(l, c) {
        assert(seq![key_view(p)] + Seq::<EventView>::empty() =~= seq![key_view(p)]);
    }
}

proof fn lemma_key_events_steps(l: LayoutView, steps: Seq<Seq<char>>)
    ensures
        spec_key_events(l, steps) matches Ok(evs) ==> {
            &&& evs.len() == steps.len()
            &&& forall|i: int|
                0 <= i < steps.len() ==> (spec_parse_key_expr(l, #[trigger] steps[i]) matches Ok(p) && evs[i]
                    == EventView::Key { key_code: p.0, modifiers: p.1 })
        },
        (forall|i: int| 0 <= i < steps.len() ==> spec_parse_key_expr(l, #[trigger] steps[i]) is Ok) ==> spec_key_events(
            l,
            steps,
        ) is Ok,
    decreases steps.len(),
{
    if steps.len() > 0 {
        let rest = steps.drop_first();
        lemma_key_events_steps(l, rest);
        if forall|i: int| 0 <= i < steps.len() ==> spec_parse_key_expr(l, #[trigger] steps[i]) is Ok {
            assert forall|i: int| 0 <= i < rest.len() implies spec_parse_key_expr(l, #[trigger] rest[i]) is Ok by {
                assert(rest[i] == steps[i + 1]);
            }
            assert(spec_parse_key_expr(l, steps[0]) is Ok);
        }
        if let Ok(evs) = spec_key_events(l, steps) {
            let rs = spec_key_events(l, rest)->Ok_0;
            let p0 = spec_parse_key_expr(l, steps[0])->Ok_0;
            assert(evs == seq![key_view(p0)] + rs);
            assert forall|i: int|
                0 <= i < steps.len() implies (spec_parse_key_expr(l, #[trigger] steps[i]) matches Ok(p) && evs[i]
                    == EventView::Key { key_code: p.0, modifiers: p.1 }) by {
                if i > 0 {
                    assert(steps[i] == rest[i - 1]);
                    assert(evs[i] == rs[i - 1]);
                }
            }
        }
    }
}

/// A sequence macro types its steps in the listed order: it expands exactly
/// when every step is a key expression, to one event per step, event `i`
/// being the key event of step `i`.
pub proof fn lemma_sequence_macro(l: LayoutView, steps: Seq<Seq<char>>)
    ensures
        spec_expand_macro(l, MacroView::Sequence(steps)) matches Ok(evs) ==> {
            &&& evs.len() == steps.len()
            &&& forall|i: int|
                0 <= i < steps.len() ==> (spec_parse_key_expr(l, #[trigger] steps[i]) matches Ok(p) && evs[i]
                    == EventView::Key { key_code: p.0, modifiers: p.1 })
        },
        (forall|i: int| 0 <= i < steps.len() ==> spec_parse_key_expr(l, #[trigger] steps[i]) is Ok)
            <==> spec_expand_macro(l, MacroView::Sequence(steps)) is Ok,
{
    lemma_key_events_steps(l, steps);
    if spec_expand_macro(l, MacroView::Sequence(steps)) is Ok {
        assert forall|i: int| 0 <= i < steps.len() implies spec_parse_key_expr(l, #[trigger] steps[i]) is Ok by {}
    }
}

/// A repeat macro types its key `repeat` times; a repeat of 0 types nothing.
pub proof fn lemma_repeat_macro(l: LayoutView, key: Seq<char>, repeat: u32)
    ensures
        repeat == 0 ==> spec_expand_macro(l, MacroView::Repeat { key, repeat }) == Ok::<Seq<EventView>, Seq<char>>(
            seq![],
        ),
        repeat > 0 ==> (spec_expand_macro(l, MacroView::Repeat { key, repeat }) is Ok <==> spec_parse_key_expr(
            l,
            key,
        ) is Ok),
        spec_expand_macro(l, MacroView::Repeat { key, repeat }) matches Ok(evs) ==> {
            &&& evs.len() == repeat
            &&& forall|i: int|
                0 <= i < repeat ==> (spec_parse_key_expr(l, key) matches Ok(p) && #[trigger] evs[i]
                    == EventView::Key { key_code: p.0, modifiers: p.1 })
        },
{
}

/// A profile with a non-base layer named by one ASCII letter or digit is
/// refused: such a name would shadow the key code of that key.
pub proof fn lemma_convert_rejects_single_char_layer(p: ProfileView, i: int)
    requires
        0 <= i < p.layers.len(),
        p.layers[i].0.len() == 1,
        ('a' <= p.layers[i].0[0] && p.layers[i].0[0] <= 'z') || ('A' <= p.layers[i].0[0] && p.layers[i].0[0] <= 'Z')
            || ('0' <= p.layers[i].0[0] && p.layers[i].0[0] <= '9'),
    ensures
        spec_convert(p) is Err,
{
    reveal_strlit("base");
    assert(p.layers[i].0 != base_layer());
    assert(shadows_key_code(p.layers[i].0));
    lemma_convert_rejects_shadowing_layer(p, i);
}

/// What a `Simple` action sends: `$name` sends the events of the macro
/// `name`, anything else the key event of the action.
pub open spec fn sends_action(l: LayoutView, action: Seq<char>, macros: MacrosView, to: Seq<EventView>) -> bool {
    if action.len() > 0 && action[0] == '$' {
        assoc(macros, action.drop_first()) == Some(to)
    } else {
        spec_parse_key_expr(l, action) matches Ok(p) && to == seq![EventView::Key { key_code: p.0, modifiers: p.1 }]
    }
}

/// The action resolves: a defined macro, or a key expression.
pub open spec fn action_resolves(l: LayoutView, action: Seq<char>, macros: MacrosView) -> bool {
    if action.len() > 0 && action[0] == '$' {
        assoc(macros, action.drop_first()) is Some
    } else {
        spec_parse_key_expr(l, action) is Ok
    }
}

/// A single key of a non-base layer: active only while the layer's variable
/// `layer_<name>` is 1, pressed with any modifiers, it sends its action.
/// It compiles exactly when the action resolves.
pub proof fn lemma_layer_single_key(
    l: LayoutView,
    key: Seq<char>,
    action: Seq<char>,
    layer: Seq<char>,
    macros: MacrosView,
    combo_time: u32,
)
    requires
        !key.contains('+'),
    ensures
        spec_layer_manipulator(l, key, LayerValueView::Simple(action), layer, macros, combo_time) is Ok
            <==> action_resolves(l, action, macros),
        spec_layer_manipulator(l, key, LayerValueView::Simple(action), layer, macros, combo_time) matches Ok(m) ==> {
            &&& m.type_ == "basic"@
            &&& m.from_key == key
            &&& m.from_simultaneous.len() == 0
            &&& m.from_optional == seq!["any"@]
            &&& m.conditions == seq![ConditionView { type_: "variable_if"@, name: "layer_"@ + layer, value: 1 }]
            &&& sends_action(l, action, macros, m.to)
            &&& m.to_if_alone.len() == 0
            &&& m.to_after_key_up.len() == 0
            &&& m.parameters is None
        },
{
}

/// A single key of the base layer with a `Simple` value: a layer name makes
/// it turn that layer on while held; anything else is a plain remap to the
/// action, active whatever layer is on. It compiles exactly when the value
/// is a layer name or the action resolves.
pub proof fn lemma_base_single_key(
    l: LayoutView,
    key: Seq<char>,
    action: Seq<char>,
    layer_names: Seq<Seq<char>>,
    macros: MacrosView,
    tap_time: u32,
    combo_time: u32,
)
    requires
        !key.contains('+'),
    ensures
        spec_base_manipulator(l, key, LayerValueView::Simple(action), layer_names, macros, tap_time, combo_time) is Ok
            <==> (layer_names.contains(action) || action_resolves(l, action, macros)),
        spec_base_manipulator(l, key, LayerValueView::Simple(action), layer_names, macros, tap_time, combo_time)
            matches Ok(m) ==> {
            &&& m.type_ == "basic"@
            &&& m.from_key == key
            &&& m.from_simultaneous.len() == 0
            &&& m.from_optional == seq!["any"@]
            &&& m.conditions.len() == 0
            &&& m.to_if_alone.len() == 0
            &&& m.parameters is None
            &&& if layer_names.contains(action) {
                &&& m.to == seq![EventView::SetVar { name: "layer_"@ + action, value: 1 }]
                &&& m.to_after_key_up == seq![EventView::SetVar { name: "layer_"@ + action, value: 0 }]
            } else {
                &&& sends_action(l, action, macros, m.to)
                &&& m.to_after_key_up.len() == 0
            }
        },
{
}

proof fn lemma_chord_codes_parts(l: LayoutView, parts: Seq<Seq<char>>)
    ensures
        spec_chord_codes(l, parts) matches Ok(codes) ==> {
            &&& codes.len() == parts.len()
            &&& forall|i: int|
                0 <= i < parts.len() ==> spec_parse_key_expr(l, #[trigger] parts[i]) == Ok::<Parsed, Seq<char>>(
                    (codes[i], seq![]),
                )
        },
        (forall|i: int|
            0 <= i < parts.len() ==> (spec_parse_key_expr(l, #[trigger] parts[i]) matches Ok(p) && p.1.len() == 0))
            ==> spec_chord_codes(l, parts) is Ok,
    decreases parts.len(),
{
    if parts.len() > 0 {
        let rest = parts.drop_first();
        lemma_chord_codes_parts(l, rest);
        if forall|i: int|
            0 <= i < parts.len() ==> (spec_parse_key_expr(l, #[trigger] parts[i]) matches Ok(p) && p.1.len() == 0) {
            assert forall|i: int|
                0 <= i < rest.len() implies (spec_parse_key_expr(l, #[trigger] rest[i]) matches Ok(p) && p.1.len()
                    == 0) by {
                assert(rest[i] == parts[i + 1]);
            }
            assert(spec_parse_key_expr(l, parts[0]) is Ok);
        }
        if let Ok(codes) = spec_chord_codes(l, parts) {
            let rc = spec_chord_codes(l, rest)->Ok_0;
            assert(codes == seq![codes[0]] + rc);
            assert forall|i: int| 0 <= i < parts.len() implies spec_parse_key_expr(l, #[trigger] parts[i]) == Ok::<
                Parsed,
                Seq<char>,
            >((codes[i], seq![])) by {
                if i > 0 {
                    assert(parts[i] == rest[i - 1]);
                    assert(codes[i] == rc[i - 1]);
                } else {
                    let p = spec_parse_key_expr(l, parts[0])->Ok_0;
                    assert(p.1 =~= Seq::<Seq<char>>::empty());
                }
            }
        }
    }
}

/// A layer key with `+` is a chord of its parts: it fires when all of the
/// parts' keys are pressed within `combo_time` ms. It compiles exactly when
/// every part is a plain key code, and the chord's keys are those codes, in
/// the order written.
pub proof fn lemma_chord_key(l: LayoutView, key: Seq<char>, combo_time: u32)
    requires
        key.contains('+'),
    ensures
        spec_from_layer_key(l, key, combo_time) is Ok <==> (forall|i: int|
            0 <= i < split_on(key, '+').len() ==> (spec_parse_key_expr(l, #[trigger] split_on(key, '+')[i]) matches Ok(
                p,
            ) && p.1.len() == 0)),
        spec_from_layer_key(l, key, combo_time) matches Ok(m) ==> {
            &&& m.type_ == "basic"@
            &&& m.from_key.len() == 0
            &&& m.from_simultaneous.len() == split_on(key, '+').len()
            &&& forall|i: int|
                0 <= i < m.from_simultaneous.len() ==> spec_parse_key_expr(l, #[trigger] split_on(key, '+')[i])
                    == Ok::<Parsed, Seq<char>>((m.from_simultaneous[i], seq![]))
            &&& m.from_optional == seq!["any"@]
            &&& m.parameters == Some(ParametersView { to_if_alone_timeout: None, simultaneous_threshold: Some(combo_time) })
        },
{
    let parts = split_on(key, '+');
    lemma_chord_codes_parts(l, parts);
    if spec_from_layer_key(l, key, combo_time) is Ok {
        let codes = spec_chord_codes(l, parts)->Ok_0;
        assert forall|i: int| 0 <= i < parts.len() implies (spec_parse_key_expr(l, #[trigger] parts[i]) matches Ok(p)
            && p.1.len() == 0) by {
            assert(spec_parse_key_expr(l, parts[i]) == Ok::<Parsed, Seq<char>>((codes[i], seq![])));
        }
    }
}

/// A text macro of one symbol character (other than `{`) types the key of
/// that symbol, with its modifiers (`(` types `shift+9` on US QWERTY).
pub proof fn lemma_expand_symbol_char(l: LayoutView, c: char)
    requires
        c != '{',
        spec_resolve_symbol(l, seq![c]) is Some,
    ensures
        spec_resolve_symbol(l, seq![c]) matches Some(p) && spec_expand_text(l, seq![c]) == Ok::<
            Seq<EventView>,
            Seq<char>,
        >(seq![EventView::Key { key_code: p.0, modifiers: p.1 }]),
{
    let t = seq![c];
    assert(expand_from(l, t, 1) == Ok::<Seq<EventView>, Seq<char>>(seq![]));
    if let Ok(p) = spec_char_to_key(l, c) {
        assert(seq![key_view(p)] + Seq::<EventView>::empty() =~= seq![key_view(p)]);
    }
}

proof fn lemma_base_keys_members(l: LayoutView, keys: KeysView, names: Seq<Seq<char>>, ms: MacrosView, tap: u32, combo_time: u32)
    ensures
        spec_base_keys(l, keys, names, ms, tap, combo_time) matches Ok(s) ==> {
            &&& chords_first(s).len() == keys.len()
            &&& forall|j: int|
                0 <= j < keys.len() ==> (spec_base_manipulator(l, (#[trigger] keys[j]).0, keys[j].1, names, ms, tap, combo_time)
                    matches Ok(m) && chords_first(s).contains(m))
        },
    decreases keys.len(),
{
    if keys.len() > 0 {
        let rest_keys = keys.drop_first();
        lemma_base_keys_members(l, rest_keys, names, ms, tap, combo_time);
        if let Ok(s) = spec_base_keys(l, keys, names, ms, tap, combo_time) {
            let m0 = spec_base_manipulator(l, keys[0].0, keys[0].1, names, ms, tap, combo_time)->Ok_0;
            let r = spec_base_keys(l, rest_keys, names, ms, tap, combo_time)->Ok_0;
            let all = chords_first(s);
            let rall = chords_first(r);
            if is_chord(keys[0].0) {
                assert(s == (seq![m0] + r.0, r.1));
                assert(all =~= seq![m0] + rall);
            } else {
                assert(s == (r.0, seq![m0] + r.1));
            }
            assert forall|x: ManipulatorView| rall.contains(x) implies all.contains(x) by {
                let k = choose|k: int| 0 <= k < rall.len() && rall[k] == x;
                if is_chord(keys[0].0) {
                    assert(all[k + 1] == x);
                } else if k < r.0.len() {
                    assert(all[k] == x);
                } else {
                    assert(all[k + 1] == x);
                }
            }
            if is_chord(keys[0].0) {
                assert(all[0] == m0);
            } else {
                assert(all[r.0.len() as int] == m0);
            }
            assert forall|j: int|
                0 <= j < keys.len() implies (spec_base_manipulator(l, (#[trigger] keys[j]).0, keys[j].1, names, ms, tap, combo_time)
                    matches Ok(m) && all.contains(m)) by {
                if j > 0 {
                    assert(keys[j] == rest_keys[j - 1]);
                }
            }
        }
    }
}

/// Every key of the base layer is compiled into the `Base` rule, the last
/// rule of the profile: one manipulator per key, each what that key's value
/// gives (see `lemma_base_tap_hold` and `lemma_base_single_key`).
pub proof fn lemma_convert_base_keys(p: ProfileView)
    ensures
        spec_convert(p) matches Ok(rules) ==> (assoc(p.layers, base_layer()) matches Some(keys) ==> keys.len() > 0 ==> {
            &&& rules.len() > 0
            &&& rules.last().description == "Base"@
            &&& rules.last().manipulators.len() == keys.len()
            &&& spec_for_keyboard(p.os_layout) matches Ok(l)
            &&& spec_expand_macros(l, p.macros) matches Ok(ms)
            &&& forall|j: int|
                0 <= j < keys.len() ==> (spec_base_manipulator(
                    l,
                    (#[trigger] keys[j]).0,
                    keys[j].1,
                    spec_layer_names(p.layers),
                    ms,
                    p.tap_time,
                    p.combo_time,
                ) matches Ok(m) && rules.last().manipulators.contains(m))
        }),
{
    if let Ok(rules) = spec_convert(p) {
        if let Some(keys) = assoc(p.layers, base_layer()) {
            if keys.len() > 0 {
                let l = spec_for_keyboard(p.os_layout)->Ok_0;
                let ms = spec_expand_macros(l, p.macros)->Ok_0;
                let lr = spec_layer_rules(l, p.layers, ms, p.combo_time)->Ok_0;
                let names = spec_layer_names(p.layers);
                lemma_base_keys_members(l, keys, names, ms, p.tap_time, p.combo_time);
                let s = spec_base_keys(l, keys, names, ms, p.tap_time, p.combo_time)->Ok_0;
                let br = RuleView { description: "Base"@, manipulators: chords_first(s) };
                assert(rules == lr + seq![br]);
                assert(rules.last() == br);
            }
        }
    }
}

proof fn lemma_layer_keys_members(l: LayoutView, layer: Seq<char>, keys: KeysView, ms: MacrosView, combo_time: u32)
    ensures
        spec_layer_keys(l, layer, keys, ms, combo_time) matches Ok(s) ==> {
            &&& chords_first(s).len() == keys.len()
            &&& forall|j: int|
                0 <= j < keys.len() ==> (spec_layer_manipulator(l, (#[trigger] keys[j]).0, keys[j].1, layer, ms, combo_time)
                    matches Ok(m) && chords_first(s).contains(m))
        },
    decreases keys.len(),
{
    if keys.len() > 0 {
        let rest_keys = keys.drop_first();
        lemma_layer_keys_members(l, layer, rest_keys, ms, combo_time);
        if let Ok(s) = spec_layer_keys(l, layer, keys, ms, combo_time) {
            let m0 = spec_layer_manipulator(l, keys[0].0, keys[0].1, layer, ms, combo_time)->Ok_0;
            let r = spec_layer_keys(l, layer, rest_keys, ms, combo_time)->Ok_0;
            let all = chords_first(s);
            let rall = chords_first(r);
            if is_chord(keys[0].0) {
                assert(s == (seq![m0] + r.0, r.1));
                assert(all =~= seq![m0] + rall);
            } else {
                assert(s == (r.0, seq![m0] + r.1));
            }
            assert forall|x: ManipulatorView| rall.contains(x) implies all.contains(x) by {
                let k = choose|k: int| 0 <= k < rall.len() && rall[k] == x;
                if is_chord(keys[0].0) {
                    assert(all[k + 1] == x);
                } else if k < r.0.len() {
                    assert(all[k] == x);
                } else {
                    assert(all[k + 1] == x);
                }
            }
            if is_chord(keys[0].0) {
                assert(all[0] == m0);
            } else {
                assert(all[r.0.len() as int] == m0);
            }
            assert forall|j: int|
                0 <= j < keys.len() implies (spec_layer_manipulator(l, (#[trigger] keys[j]).0, keys[j].1, layer, ms, combo_time)
                    matches Ok(m) && all.contains(m)) by {
                if j > 0 {
                    assert(keys[j] == rest_keys[j - 1]);
                }
            }
        }
    }
}

/// The rule of a non-base layer: labelled `Layer: <name>`, it holds one
/// manipulator per key of the layer, each what that key's value gives.
pub open spec fn rule_of_layer(
    l: LayoutView,
    r: RuleView,
    name: Seq<char>,
    keys: KeysView,
    ms: MacrosView,
    combo_time: u32,
) -> bool {
    &&& r.description == "Layer: "@ + name
    &&& r.manipulators.len() == keys.len()
    &&& forall|j: int|
        0 <= j < keys.len() ==> (spec_layer_manipulator(l, (#[trigger] keys[j]).0, keys[j].1, name, ms, combo_time)
            matches Ok(m) && r.manipulators.contains(m))
}

proof fn lemma_layer_rules_members(l: LayoutView, layers: Seq<(Seq<char>, KeysView)>, ms: MacrosView, combo_time: u32)
    ensures
        spec_layer_rules(l, layers, ms, combo_time) matches Ok(rs) ==> forall|i: int|
            0 <= i < layers.len() && (#[trigger] layers[i]).0 != base_layer() && layers[i].1.len() > 0 ==> exists|k: int|
                0 <= k < rs.len() && rule_of_layer(l, #[trigger] rs[k], layers[i].0, layers[i].1, ms, combo_time),
    decreases layers.len(),
{
    if layers.len() > 0 {
        let rest = layers.drop_first();
        lemma_layer_rules_members(l, rest, ms, combo_time);
        if let Ok(rs) = spec_layer_rules(l, layers, ms, combo_time) {
            let rrs = spec_layer_rules(l, rest, ms, combo_time)->Ok_0;
            let extra: Seq<RuleView> = if layers[0].0 == base_layer() {
                seq![]
            } else {
                let p = spec_layer_keys(l, layers[0].0, layers[0].1, ms, combo_time)->Ok_0;
                lemma_layer_keys_members(l, layers[0].0, layers[0].1, ms, combo_time);
                if chords_first(p).len() == 0 {
                    seq![]
                } else {
                    seq![RuleView { description: "Layer: "@ + layers[0].0, manipulators: chords_first(p) }]
                }
            };
            assert(rs =~= extra + rrs);
            assert forall|i: int|
                0 <= i < layers.len() && (#[trigger] layers[i]).0 != base_layer() && layers[i].1.len() > 0 implies exists|k: int|
                    0 <= k < rs.len() && rule_of_layer(l, #[trigger] rs[k], layers[i].0, layers[i].1, ms, combo_time) by {
                if i == 0 {
                    assert(extra.len() == 1);
                    assert(rs[0] == extra[0]);
                    assert(rule_of_layer(l, rs[0], layers[0].0, layers[0].1, ms, combo_time));
                } else {
                    assert(layers[i] == rest[i - 1]);
                    let k = choose|k: int|
                        0 <= k < rrs.len() && rule_of_layer(l, #[trigger] rrs[k], rest[i - 1].0, rest[i - 1].1, ms, combo_time);
                    assert(rs[k + extra.len()] == rrs[k]);
                }
            }
        }
    }
}

/// Every non-base layer with keys gets a rule labelled `Layer: <name>`
/// holding one manipulator per key of the layer, each what that key's value
/// gives (see `lemma_layer_single_key` and `lemma_chord_key`).
pub proof fn lemma_convert_layer_keys(p: ProfileView, i: int)
    requires
        0 <= i < p.layers.len(),
        p.layers[i].0 != base_layer(),
        p.layers[i].1.len() > 0,
    ensures
        spec_convert(p) matches Ok(rules) ==> {
            &&& spec_for_keyboard(p.os_layout) matches Ok(l)
            &&& spec_expand_macros(l, p.macros) matches Ok(ms)
            &&& exists|k: int|
                0 <= k < rules.len() && rule_of_layer(l, #[trigger] rules[k], p.layers[i].0, p.layers[i].1, ms, p.combo_time)
        },
{
    if let Ok(rules) = spec_convert(p) {
        let l = spec_for_keyboard(p.os_layout)->Ok_0;
        let ms = spec_expand_macros(l, p.macros)->Ok_0;
        let lr = spec_layer_rules(l, p.layers, ms, p.combo_time)->Ok_0;
        let br = spec_base_rule(l, p, ms)->Ok_0;
        assert(rules == lr + br);
        lemma_layer_rules_members(l, p.layers, ms, p.combo_time);
        assert(p.layers[i].0 != base_layer());
        let k = choose|k: int| 0 <= k < lr.len() && rule_of_layer(l, #[trigger] lr[k], p.layers[i].0, p.layers[i].1, ms, p.combo_time);
        assert(rules[k] == lr[k]);
    }
}

proof fn lemma_assoc_absent<V>(t: Seq<(Seq<char>, V)>, k: Seq<char>)
    requires
        forall|i: int| 0 <= i < t.len() ==> #[trigger] t[i].0 != k,
    ensures
        assoc(t, k) is None,
    decreases t.len(),
{
    if t.len() > 0 {
        assert(t[0].0 != k);
        assert forall|i: int| 0 <= i < t.drop_first().len() implies #[trigger] t.drop_first()[i].0 != k by {
            assert(t.drop_first()[i] == t[i + 1]);
        }
        lemma_assoc_absent(t.drop_first(), k);
    }
}

/// No US QWERTY symbol is an ASCII letter, a digit or a space.
pub proof fn lemma_qwerty_us_symbols_not_alnum(c: char)
    requires
        ('a' <= c && c <= 'z') || ('A' <= c && c <= 'Z') || ('0' <= c && c <= '9') || c == ' ',
    ensures
        spec_resolve_symbol(spec_qwerty_us(), seq![c]) is None,
{
    lemma_qwerty_us_no_symbol_conflicts();
    reveal_strlit("-");
    reveal_strlit("=");
    reveal_strlit("[");
    reveal_strlit("]");
    reveal_strlit("\\");
    reveal_strlit(";");
    reveal_strlit("'");
    reveal_strlit(",");
    reveal_strlit(".");
    reveal_strlit("/");
    reveal_strlit("`");
    reveal_strlit("!");
    reveal_strlit("@");
    reveal_strlit("#");
    reveal_strlit("$");
    reveal_strlit("%");
    reveal_strlit("^");
    reveal_strlit("&");
    reveal_strlit("*");
    reveal_strlit("(");
    reveal_strlit(")");
    reveal_strlit("_");
    reveal_strlit("+");
    reveal_strlit("{");
    reveal_strlit("}");
    reveal_strlit("|");
    reveal_strlit(":");
    reveal_strlit("\"");
    reveal_strlit("<");
    reveal_strlit(">");
    reveal_strlit("?");
    reveal_strlit("~");
    let sh = spec_qwerty_us_shifted();
    let un = spec_qwerty_us_unshifted();
    assert forall|i: int| 0 <= i < sh.len() implies #[trigger] sh[i].0 != seq![c] by {
        assert(sh[i].0[0] != c);
    }
    assert forall|i: int| 0 <= i < un.len() implies #[trigger] un[i].0 != seq![c] by {
        assert(un[i].0[0] != c);
    }
    lemma_assoc_absent(sh, seq![c]);
    lemma_assoc_absent(un, seq![c]);
}

/// On US QWERTY, every lower-case ASCII letter and digit typed in a text
/// macro types its own key, with no modifiers.
pub proof fn lemma_qwerty_us_types_letters_and_digits(c: char)
    requires
        ('a' <= c && c <= 'z') || ('0' <= c && c <= '9'),
    ensures
        spec_expand_text(spec_qwerty_us(), seq![c]) == Ok::<Seq<EventView>, Seq<char>>(
            seq![EventView::Key { key_code: seq![c], modifiers: seq![] }],
        ),
{
    lemma_qwerty_us_symbols_not_alnum(c);
    lemma_expand_single_char(spec_qwerty_us(), c);
}

/// On US QWERTY, a key expression of two or more ASCII letters, digits and
/// `_`, or one letter or digit, is a key code: it parses to itself.
pub proof fn lemma_qwerty_us_plain_key_code(s: Seq<char>)
    requires
        s.len() > 0,
        forall|i: int|
            0 <= i < s.len() ==> ('a' <= #[trigger] s[i] && s[i] <= 'z') || ('A' <= s[i] && s[i] <= 'Z') || ('0'
                <= s[i] && s[i] <= '9') || s[i] == '_',
        s != seq!['_'],
    ensures
        spec_parse_key_expr(spec_qwerty_us(), s) == Ok::<Parsed, Seq<char>>((s, seq![])),
{
    lemma_qwerty_us_no_symbol_conflicts();
    let sh = spec_qwerty_us_shifted();
    let un = spec_qwerty_us_unshifted();
    if s.len() == 1 {
        assert(s =~= seq![s[0]]);
        assert(s[0] != '_');
        lemma_qwerty_us_symbols_not_alnum(s[0]);
    } else {
        assert forall|i: int| 0 <= i < sh.len() implies #[trigger] sh[i].0 != s by {}
        assert forall|i: int| 0 <= i < un.len() implies #[trigger] un[i].0 != s by {}
        lemma_assoc_absent(sh, s);
        lemma_assoc_absent(un, s);
    }
    lemma_parse_plain_key_code(spec_qwerty_us(), s);
}

/// `qwerty-us` is the one known layout; any other name is refused.
pub proof fn lemma_known_layouts(name: Seq<char>)
    ensures
        spec_for_keyboard(name) is Ok <==> name == "qwerty-us"@,
        spec_for_keyboard(name) matches Ok(l) ==> l == spec_qwerty_us(),
{
    let t = crate::layouts::spec_all();
    assert(t.drop_first().len() == 0);
    assert(assoc(t.drop_first(), name) is None);
    assert(t[0] == ("qwerty-us"@, spec_qwerty_us()));
}

/// Every macro is expanded under its own name, in order: the table of
/// expanded macros pairs each name with the events of its definition, and
/// it is built exactly when every definition expands.
pub proof fn lemma_expand_macros_each(l: LayoutView, defs: Seq<(Seq<char>, MacroView)>)
    ensures
        spec_expand_macros(l, defs) matches Ok(ms) ==> {
            &&& ms.len() == defs.len()
            &&& forall|i: int|
                0 <= i < defs.len() ==> (#[trigger] ms[i]).0 == defs[i].0 && spec_expand_macro(l, defs[i].1)
                    == Ok::<Seq<EventView>, Seq<char>>(ms[i].1)
        },
        (forall|i: int| 0 <= i < defs.len() ==> spec_expand_macro(l, (#[trigger] defs[i]).1) is Ok) ==> spec_expand_macros(
            l,
            defs,
        ) is Ok,
    decreases defs.len(),
{
    if defs.len() > 0 {
        let rest = defs.drop_first();
        lemma_expand_macros_each(l, rest);
        if forall|i: int| 0 <= i < defs.len() ==> spec_expand_macro(l, (#[trigger] defs[i]).1) is Ok {
            assert forall|i: int| 0 <= i < rest.len() implies spec_expand_macro(l, (#[trigger] rest[i]).1) is Ok by {
                assert(rest[i] == defs[i + 1]);
            }
            assert(spec_expand_macro(l, defs[0].1) is Ok);
        }
        if let Ok(ms) = spec_expand_macros(l, defs) {
            let rms = spec_expand_macros(l, rest)->Ok_0;
            let e0 = spec_expand_macro(l, defs[0].1)->Ok_0;
            assert(ms == seq![(defs[0].0, e0)] + rms);
            assert forall|i: int| 0 <= i < defs.len() implies (#[trigger] ms[i]).0 == defs[i].0 && spec_expand_macro(
                l,
                defs[i].1,
            ) == Ok::<Seq<EventView>, Seq<char>>(ms[i].1) by {
                if i > 0 {
                    assert(ms[i] == rms[i - 1]);
                    assert(defs[i] == rest[i - 1]);
                }
            }
        }
    }
}

proof fn lemma_last_index_of(s: Seq<char>, c: char)
    ensures
        last_index_of(s, c) matches Some(k) ==> 0 <= k < s.len() && s[k] == c,
    decreases s.len(),
{
    if s.len() > 0 && s.last() != c {
        lemma_last_index_of(s.drop_last(), c);
    }
}

proof fn lemma_last_index_at(s: Seq<char>, c: char, j: int)
    requires
        0 <= j < s.len(),
        s[j] == c,
        forall|i: int| j < i < s.len() ==> #[trigger] s[i] != c,
    ensures
        last_index_of(s, c) == Some(j),
    decreases s.len(),
{
    if j < s.len() - 1 {
        assert(s.last() == s[s.len() - 1]);
        let d = s.drop_last();
        assert forall|i: int| j < i < d.len() implies #[trigger] d[i] != c by {
            assert(d[i] == s[i]);
        }
        lemma_last_index_at(d, c, j);
    } else {
        assert(s.last() == s[j]);
    }
}

/// A directory entry is a profile exactly when its name is a non-empty
/// profile name followed by `.toml`; the profile's name is what comes
/// before (so `a.b.toml` is the profile `a.b`, and `.toml` is none).
pub proof fn lemma_toml_stem(name: Seq<char>, stem: Seq<char>)
    ensures
        toml_stem(name) matches Some(s) ==> name == s + ".toml"@ && s.len() > 0,
        stem.len() > 0 ==> toml_stem(stem + ".toml"@) == Some(stem),
{
    reveal_strlit(".toml");
    reveal_strlit("toml");
    let dot_toml = ".toml"@;
    assert(dot_toml =~= seq!['.'] + "toml"@);
    lemma_last_index_of(name, '.');
    if let Some(s) = toml_stem(name) {
        let k = last_index_of(name, '.')->Some_0;
        assert(name =~= name.take(k) + seq![name[k]] + name.skip(k + 1));
        assert(name =~= name.take(k) + dot_toml);
    }
    if stem.len() > 0 {
        let t = stem + dot_toml;
        let n = stem.len() as int;
        assert(t[n] == '.');
        assert forall|i: int| n < i < t.len() implies #[trigger] t[i] != '.' by {
            assert(t[i] == dot_toml[i - n]);
        }
        lemma_last_index_at(t, '.', n);
        assert(t.skip(n + 1) =~= "toml"@);
        assert(t.take(n) =~= stem);
    }
}

proof fn lemma_add_missing_filter(a: Seq<Seq<char>>, extra: Seq<Seq<char>>)
    requires
        extra.no_duplicates(),
    ensures
        add_missing(a, extra) == a + extra.filter(|x: Seq<char>| !a.contains(x)),
    decreases extra.len(),
{
    let pred = |x: Seq<char>| !a.contains(x);
    if extra.len() == 0 {
        reveal(Seq::filter);
        assert(a + extra.filter(pred) =~= a);
    } else {
        let init = extra.drop_last();
        let last = extra.last();
        assert(init.no_duplicates()) by {
            assert forall|i: int, j: int| 0 <= i < init.len() && 0 <= j < init.len() && i != j implies init[i] != init[j] by {
                assert(init[i] == extra[i] && init[j] == extra[j]);
            }
        }
        lemma_add_missing_filter(a, init);
        assert(extra =~= init.push(last));
        init.lemma_filter_push(last, pred);
        let m = add_missing(a, init);
        if !a.contains(last) {
            if init.filter(pred).contains(last) {
                init.lemma_filter_contains_rev(pred, last);
                let k = choose|k: int| 0 <= k < init.len() && init[k] == last;
                assert(extra[k] == extra[extra.len() - 1]);
            }
            if m.contains(last) {
                let k = choose|k: int| 0 <= k < m.len() && m[k] == last;
                if k < a.len() {
                    assert(a[k] == last);
                } else {
                    assert(init.filter(pred)[k - a.len()] == last);
                }
            }
            assert(m.push(last) =~= a + init.filter(pred).push(last));
        } else {
            let k = choose|k: int| 0 <= k < a.len() && a[k] == last;
            assert(m[k] == last);
        }
    }
}

/// Modifiers before a key code: `m1+...+mk+key`, where `key` is a word of
/// ASCII letters, digits and `_` that is no symbol, parses to `key` with the
/// modifiers in the order written.
pub proof fn lemma_parse_key_code_chain(l: LayoutView, mods: Seq<Seq<char>>, last: Seq<char>)
    requires
        forall|i: int| 0 <= i < mods.len() ==> plain_part(#[trigger] mods[i]),
        last.len() > 0,
        forall|i: int|
            0 <= i < last.len() ==> ('a' <= #[trigger] last[i] && last[i] <= 'z') || ('A' <= last[i] && last[i] <= 'Z')
                || ('0' <= last[i] && last[i] <= '9') || last[i] == '_',
        spec_resolve_symbol(l, last) is None,
        spec_resolve_symbol(l, join_plus(mods.push(last))) is None,
    ensures
        spec_parse_key_expr(l, join_plus(mods.push(last))) == Ok::<Parsed, Seq<char>>((last, mods)),
{
    assert(plain_part(last)) by {
        if last.contains('+') {
            let k = choose|k: int| 0 <= k < last.len() && last[k] == '+';
            assert(last[k] == '+');
        }
    }
    assert(spec_looks_like_keycode(last));
    lemma_parse_modifier_chain(l, mods, last);
}

/// Modifiers before a symbol: `m1+...+mk+sym` parses to the symbol's key
/// with the symbol's own modifiers first, then each written modifier that
/// is not already among them, in the order written (`shift+(` is `9` with
/// `shift` once).
pub proof fn lemma_parse_symbol_chain(l: LayoutView, mods: Seq<Seq<char>>, last: Seq<char>)
    requires
        forall|i: int| 0 <= i < mods.len() ==> plain_part(#[trigger] mods[i]),
        mods.no_duplicates(),
        plain_part(last),
        spec_resolve_symbol(l, last) is Some,
        spec_resolve_symbol(l, join_plus(mods.push(last))) is None,
    ensures
        spec_resolve_symbol(l, last) matches Some(p) && spec_parse_key_expr(l, join_plus(mods.push(last))) == Ok::<
            Parsed,
            Seq<char>,
        >((p.0, p.1 + mods.filter(|x: Seq<char>| !p.1.contains(x)))),
{
    lemma_parse_modifier_chain(l, mods, last);
    let p = spec_resolve_symbol(l, last)->Some_0;
    lemma_add_missing_filter(p.1, mods);
}

/// What a key expression cannot be: empty, or (when the whole is no symbol)
/// modifiers before a last part that is neither a symbol nor a word of ASCII
/// letters, digits and `_`.
pub proof fn lemma_parse_rejects(l: LayoutView, mods: Seq<Seq<char>>, last: Seq<char>, k: int)
    ensures
        spec_parse_key_expr(l, seq![]) is Err,
        ({
            &&& forall|i: int| 0 <= i < mods.len() ==> plain_part(#[trigger] mods[i])
            &&& plain_part(last)
            &&& 0 <= k < last.len()
            &&& !(('a' <= last[k] && last[k] <= 'z') || ('A' <= last[k] && last[k] <= 'Z') || ('0' <= last[k] && last[k]
                <= '9') || last[k] == '_')
            &&& spec_resolve_symbol(l, last) is None
            &&& spec_resolve_symbol(l, join_plus(mods.push(last))) is None
        }) ==> spec_parse_key_expr(l, join_plus(mods.push(last))) is Err,
{
    if {
        &&& forall|i: int| 0 <= i < mods.len() ==> plain_part(#[trigger] mods[i])
        &&& plain_part(last)
        &&& 0 <= k < last.len()
        &&& !(('a' <= last[k] && last[k] <= 'z') || ('A' <= last[k] && last[k] <= 'Z') || ('0' <= last[k] && last[k]
            <= '9') || last[k] == '_')
        &&& spec_resolve_symbol(l, last) is None
        &&& spec_resolve_symbol(l, join_plus(mods.push(last))) is None
    } {
        lemma_parse_modifier_chain(l, mods, last);
        assert(!crate::keys::is_keycode_char(last[k]));
        assert(!spec_looks_like_keycode(last));
    }
}

/// A text macro of one character that is no symbol of the layout, no ASCII
/// letter or digit, no space and no `{` is refused.
pub proof fn lemma_expand_unknown_char(l: LayoutView, c: char)
    requires
        spec_resolve_symbol(l, seq![c]) is None,
        !(('a' <= c && c <= 'z') || ('A' <= c && c <= 'Z') || ('0' <= c && c <= '9') || c == ' ' || c == '{'),
    ensures
        spec_expand_text(l, seq![c]) is Err,
{
}

/// A profile with a non-base layer named after a modifier, a navigation
/// or editing key, or `space`, is refused: the name would shadow that key.
pub proof fn lemma_convert_rejects_key_named_layer(p: ProfileView, i: int)
    requires
        0 <= i < p.layers.len(),
        seq![
            "shift"@, "left_shift"@, "right_shift"@, "control"@, "left_control"@, "right_control"@,
            "option"@, "left_option"@, "right_option"@, "command"@, "left_command"@, "right_command"@,
            "caps_lock"@, "fn"@, "tab"@, "escape"@, "return_or_enter"@, "spacebar"@, "space"@,
            "delete_or_backspace"@, "delete_forward"@, "home"@, "end"@, "page_up"@, "page_down"@,
            "up_arrow"@, "down_arrow"@, "left_arrow"@, "right_arrow"@,
        ].contains(p.layers[i].0),
    ensures
        spec_convert(p) is Err,
{
    reveal_strlit("base");
    reveal_strlit("shift");
    reveal_strlit("left_shift");
    reveal_strlit("right_shift");
    reveal_strlit("control");
    reveal_strlit("left_control");
    reveal_strlit("right_control");
    reveal_strlit("option");
    reveal_strlit("left_option");
    reveal_strlit("right_option");
    reveal_strlit("command");
    reveal_strlit("left_command");
    reveal_strlit("right_command");
    reveal_strlit("caps_lock");
    reveal_strlit("fn");
    reveal_strlit("tab");
    reveal_strlit("escape");
    reveal_strlit("return_or_enter");
    reveal_strlit("spacebar");
    reveal_strlit("space");
    reveal_strlit("delete_or_backspace");
    reveal_strlit("delete_forward");
    reveal_strlit("home");
    reveal_strlit("end");
    reveal_strlit("page_up");
    reveal_strlit("page_down");
    reveal_strlit("up_arrow");
    reveal_strlit("down_arrow");
    reveal_strlit("left_arrow");
    reveal_strlit("right_arrow");
    let name = p.layers[i].0;
    let rl = crate::converter::reserved_layer_names();
    assert(rl.contains(name));
    assert forall|j: int| 0 <= j < rl.len() implies #[trigger] rl[j] != base_layer() by {
        if rl[j].len() == 4 {
            assert(rl[j][0] != 'b');
        }
    }
    assert(name != base_layer());
    assert(shadows_key_code(name));
    lemma_convert_rejects_shadowing_layer(p, i);
}

/// `a` and `b` first differ at `i`, where `a` has the smaller character.
pub open spec fn differs_lower_at(a: Seq<char>, b: Seq<char>, i: int) -> bool {
    0 <= i < a.len() && i < b.len() && a.take(i) == b.take(i) && (a[i] as int) < (b[i] as int)
}

/// Profile names sort as `String`s do: `a` comes before `b` when `a` is a
/// proper prefix of `b`, or at the first place they differ `a` has the
/// character with the smaller code point.
pub proof fn lemma_name_order(a: Seq<char>, b: Seq<char>)
    ensures
        str_lt(a, b) <==> ((a.len() < b.len() && b.take(a.len() as int) == a) || exists|i: int|
            #[trigger] differs_lower_at(a, b, i)),
    decreases a.len(),
{
    if a.len() == 0 {
        assert(b.take(0) =~= a);
        assert forall|i: int| !#[trigger] differs_lower_at(a, b, i) by {}
    } else if b.len() == 0 {
        assert forall|i: int| !#[trigger] differs_lower_at(a, b, i) by {}
    } else {
        let a1 = a.drop_first();
        let b1 = b.drop_first();
        lemma_name_order(a1, b1);
        if (a[0] as int) < (b[0] as int) {
            assert(a.take(0) =~= b.take(0));
            assert(differs_lower_at(a, b, 0));
        } else if a[0] == b[0] {
            if a.len() < b.len() && b.take(a.len() as int) == a {
                assert(b1.take(a1.len() as int) =~= a1) by {
                    assert forall|j: int| 0 <= j < a1.len() implies b1.take(a1.len() as int)[j] == a1[j] by {
                        assert(b.take(a.len() as int)[j + 1] == a[j + 1]);
                    }
                }
            }
            if a1.len() < b1.len() && b1.take(a1.len() as int) == a1 {
                assert(b.take(a.len() as int) =~= a) by {
                    assert forall|j: int| 0 <= j < a.len() implies b.take(a.len() as int)[j] == a[j] by {
                        if j > 0 {
                            assert(b1.take(a1.len() as int)[j - 1] == a1[j - 1]);
                        }
                    }
                }
            }
            assert forall|i: int| #[trigger] differs_lower_at(a, b, i) implies i >= 1 && differs_lower_at(a1, b1, i - 1) by {
                if i == 0 {
                } else {
                    assert(a1.take(i - 1) =~= b1.take(i - 1)) by {
                        assert forall|j: int| 0 <= j < i - 1 implies #[trigger] a1.take(i - 1)[j] == b1.take(i - 1)[j] by {
                            assert(a.take(i)[j + 1] == b.take(i)[j + 1]);
                        }
                    }
                }
            }
            assert forall|i: int| #[trigger] differs_lower_at(a1, b1, i) implies differs_lower_at(a, b, i + 1) by {
                assert(a.take(i + 1) =~= b.take(i + 1)) by {
                    assert forall|j: int| 0 <= j < i + 1 implies #[trigger] a.take(i + 1)[j] == b.take(i + 1)[j] by {
                        if j > 0 {
                            assert(a1.take(i)[j - 1] == b1.take(i)[j - 1]);
                        }
                    }
                }
            }
            if exists|i: int| #[trigger] differs_lower_at(a1, b1, i) {
                let i = choose|i: int| #[trigger] differs_lower_at(a1, b1, i);
                assert(differs_lower_at(a, b, i + 1));
            }
        } else {
            if a.len() < b.len() && b.take(a.len() as int) == a {
                assert(b.take(a.len() as int)[0] == a[0]);
            }
            assert forall|i: int| !#[trigger] differs_lower_at(a, b, i) by {
                if 0 < i && i < a.len() && i < b.len() && a.take(i) == b.take(i) {
                    assert(a.take(i)[0] == b.take(i)[0]);
                }
            }
        }
    }
}

/// The reserved name: a sync refuses a profile file named `system` as soon
/// as it comes to it.
pub proof fn lemma_sync_reserved_name(k: JsonView, items: Seq<(Seq<char>, JsonView)>)
    requires
        items.len() > 0,
        items[0].0 == "system"@,
    ensures
        spec_sync_all(k, items) == Err::<JsonView, Seq<char>>("profile name 'system' is reserved"@),
{
    reveal_strlit("profile name '");
    reveal_strlit("' is reserved");
    reveal_strlit("system");
    reveal_strlit("profile name 'system' is reserved");
    assert(("profile name '"@ + "system"@ + "' is reserved"@) =~= "profile name 'system' is reserved"@);
}

} // verus!
