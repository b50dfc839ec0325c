//! A JSON document as plain values, and the `karabiner.json` edits of a
//! sync: which profile is updated, what it gets, and what is kept.

use vstd::prelude::*;
use crate::sync::{check_profile_name, msg_reserved_profile, system_default};
use crate::text::str_eq;
use vstd::pervasive::VecAdditionalExecFns;

verus! {

/// A JSON value. `Number` holds the number as written; an object holds its
/// members in order (a parsed document repeats no key: see [`json_wf`]).
#[derive(Debug, PartialEq)]
pub enum Json {
    Null,
    Bool(bool),
    Number(String),
    Str(String),
    Array(Vec<Json>),
    Object(Vec<(String, Json)>),
}

/// The mathematical form of a [`Json`] value.
pub enum JsonView {
    Null,
    Bool(bool),
    Number(Seq<char>),
    Str(Seq<char>),
    Array(Seq<JsonView>),
    Object(Seq<(Seq<char>, JsonView)>),
}

pub open spec fn json_view(j: Json) -> JsonView
    decreases j,
{
    match j {
        Json::Null => JsonView::Null,
        Json::Bool(b) => JsonView::Bool(b),
        Json::Number(n) => JsonView::Number(n@),
        Json::Str(s) => JsonView::Str(s@),
        Json::Array(v) => JsonView::Array(
            Seq::new(
                v.len() as nat,
                |i: int|
                    if 0 <= i < v.len() {
                        json_view(v[i])
                    } else {
                        JsonView::Null
                    },
            ),
        ),
        Json::Object(m) => JsonView::Object(
            Seq::new(
                m.len() as nat,
                |i: int|
                    if 0 <= i < m.len() {
                        (m[i].0@, json_view(m[i].1))
                    } else {
                        (Seq::empty(), JsonView::Null)
                    },
            ),
        ),
    }
}

impl View for Json {
    type V = JsonView;

    open spec fn view(&self) -> JsonView {
        json_view(*self)
    }
}

impl DeepView for Json {
    type V = JsonView;

    open spec fn deep_view(&self) -> JsonView {
        json_view(*self)
    }
}

/// The members of an object.
pub type Members = Seq<(Seq<char>, JsonView)>;

/// No two members share a key.
pub open spec fn keys_distinct(fs: Members) -> bool {
    forall|a: int, b: int| 0 <= a < b < fs.len() ==> #[trigger] fs[a].0 != #[trigger] fs[b].0
}

/// A JSON value as a parser gives it: in every object, at any depth, no
/// two members share a key.
pub open spec fn json_wf(j: JsonView) -> bool
    decreases j,
{
    match j {
        JsonView::Array(items) => forall|i: int| 0 <= i < items.len() ==> json_wf(#[trigger] items[i]),
        JsonView::Object(fs) => {
            &&& keys_distinct(fs)
            &&& forall|i: int| 0 <= i < fs.len() ==> json_wf(#[trigger] fs[i].1)
        },
        _ => true,
    }
}

/// `k` is the first member of `fs` with the key `key`.
pub open spec fn is_first_key(fs: Members, key: Seq<char>, k: int) -> bool {
    &&& 0 <= k < fs.len()
    &&& fs[k].0 == key
    &&& forall|j: int| 0 <= j < k ==> #[trigger] fs[j].0 != key
}

/// The position of the first member with the key `key`, as a lookup by
/// key finds it.
pub open spec fn key_index(fs: Members, key: Seq<char>) -> Option<int> {
    if exists|k: int| is_first_key(fs, key, k) {
        Some(choose|k: int| is_first_key(fs, key, k))
    } else {
        None
    }
}

/// The value of the member `key`.
pub open spec fn member(fs: Members, key: Seq<char>) -> Option<JsonView> {
    match key_index(fs, key) {
        Some(k) => Some(fs[k].1),
        None => None,
    }
}

/// `fs` with the member `key` set to `v`: in place where it is, else
/// appended.
pub open spec fn set_member(fs: Members, key: Seq<char>, v: JsonView) -> Members {
    match key_index(fs, key) {
        Some(k) => fs.update(k, (key, v)),
        None => fs.push((key, v)),
    }
}

/// The value under `key` if `j` is an object.
pub open spec fn get(j: JsonView, key: Seq<char>) -> Option<JsonView> {
    match j {
        JsonView::Object(fs) => member(fs, key),
        _ => None,
    }
}

/// A profile's name: its `name` member, when that is a string.
pub open spec fn name_of(p: JsonView) -> Option<Seq<char>> {
    match get(p, "name"@) {
        Some(JsonView::Str(s)) => Some(s),
        _ => None,
    }
}

/// The member `key` of the profile's `complex_modifications`.
pub open spec fn rules_holder_member(p: JsonView, key: Seq<char>) -> Option<JsonView> {
    match get(p, "complex_modifications"@) {
        Some(c) => get(c, key),
        None => None,
    }
}

/// `i` is the first profile of `ps` named `name`.
pub open spec fn is_first_named(ps: Seq<JsonView>, name: Seq<char>, i: int) -> bool {
    &&& 0 <= i < ps.len()
    &&& name_of(ps[i]) == Some(name)
    &&& forall|j: int| 0 <= j < i ==> name_of(#[trigger] ps[j]) != Some(name)
}

/// The profile a sync of `name` updates: the first one named `name`.
pub open spec fn first_named(ps: Seq<JsonView>, name: Seq<char>) -> Option<int> {
    if exists|i: int| is_first_named(ps, name, i) {
        Some(choose|i: int| is_first_named(ps, name, i))
    } else {
        None
    }
}

pub proof fn lemma_first_key_unique(fs: Members, key: Seq<char>, a: int, b: int)
    requires
        is_first_key(fs, key, a),
        is_first_key(fs, key, b),
    ensures
        a == b,
{
    if a < b {
        assert(fs[a].0 != key);
    } else if b < a {
        assert(fs[b].0 != key);
    }
}

/// The lookup by key, in terms of the members it passes.
pub proof fn lemma_key_index(fs: Members, key: Seq<char>)
    ensures
        match key_index(fs, key) {
            Some(k) => is_first_key(fs, key, k),
            None => forall|j: int| 0 <= j < fs.len() ==> #[trigger] fs[j].0 != key,
        },
{
    if key_index(fs, key) is None {
        assert forall|j: int| 0 <= j < fs.len() implies #[trigger] fs[j].0 != key by {
            if fs[j].0 == key {
                lemma_least_key(fs, key, j);
            }
        }
    }
}

proof fn lemma_least_key(fs: Members, key: Seq<char>, j: int)
    requires
        0 <= j < fs.len(),
        fs[j].0 == key,
    ensures
        exists|k: int| is_first_key(fs, key, k),
    decreases j,
{
    if exists|l: int| 0 <= l < j && fs[l].0 == key {
        let l = choose|l: int| 0 <= l < j && fs[l].0 == key;
        lemma_least_key(fs, key, l);
    } else {
        assert(is_first_key(fs, key, j));
    }
}

pub proof fn lemma_first_named_unique(ps: Seq<JsonView>, name: Seq<char>, a: int, b: int)
    requires
        is_first_named(ps, name, a),
        is_first_named(ps, name, b),
    ensures
        a == b,
{
    if a < b {
        assert(name_of(ps[a]) != Some(name));
    } else if b < a {
        assert(name_of(ps[b]) != Some(name));
    }
}

proof fn lemma_least_named(ps: Seq<JsonView>, name: Seq<char>, j: int)
    requires
        0 <= j < ps.len(),
        name_of(ps[j]) == Some(name),
    ensures
        exists|i: int| is_first_named(ps, name, i),
    decreases j,
{
    if exists|l: int| 0 <= l < j && name_of(ps[l]) == Some(name) {
        let l = choose|l: int| 0 <= l < j && name_of(ps[l]) == Some(name);
        lemma_least_named(ps, name, l);
    } else {
        assert(is_first_named(ps, name, j));
    }
}

/// The profile a sync updates, in terms of the profiles it passes.
pub proof fn lemma_first_named(ps: Seq<JsonView>, name: Seq<char>)
    ensures
        match first_named(ps, name) {
            Some(i) => is_first_named(ps, name, i),
            None => forall|j: int| 0 <= j < ps.len() ==> name_of(#[trigger] ps[j]) != Some(name),
        },
{
    if first_named(ps, name) is None {
        assert forall|j: int| 0 <= j < ps.len() implies name_of(#[trigger] ps[j]) != Some(name) by {
            if name_of(ps[j]) == Some(name) {
                lemma_least_named(ps, name, j);
            }
        }
    }
}

/// An object's view is the view of its members.
pub proof fn lemma_object_view(m: Vec<(String, Json)>)
    ensures
        json_view(Json::Object(m)) == JsonView::Object(m.deep_view()),
{
    if let JsonView::Object(fs) = json_view(Json::Object(m)) {
        assert(fs =~= m.deep_view());
    }
}

/// An array's view is the view of its items.
pub proof fn lemma_array_view(v: Vec<Json>)
    ensures
        json_view(Json::Array(v)) == JsonView::Array(v.deep_view()),
{
    if let JsonView::Array(items) = json_view(Json::Array(v)) {
        assert(items =~= v.deep_view());
    }
}

pub open spec fn as_index(r: Option<usize>) -> Option<int> {
    match r {
        Some(k) => Some(k as int),
        None => None,
    }
}

/// The position of the first member of `fs` with the key `key`.
pub fn find_member(fs: &Vec<(String, Json)>, key: &str) -> (r: Option<usize>)
    ensures
        as_index(r) == key_index(fs.deep_view(), key@),
{
    let ghost dv = fs.deep_view();
    let mut i: usize = 0;
    while i < fs.len()
        invariant
            dv == fs.deep_view(),
            i <= fs.len(),
            forall|j: int| 0 <= j < i ==> #[trigger] dv[j].0 != key@,
        decreases fs.len() - i,
    {
        if str_eq(fs[i].0.as_str(), key) {
            proof {
                assert(is_first_key(dv, key@, i as int));
                lemma_first_key_unique(dv, key@, i as int, choose|k: int| is_first_key(dv, key@, k));
            }
            return Some(i);
        }
        i += 1;
    }
    proof {
        if exists|k: int| is_first_key(dv, key@, k) {
            let k = choose|k: int| is_first_key(dv, key@, k);
            assert(dv[k].0 == key@);
        }
    }
    None
}

/// The name of the profile `p`, if it has one.
pub fn profile_name(p: &Json) -> (r: Option<&String>)
    ensures
        match r {
            Some(s) => name_of(p@) == Some(s@),
            None => name_of(p@) is None,
        },
{
    match p {
        Json::Object(fs) => {
            proof {
                lemma_object_view(*fs);
            }
            match find_member(fs, "name") {
                Some(k) => {
                    assert(fs.deep_view()[k as int].1 == fs[k as int].1@);
                    match &fs[k].1 {
                        Json::Str(s) => Some(s),
                        _ => None,
                    }
                },
                None => None,
            }
        },
        _ => None,
    }
}

/// The position of the first profile named `name`: the one a sync of
/// `name` updates. `None` means the sync appends a new profile.
pub fn upsert_position(profiles: &Vec<Json>, name: &str) -> (r: Option<usize>)
    ensures
        as_index(r) == first_named(profiles.deep_view(), name@),
{
    let ghost dv = profiles.deep_view();
    let mut i: usize = 0;
    while i < profiles.len()
        invariant
            dv == profiles.deep_view(),
            i <= profiles.len(),
            forall|j: int| 0 <= j < i ==> name_of(#[trigger] dv[j]) != Some(name@),
        decreases profiles.len() - i,
    {
        assert(dv[i as int] == profiles[i as int]@);
        match profile_name(&profiles[i]) {
            Some(n) => {
                if str_eq(n.as_str(), name) {
                    proof {
                        assert(is_first_named(dv, name@, i as int));
                        lemma_first_named_unique(dv, name@, i as int, choose|k: int| is_first_named(dv, name@, k));
                    }
                    return Some(i);
                }
            },
            None => {},
        }
        i += 1;
    }
    proof {
        if exists|k: int| is_first_named(dv, name@, k) {
            let k = choose|k: int| is_first_named(dv, name@, k);
            assert(name_of(dv[k]) == Some(name@));
        }
    }
    None
}

/// A lookup by key depends on the keys alone.
pub proof fn lemma_key_index_same_keys(a: Members, b: Members, key: Seq<char>)
    requires
        a.len() == b.len(),
        forall|j: int| 0 <= j < a.len() ==> #[trigger] a[j].0 == b[j].0,
    ensures
        key_index(a, key) == key_index(b, key),
{
    assert forall|k: int| is_first_key(a, key, k) <==> is_first_key(b, key, k) by {
        if is_first_key(a, key, k) {
            assert(a[k].0 == b[k].0);
            assert forall|j: int| 0 <= j < k implies #[trigger] b[j].0 != key by {
                assert(a[j].0 == b[j].0);
                assert(a[j].0 != key);
            }
        }
        if is_first_key(b, key, k) {
            assert(a[k].0 == b[k].0);
            assert forall|j: int| 0 <= j < k implies #[trigger] a[j].0 != key by {
                assert(a[j].0 == b[j].0);
                assert(b[j].0 != key);
            }
        }
    }
    if exists|k: int| is_first_key(a, key, k) {
        let x = choose|k: int| is_first_key(a, key, k);
        let y = choose|k: int| is_first_key(b, key, k);
        lemma_first_key_unique(a, key, x, y);
    }
}

/// A lookup by key after a member is appended.
pub proof fn lemma_key_index_push(fs: Members, m: (Seq<char>, JsonView), key: Seq<char>)
    ensures
        key_index(fs.push(m), key) == match key_index(fs, key) {
            Some(k) => Some(k),
            None => if m.0 == key {
                Some(fs.len() as int)
            } else {
                None
            },
        },
{
    let g = fs.push(m);
    lemma_key_index(fs, key);
    lemma_key_index(g, key);
    match key_index(fs, key) {
        Some(k) => {
            assert forall|j: int| 0 <= j < k implies #[trigger] g[j].0 != key by {
                assert(g[j] == fs[j]);
            }
            assert(is_first_key(g, key, k));
            lemma_first_key_unique(g, key, k, key_index(g, key)->0);
        },
        None => {
            if m.0 == key {
                assert forall|j: int| 0 <= j < fs.len() implies #[trigger] g[j].0 != key by {
                    assert(g[j] == fs[j]);
                }
                assert(is_first_key(g, key, fs.len() as int));
                lemma_first_key_unique(g, key, fs.len() as int, key_index(g, key)->0);
            } else if key_index(g, key) is Some {
                let k = key_index(g, key)->0;
                if k < fs.len() {
                    assert(g[k] == fs[k]);
                }
            }
        },
    }
}

/// A member read after one member's value is replaced.
pub proof fn lemma_member_update(fs: Members, k: int, v: JsonView, key: Seq<char>)
    requires
        0 <= k < fs.len(),
    ensures
        member(fs.update(k, (fs[k].0, v)), key) == if key_index(fs, key) == Some(k) {
            Some(v)
        } else {
            member(fs, key)
        },
{
    let g = fs.update(k, (fs[k].0, v));
    assert forall|j: int| 0 <= j < fs.len() implies #[trigger] fs[j].0 == g[j].0 by {}
    lemma_key_index_same_keys(fs, g, key);
    lemma_key_index(fs, key);
}

/// A member read after a member is appended.
pub proof fn lemma_member_push(fs: Members, m: (Seq<char>, JsonView), key: Seq<char>)
    ensures
        member(fs.push(m), key) == match member(fs, key) {
            Some(x) => Some(x),
            None => if m.0 == key {
                Some(m.1)
            } else {
                None
            },
        },
{
    lemma_key_index_push(fs, m, key);
    lemma_key_index(fs, key);
}

/// What a lookup by key finds after a member is set: the new value under
/// its key, the old value under every other key.
pub proof fn lemma_member_after_set(fs: Members, key: Seq<char>, v: JsonView, other: Seq<char>)
    ensures
        member(set_member(fs, key, v), key) == Some(v),
        other != key ==> member(set_member(fs, key, v), other) == member(fs, other),
{
    lemma_key_index(fs, key);
    lemma_key_index(fs, other);
    match key_index(fs, key) {
        Some(k) => {
            lemma_member_update(fs, k, v, key);
            lemma_member_update(fs, k, v, other);
        },
        None => {
            lemma_member_push(fs, (key, v), key);
            lemma_member_push(fs, (key, v), other);
        },
    }
}

/// The first profile of a name depends on the profiles' names alone.
pub proof fn lemma_first_named_same_names(a: Seq<JsonView>, b: Seq<JsonView>, name: Seq<char>)
    requires
        a.len() == b.len(),
        forall|j: int| 0 <= j < a.len() ==> name_of(#[trigger] a[j]) == name_of(b[j]),
    ensures
        first_named(a, name) == first_named(b, name),
{
    assert forall|i: int| is_first_named(a, name, i) <==> is_first_named(b, name, i) by {
        if is_first_named(a, name, i) {
            assert(name_of(a[i]) == name_of(b[i]));
            assert forall|j: int| 0 <= j < i implies name_of(#[trigger] b[j]) != Some(name) by {
                assert(name_of(a[j]) == name_of(b[j]));
                assert(name_of(a[j]) != Some(name));
            }
        }
        if is_first_named(b, name, i) {
            assert(name_of(a[i]) == name_of(b[i]));
            assert forall|j: int| 0 <= j < i implies name_of(#[trigger] a[j]) != Some(name) by {
                assert(name_of(a[j]) == name_of(b[j]));
                assert(name_of(b[j]) != Some(name));
            }
        }
    }
    if exists|i: int| is_first_named(a, name, i) {
        let x = choose|i: int| is_first_named(a, name, i);
        let y = choose|i: int| is_first_named(b, name, i);
        lemma_first_named_unique(a, name, x, y);
    }
}

/// The first profile of a name after a profile is appended.
pub proof fn lemma_first_named_push(ps: Seq<JsonView>, p: JsonView, name: Seq<char>)
    ensures
        first_named(ps.push(p), name) == match first_named(ps, name) {
            Some(i) => Some(i),
            None => if name_of(p) == Some(name) {
                Some(ps.len() as int)
            } else {
                None
            },
        },
{
    let g = ps.push(p);
    lemma_first_named(ps, name);
    lemma_first_named(g, name);
    match first_named(ps, name) {
        Some(i) => {
            assert forall|j: int| 0 <= j < i implies name_of(#[trigger] g[j]) != Some(name) by {
                assert(g[j] == ps[j]);
            }
            assert(is_first_named(g, name, i));
            lemma_first_named_unique(g, name, i, first_named(g, name)->0);
        },
        None => {
            if name_of(p) == Some(name) {
                assert forall|j: int| 0 <= j < ps.len() implies name_of(#[trigger] g[j]) != Some(name) by {
                    assert(g[j] == ps[j]);
                }
                assert(is_first_named(g, name, ps.len() as int));
                lemma_first_named_unique(g, name, ps.len() as int, first_named(g, name)->0);
            } else if first_named(g, name) is Some {
                let k = first_named(g, name)->0;
                if k < ps.len() {
                    assert(g[k] == ps[k]);
                }
            }
        },
    }
}

/// The profile a sync appends for a name that no profile has:
/// `{"complex_modifications": {"rules": rules}, "name": name, "selected": false}`.
pub open spec fn fresh_profile(name: Seq<char>, rules: JsonView) -> JsonView {
    JsonView::Object(
        seq![
            ("complex_modifications"@, JsonView::Object(seq![("rules"@, rules)])),
            ("name"@, JsonView::Str(name)),
            ("selected"@, JsonView::Bool(false)),
        ],
    )
}

pub open spec fn msg_profile_not_object() -> Seq<char> {
    "profile entry must be an object"@
}

pub open spec fn msg_rules_holder_not_object() -> Seq<char> {
    "complex_modifications must be an object"@
}

/// The profile `p` with its `complex_modifications.rules` set to `rules`,
/// `complex_modifications` added where it is missing; every other member
/// kept. An error where `p` or its `complex_modifications` is no object.
pub open spec fn with_rules(p: JsonView, rules: JsonView) -> Result<JsonView, Seq<char>> {
    match p {
        JsonView::Object(fs) => match key_index(fs, "complex_modifications"@) {
            None => Ok(
                JsonView::Object(
                    fs.push(("complex_modifications"@, JsonView::Object(seq![("rules"@, rules)]))),
                ),
            ),
            Some(k) => match fs[k].1 {
                JsonView::Object(cm) => Ok(
                    JsonView::Object(
                        fs.update(
                            k,
                            ("complex_modifications"@, JsonView::Object(set_member(cm, "rules"@, rules))),
                        ),
                    ),
                ),
                _ => Err(msg_rules_holder_not_object()),
            },
        },
        _ => Err(msg_profile_not_object()),
    }
}

/// The profiles after the rules of `name` are written: the first profile
/// of that name updated by [`with_rules`], or a fresh profile appended.
pub open spec fn spec_upsert(ps: Seq<JsonView>, name: Seq<char>, rules: JsonView) -> Result<
    Seq<JsonView>,
    Seq<char>,
> {
    match first_named(ps, name) {
        None => Ok(ps.push(fresh_profile(name, rules))),
        Some(i) => match with_rules(ps[i], rules) {
            Ok(p) => Ok(ps.update(i, p)),
            Err(e) => Err(e),
        },
    }
}

/// Sets the member `key` of `fs` to `v`.
pub fn set_member_in(fs: &mut Vec<(String, Json)>, key: &str, v: Json)
    ensures
        final(fs).deep_view() == set_member(old(fs).deep_view(), key@, v@),
{
    let ghost before = fs.deep_view();
    match find_member(fs, key) {
        Some(k) => {
            fs.set(k, (key.to_owned(), v));
            assert(fs.deep_view() =~= before.update(k as int, (key@, v@)));
        },
        None => {
            fs.push((key.to_owned(), v));
            assert(fs.deep_view() =~= before.push((key@, v@)));
        },
    }
}

/// The profile a sync appends for `name`: see [`fresh_profile`].
pub fn new_profile(name: &str, rules: Json) -> (p: Json)
    ensures
        p@ == fresh_profile(name@, rules@),
{
    let mut holder: Vec<(String, Json)> = Vec::new();
    holder.push((String::from_str("rules"), rules));
    let mut fs: Vec<(String, Json)> = Vec::new();
    fs.push((String::from_str("complex_modifications"), Json::Object(holder)));
    fs.push((String::from_str("name"), Json::Str(name.to_owned())));
    fs.push((String::from_str("selected"), Json::Bool(false)));
    proof {
        lemma_object_view(holder);
        lemma_object_view(fs);
        assert(holder.deep_view() =~= seq![("rules"@, rules@)]);
        assert(fs.deep_view() =~= seq![
            ("complex_modifications"@, JsonView::Object(seq![("rules"@, rules@)])),
            ("name"@, JsonView::Str(name@)),
            ("selected"@, JsonView::Bool(false)),
        ]);
    }
    Json::Object(fs)
}

/// [`with_rules`] on a profile held by value; on an error the profile is
/// handed back as it was.
pub fn set_rules(p: Json, rules: Json) -> (r: Result<Json, (Json, String)>)
    ensures
        match with_rules(p@, rules@) {
            Ok(q) => r matches Ok(x) && x@ == q,
            Err(e) => r matches Err((x, m)) && x@ == p@ && m@ == e,
        },
{
    match p {
        Json::Object(mut fs) => {
            let ghost before = fs.deep_view();
            proof {
                lemma_object_view(fs);
            }
            match find_member(&fs, "complex_modifications") {
                None => {
                    let mut holder: Vec<(String, Json)> = Vec::new();
                    holder.push((String::from_str("rules"), rules));
                    fs.push((String::from_str("complex_modifications"), Json::Object(holder)));
                    proof {
                        lemma_object_view(holder);
                        lemma_object_view(fs);
                        assert(holder.deep_view() =~= seq![("rules"@, rules@)]);
                        assert(fs.deep_view() =~= before.push(
                            ("complex_modifications"@, JsonView::Object(seq![("rules"@, rules@)])),
                        ));
                    }
                    Ok(Json::Object(fs))
                },
                Some(k) => {
                    let mut slot: (String, Json) = (String::new(), Json::Null);
                    fs.set_and_swap(k, &mut slot);
                    let (key, val) = slot;
                    assert(key@ == "complex_modifications"@);
                    assert(val@ == before[k as int].1);
                    match val {
                        Json::Object(mut cm) => {
                            proof {
                                lemma_object_view(cm);
                            }
                            set_member_in(&mut cm, "rules", rules);
                            let ghost new_cm = cm.deep_view();
                            fs.set(k, (key, Json::Object(cm)));
                            proof {
                                lemma_object_view(cm);
                                lemma_object_view(fs);
                                assert(fs.deep_view() =~= before.update(
                                    k as int,
                                    ("complex_modifications"@, JsonView::Object(new_cm)),
                                ));
                            }
                            Ok(Json::Object(fs))
                        },
                        other => {
                            fs.set(k, (key, other));
                            proof {
                                lemma_object_view(fs);
                                assert(fs.deep_view() =~= before);
                            }
                            Err((Json::Object(fs), String::from_str("complex_modifications must be an object")))
                        },
                    }
                },
            }
        },
        other => Err((other, String::from_str("profile entry must be an object"))),
    }
}

/// Writes the rules of the profile `name` into `profiles`: into the first
/// profile of that name, replacing only its `complex_modifications.rules`,
/// or into a fresh profile appended at the end. On an error `profiles` is
/// left as it was.
pub fn upsert(profiles: &mut Vec<Json>, name: &str, rules: Json) -> (r: Result<(), String>)
    ensures
        match spec_upsert(old(profiles).deep_view(), name@, rules@) {
            Ok(ps) => r is Ok && final(profiles).deep_view() == ps,
            Err(e) => r matches Err(m) && m@ == e && final(profiles).deep_view() == old(profiles).deep_view(),
        },
{
    let ghost before = profiles.deep_view();
    match upsert_position(profiles, name) {
        None => {
            let p = new_profile(name, rules);
            profiles.push(p);
            assert(profiles.deep_view() =~= before.push(fresh_profile(name@, rules@)));
            Ok(())
        },
        Some(i) => {
            let mut p = Json::Null;
            profiles.set_and_swap(i, &mut p);
            assert(p@ == before[i as int]);
            match set_rules(p, rules) {
                Ok(q) => {
                    let ghost qv = q@;
                    profiles.set(i, q);
                    assert(profiles.deep_view() =~= before.update(i as int, qv));
                    Ok(())
                },
                Err((q, e)) => {
                    profiles.set(i, q);
                    assert(profiles.deep_view() =~= before);
                    Err(e)
                },
            }
        },
    }
}

pub open spec fn msg_missing_profiles() -> Seq<char> {
    "karabiner.json missing 'profiles' array"@
}

/// The profiles of a `karabiner.json` document: its `profiles` member,
/// when that is an array.
pub open spec fn profiles_of(k: JsonView) -> Option<Seq<JsonView>> {
    match get(k, "profiles"@) {
        Some(JsonView::Array(ps)) => Some(ps),
        _ => None,
    }
}

/// The document `k` after the rules of the profile `name` are written into
/// its `profiles` ([`spec_upsert`]); every other member of `k` kept. An
/// error where `k` has no `profiles` array, or the upsert fails.
pub open spec fn spec_sync_step(k: JsonView, name: Seq<char>, rules: JsonView) -> Result<
    JsonView,
    Seq<char>,
> {
    match k {
        JsonView::Object(fs) => match key_index(fs, "profiles"@) {
            Some(i) => match fs[i].1 {
                JsonView::Array(ps) => match spec_upsert(ps, name, rules) {
                    Ok(ps2) => Ok(JsonView::Object(fs.update(i, ("profiles"@, JsonView::Array(ps2))))),
                    Err(e) => Err(e),
                },
                _ => Err(msg_missing_profiles()),
            },
            None => Err(msg_missing_profiles()),
        },
        _ => Err(msg_missing_profiles()),
    }
}

/// The document after the compiled profiles `items` are written in turn;
/// the reserved name stops the sync with an error, as any failed step does.
pub open spec fn spec_sync_all(k: JsonView, items: Seq<(Seq<char>, JsonView)>) -> Result<
    JsonView,
    Seq<char>,
>
    decreases items.len(),
{
    if items.len() == 0 {
        Ok(k)
    } else if items[0].0 == system_default() {
        Err(msg_reserved_profile(items[0].0))
    } else {
        match spec_sync_step(k, items[0].0, items[0].1) {
            Ok(k2) => spec_sync_all(k2, items.drop_first()),
            Err(e) => Err(e),
        }
    }
}

/// A whole sync: the reserved profile `system` with no rules first, then
/// each compiled profile in order.
pub open spec fn spec_sync(k: JsonView, items: Seq<(Seq<char>, JsonView)>) -> Result<
    JsonView,
    Seq<char>,
> {
    match spec_sync_step(k, system_default(), JsonView::Array(seq![])) {
        Ok(k1) => spec_sync_all(k1, items),
        Err(e) => Err(e),
    }
}

/// [`spec_sync_step`] on a document held by value; on an error the
/// document is handed back as it was.
fn write_profile(doc: Json, name: &str, rules: Json) -> (r: (Json, Result<(), String>))
    ensures
        match spec_sync_step(doc@, name@, rules@) {
            Ok(k) => r.1 is Ok && r.0@ == k,
            Err(e) => r.1 matches Err(m) && m@ == e && r.0@ == doc@,
        },
{
    match doc {
        Json::Object(mut fs) => {
            let ghost before = fs.deep_view();
            proof {
                lemma_object_view(fs);
            }
            match find_member(&fs, "profiles") {
                Some(k) => {
                    let mut slot: (String, Json) = (String::new(), Json::Null);
                    fs.set_and_swap(k, &mut slot);
                    let (key, val) = slot;
                    assert(key@ == "profiles"@);
                    assert(val@ == before[k as int].1);
                    match val {
                        Json::Array(mut ps) => {
                            proof {
                                lemma_array_view(ps);
                            }
                            let res = upsert(&mut ps, name, rules);
                            let ghost new_ps = ps.deep_view();
                            fs.set(k, (key, Json::Array(ps)));
                            proof {
                                lemma_array_view(ps);
                                lemma_object_view(fs);
                                assert(fs.deep_view() =~= before.update(
                                    k as int,
                                    ("profiles"@, JsonView::Array(new_ps)),
                                ));
                                if res is Err {
                                    assert(before.update(k as int, ("profiles"@, JsonView::Array(new_ps))) =~= before);
                                }
                            }
                            (Json::Object(fs), res)
                        },
                        other => {
                            fs.set(k, (key, other));
                            proof {
                                lemma_object_view(fs);
                                assert(fs.deep_view() =~= before);
                            }
                            (Json::Object(fs), Err(String::from_str("karabiner.json missing 'profiles' array")))
                        },
                    }
                },
                None => (Json::Object(fs), Err(String::from_str("karabiner.json missing 'profiles' array"))),
            }
        },
        other => (other, Err(String::from_str("karabiner.json missing 'profiles' array"))),
    }
}

/// Writes the rules of the profile `name` into the `profiles` array of the
/// `karabiner.json` document (see [`upsert`]); every other member of the
/// document is kept. On an error the document is left as it was.
pub fn sync_step(karabiner: &mut Json, name: &str, rules: Json) -> (r: Result<(), String>)
    ensures
        match spec_sync_step(old(karabiner)@, name@, rules@) {
            Ok(k) => r is Ok && final(karabiner)@ == k,
            Err(e) => r matches Err(m) && m@ == e && final(karabiner)@ == old(karabiner)@,
        },
{
    let mut doc = Json::Null;
    std::mem::swap(&mut doc, karabiner);
    let (new_doc, r) = write_profile(doc, name, rules);
    *karabiner = new_doc;
    r
}

/// A whole sync of `karabiner.json`: the reserved profile `system` with no
/// rules, then each compiled `(name, rules)` in order. An error where the
/// document has no `profiles` array, where a profile takes the reserved
/// name, or where an upsert fails.
pub fn sync_profiles(karabiner: Json, compiled: Vec<(String, Json)>) -> (r: Result<Json, String>)
    ensures
        match spec_sync(karabiner@, compiled.deep_view()) {
            Ok(k) => r matches Ok(d) && d@ == k,
            Err(e) => r matches Err(m) && m@ == e,
        },
{
    let ghost goal = spec_sync(karabiner@, compiled.deep_view());
    let mut doc = karabiner;
    let mut rest = compiled;
    let none: Vec<Json> = Vec::new();
    proof {
        lemma_array_view(none);
        assert(none.deep_view() =~= Seq::<JsonView>::empty());
    }
    match sync_step(&mut doc, "system", Json::Array(none)) {
        Ok(()) => {},
        Err(e) => {
            return Err(e);
        },
    }
    while rest.len() > 0
        invariant
            goal == spec_sync(karabiner@, compiled.deep_view()),
            goal == spec_sync_all(doc@, rest.deep_view()),
        decreases rest.len(),
    {
        let ghost items = rest.deep_view();
        let (name, rules) = rest.remove(0);
        assert(rest.deep_view() =~= items.drop_first());
        assert(items[0] == (name@, rules@));
        match check_profile_name(name.as_str()) {
            Ok(()) => {},
            Err(e) => {
                return Err(e);
            },
        }
        match sync_step(&mut doc, name.as_str(), rules) {
            Ok(()) => {},
            Err(e) => {
                return Err(e);
            },
        }
    }
    Ok(doc)
}

} // verus!
