//! The decisions behind the CLI commands: which files are profiles, in
//! which order they are listed, which name is reserved, and how
//! `karabiner_cli` is run.

use vstd::prelude::*;
use crate::text::{concat3, lemma_str_lt_transitive, lemma_str_lt_trichotomy, str_eq, str_less, str_lt};

verus! {

broadcast use vstd::seq_lib::group_to_multiset_ensures;

/// The reserved profile name of the OS default layout.
pub open spec fn system_default() -> Seq<char> {
    "system"@
}

/// Where Karabiner-Elements installs its CLI.
pub open spec fn karabiner_cli() -> Seq<char> {
    "/Library/Application Support/org.pqrs/Karabiner-Elements/bin/karabiner_cli"@
}

/// One run of a program with arguments.
#[derive(Debug)]
pub struct CliCall {
    pub program: String,
    pub args: Vec<String>,
}

/// The `karabiner_cli` run that activates the profile `name`.
pub fn switch(name: &str) -> (c: CliCall)
    ensures
        c.program@ == karabiner_cli(),
        c.args.deep_view() == seq!["--select-profile"@, name@],
{
    let mut args: Vec<String> = Vec::new();
    args.push(String::from_str("--select-profile"));
    args.push(name.to_owned());
    assert(args.deep_view() =~= seq!["--select-profile"@, name@]);
    CliCall {
        program: String::from_str("/Library/Application Support/org.pqrs/Karabiner-Elements/bin/karabiner_cli"),
        args,
    }
}

/// The `karabiner_cli` run that goes back to the OS default layout.
pub fn reset() -> (c: CliCall)
    ensures
        c.program@ == karabiner_cli(),
        c.args.deep_view() == seq!["--select-profile"@, system_default()],
{
    switch("system")
}

pub open spec fn msg_reserved_profile(name: Seq<char>) -> Seq<char> {
    "profile name '"@ + name + "' is reserved"@
}

/// A profile file may not take the reserved name.
pub fn check_profile_name(name: &str) -> (r: Result<(), String>)
    ensures
        r is Ok <==> name@ != system_default(),
        r matches Err(e) ==> e@ == msg_reserved_profile(name@),
{
    if str_eq(name, "system") {
        Err(concat3("profile name '", name, "' is reserved"))
    } else {
        Ok(())
    }
}

/// The position of the last `c` in `s`.
pub open spec fn last_index_of(s: Seq<char>, c: char) -> Option<int>
    decreases s.len(),
{
    if s.len() == 0 {
        None
    } else if s.last() == c {
        Some(s.len() - 1)
    } else {
        last_index_of(s.drop_last(), c)
    }
}

/// The profile name of a file name with the extension `toml`: what lies
/// before the last dot, when that is not empty and `toml` follows the dot
/// (std's `Path::extension` and `Path::file_stem`).
pub open spec fn toml_stem(name: Seq<char>) -> Option<Seq<char>> {
    match last_index_of(name, '.') {
        Some(k) => if k > 0 && name.skip(k + 1) == "toml"@ {
            Some(name.take(k))
        } else {
            None
        },
        None => None,
    }
}

/// The profile names of the `*.toml` files among `names`, in their order.
pub open spec fn toml_stems(names: Seq<Seq<char>>) -> Seq<Seq<char>>
    decreases names.len(),
{
    if names.len() == 0 {
        seq![]
    } else {
        match toml_stem(names[0]) {
            Some(s) => seq![s] + toml_stems(names.drop_first()),
            None => toml_stems(names.drop_first()),
        }
    }
}

/// Ascending by name.
pub open spec fn sorted_names(s: Seq<Seq<char>>) -> bool {
    forall|i: int, j: int| 0 <= i < j < s.len() ==> !str_lt(#[trigger] s[j], #[trigger] s[i])
}

/// The profile name of `name` if it is a `*.toml` file.
pub fn toml_stem_of(name: &str) -> (r: Option<String>)
    ensures
        match r {
            Some(s) => toml_stem(name@) == Some(s@),
            None => toml_stem(name@) is None,
        },
{
    let n = name.unicode_len();
    let mut k: usize = n;
    assert(name@.take(n as int) =~= name@);
    while k > 0 && name.get_char(k - 1) != '.'
        invariant
            n == name@.len(),
            k <= n,
            last_index_of(name@, '.') == last_index_of(name@.take(k as int), '.'),
        decreases k,
    {
        proof {
            let t = name@.take(k as int);
            assert(t.drop_last() =~= name@.take(k - 1));
            assert(t.last() == name@[k - 1]);
        }
        k -= 1;
    }
    proof {
        assert(name@.take(n as int) =~= name@);
        if k > 0 {
            let t = name@.take(k as int);
            assert(t.last() == name@[k - 1]);
        }
    }
    if k <= 1 {
        return None;
    }
    let dot = k - 1;
    let ext = name.substring_char(dot + 1, n);
    assert(ext@ =~= name@.skip(dot + 1));
    if str_eq(ext, "toml") {
        let stem = name.substring_char(0, dot);
        assert(stem@ =~= name@.take(dot as int));
        Some(stem.to_owned())
    } else {
        None
    }
}

/// The profile names of the `*.toml` files among `names`, in ascending
/// order: the one ascending arrangement of `toml_stems(names)`.
pub open spec fn spec_profile_names(names: Seq<Seq<char>>) -> Seq<Seq<char>> {
    choose|s: Seq<Seq<char>>| sorted_names(s) && s.to_multiset() == toml_stems(names).to_multiset()
}

/// Two ascending sequences with the same elements are equal: sorting by
/// name leaves no choice.
pub proof fn lemma_sorted_unique(a: Seq<Seq<char>>, b: Seq<Seq<char>>)
    requires
        sorted_names(a),
        sorted_names(b),
        a.to_multiset() == b.to_multiset(),
    ensures
        a == b,
    decreases a.len(),
{
    assert(a.len() == a.to_multiset().len());
    assert(b.len() == b.to_multiset().len());
    if a.len() == 0 {
        assert(a =~= b);
    } else {
        assert(a.to_multiset().count(a[0]) > 0);
        assert(b.contains(a[0]));
        let k = choose|k: int| 0 <= k < b.len() && b[k] == a[0];
        assert(b.to_multiset().count(b[0]) > 0);
        assert(a.contains(b[0]));
        let m = choose|m: int| 0 <= m < a.len() && a[m] == b[0];
        if k > 0 {
            assert(!str_lt(b[k], b[0]));
        }
        if m > 0 {
            assert(!str_lt(a[m], a[0]));
        }
        lemma_str_lt_trichotomy(a[0], b[0]);
        assert(a[0] == b[0]);
        assert(a.remove(0) =~= a.drop_first());
        assert(b.remove(0) =~= b.drop_first());
        assert(a.remove(0).to_multiset() == a.to_multiset().remove(a[0]));
        assert(b.remove(0).to_multiset() == b.to_multiset().remove(b[0]));
        let a1 = a.drop_first();
        let b1 = b.drop_first();
        assert(sorted_names(a1)) by {
            assert forall|i: int, j: int| 0 <= i < j < a1.len() implies !str_lt(#[trigger] a1[j], #[trigger] a1[i]) by {
                assert(a1[i] == a[i + 1] && a1[j] == a[j + 1]);
            }
        }
        assert(sorted_names(b1)) by {
            assert forall|i: int, j: int| 0 <= i < j < b1.len() implies !str_lt(#[trigger] b1[j], #[trigger] b1[i]) by {
                assert(b1[i] == b[i + 1] && b1[j] == b[j + 1]);
            }
        }
        lemma_sorted_unique(a1, b1);
        assert(a =~= b) by {
            assert forall|i: int| 0 <= i < a.len() implies a[i] == b[i] by {
                if i > 0 {
                    assert(a[i] == a1[i - 1] && b[i] == b1[i - 1]);
                }
            }
        }
    }
}

/// Sorted names of every `*.toml` profile among the file names of a
/// directory.
pub fn profile_names(file_names: &Vec<String>) -> (r: Vec<String>)
    ensures
        r.deep_view() == spec_profile_names(file_names.deep_view()),
        sorted_names(r.deep_view()),
        r.deep_view().to_multiset() == toml_stems(file_names.deep_view()).to_multiset(),
{
    let ghost s = file_names.deep_view();
    let mut stems: Vec<String> = Vec::new();
    let mut i: usize = 0;
    assert(s.skip(0) =~= s);
    assert(stems.deep_view() + toml_stems(s) =~= toml_stems(s));
    while i < file_names.len()
        invariant
            i <= file_names.len(),
            s == file_names.deep_view(),
            toml_stems(s) == stems.deep_view() + toml_stems(s.skip(i as int)),
        decreases file_names.len() - i,
    {
        proof {
            assert(s.skip(i as int).drop_first() =~= s.skip(i + 1));
            assert(s.skip(i as int)[0] == s[i as int]);
        }
        let ghost before = stems.deep_view();
        match toml_stem_of(file_names[i].as_str()) {
            Some(stem) => {
                stems.push(stem);
                assert(stems.deep_view() =~= before.push(toml_stem(s[i as int])->Some_0));
                assert(before + toml_stems(s.skip(i as int)) =~= stems.deep_view() + toml_stems(s.skip(i + 1)));
            },
            None => {},
        }
        i += 1;
    }
    assert(s.skip(i as int).len() == 0);
    assert(stems.deep_view() + seq![] =~= stems.deep_view());
    let ghost all = stems.deep_view();

    // Insertion sort, keeping equal names in their order.
    let mut out: Vec<String> = Vec::new();
    let mut k: usize = 0;
    assert(all.take(0) =~= Seq::<Seq<char>>::empty());
    assert(out.deep_view() =~= Seq::<Seq<char>>::empty());
    while k < stems.len()
        invariant
            k <= stems.len(),
            all == stems.deep_view(),
            sorted_names(out.deep_view()),
            out.deep_view().to_multiset() == all.take(k as int).to_multiset(),
        decreases stems.len() - k,
    {
        let x = stems[k].clone();
        let mut p: usize = 0;
        while p < out.len() && !str_less(x.as_str(), out[p].as_str())
            invariant
                p <= out.len(),
                forall|q: int| 0 <= q < p ==> !str_lt(x@, #[trigger] out.deep_view()[q]),
            decreases out.len() - p,
        {
            assert(out.deep_view()[p as int] == out@[p as int]@);
            p += 1;
        }
        let ghost old_out = out.deep_view();
        proof {
            if p < out.len() {
                assert(str_lt(x@, old_out[p as int]));
            }
        }
        out.insert(p, x);
        let ghost new_out = out.deep_view();
        assert(new_out =~= old_out.insert(p as int, x@));
        assert(sorted_names(new_out)) by {
            assert forall|i: int, j: int| 0 <= i < j < new_out.len() implies !str_lt(#[trigger] new_out[j], #[trigger] new_out[i]) by {
                if j < p {
                    assert(new_out[i] == old_out[i] && new_out[j] == old_out[j]);
                } else if j == p {
                    assert(new_out[i] == old_out[i]);
                } else if i > p {
                    assert(new_out[i] == old_out[i - 1] && new_out[j] == old_out[j - 1]);
                } else {
                    // j > p >= i: the later element sorts after x, hence after new_out[i].
                    let y = old_out[j - 1];
                    assert(new_out[j] == y);
                    assert(str_lt(x@, y)) by {
                        let z = old_out[p as int];
                        assert(str_lt(x@, z));
                        lemma_str_lt_trichotomy(y, z);
                        if y != z {
                            if j - 1 > p {
                                assert(!str_lt(y, z));
                            }
                            lemma_str_lt_transitive(x@, z, y);
                        }
                    }
                    if i == p {
                        assert(new_out[i] == x@);
                        lemma_str_lt_trichotomy(x@, y);
                    } else {
                        assert(new_out[i] == old_out[i]);
                        assert(!str_lt(x@, old_out[i]));
                        lemma_str_lt_trichotomy(x@, old_out[i]);
                        lemma_str_lt_trichotomy(y, old_out[i]);
                        if str_lt(y, old_out[i]) {
                            if old_out[i] == x@ {
                                lemma_str_lt_trichotomy(x@, y);
                            } else {
                                lemma_str_lt_transitive(x@, y, old_out[i]);
                            }
                        }
                    }
                }
            }
        }
        proof {
            assert(all.take(k + 1) =~= all.take(k as int).push(all[k as int]));
            assert(all[k as int] == x@);
        }
        k += 1;
    }
    assert(all.take(k as int) =~= all);
    proof {
        let c = spec_profile_names(file_names.deep_view());
        assert(sorted_names(out.deep_view()) && out.deep_view().to_multiset() == toml_stems(file_names.deep_view()).to_multiset());
        lemma_sorted_unique(c, out.deep_view());
    }
    out
}

/// The switchable profile names: `system` first, then the TOML profiles in
/// ascending order, exactly as `profile_names` gives them.
pub fn list(file_names: &Vec<String>) -> (r: Vec<String>)
    ensures
        r.deep_view() == seq![system_default()] + spec_profile_names(file_names.deep_view()),
        r.deep_view().len() >= 1,
        r.deep_view()[0] == system_default(),
        sorted_names(r.deep_view().drop_first()),
        r.deep_view().drop_first().to_multiset() == toml_stems(file_names.deep_view()).to_multiset(),
{
    let names = profile_names(file_names);
    let mut r: Vec<String> = Vec::new();
    r.push(String::from_str("system"));
    let mut i: usize = 0;
    assert(r.deep_view() =~= seq![system_default()] + names.deep_view().take(0));
    while i < names.len()
        invariant
            i <= names.len(),
            r.deep_view() == seq![system_default()] + names.deep_view().take(i as int),
        decreases names.len() - i,
    {
        let ghost before = r.deep_view();
        r.push(names[i].clone());
        assert(r.deep_view() =~= before.push(names.deep_view()[i as int]));
        assert(names.deep_view().take(i + 1) =~= names.deep_view().take(i as int).push(names.deep_view()[i as int]));
        assert(r.deep_view() =~= seq![system_default()] + names.deep_view().take(i + 1));
        i += 1;
    }
    assert(names.deep_view().take(i as int) =~= names.deep_view());
    assert(r.deep_view().drop_first() =~= names.deep_view());
    r
}

} // verus!
