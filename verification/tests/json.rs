use karaconf::json::{
    find_member, new_profile, profile_name, set_rules, sync_profiles, sync_step, upsert, upsert_position, Json,
};

fn st(x: &str) -> Json {
    Json::Str(x.to_string())
}

fn num(x: &str) -> Json {
    Json::Number(x.to_string())
}

fn obj(members: Vec<(&str, Json)>) -> Json {
    Json::Object(members.into_iter().map(|(k, v)| (k.to_string(), v)).collect())
}

fn rules(tag: &str) -> Json {
    Json::Array(vec![obj(vec![("description", st(tag))])])
}

fn profile(name: &str, extra: Vec<(&str, Json)>) -> Json {
    let mut members = vec![("name", st(name))];
    members.extend(extra);
    obj(members)
}

#[test]
fn find_member_takes_the_first_key() {
    let members = vec![
        ("a".to_string(), Json::Null),
        ("b".to_string(), Json::Bool(true)),
        ("a".to_string(), Json::Bool(false)),
    ];
    assert_eq!(find_member(&members, "a"), Some(0));
    assert_eq!(find_member(&members, "b"), Some(1));
    assert_eq!(find_member(&members, "c"), None);
}

#[test]
fn profile_name_reads_a_string_name() {
    assert_eq!(profile_name(&profile("work", vec![])), Some(&"work".to_string()));
    assert_eq!(profile_name(&obj(vec![("name", num("3"))])), None);
    assert_eq!(profile_name(&obj(vec![("selected", Json::Bool(true))])), None);
    assert_eq!(profile_name(&st("work")), None);
}

#[test]
fn upsert_finds_first_named_profile() {
    let profiles = vec![
        obj(vec![("selected", Json::Bool(true))]),
        profile("work", vec![]),
        profile("keymap", vec![]),
        profile("work", vec![]),
    ];
    assert_eq!(upsert_position(&profiles, "work"), Some(1));
    assert_eq!(upsert_position(&profiles, "keymap"), Some(2));
    assert_eq!(upsert_position(&profiles, "other"), None);
}

#[test]
fn new_profile_is_minimal_and_unselected() {
    assert_eq!(
        new_profile("keymap", rules("r")),
        obj(vec![
            ("complex_modifications", obj(vec![("rules", rules("r"))])),
            ("name", st("keymap")),
            ("selected", Json::Bool(false)),
        ])
    );
}

#[test]
fn upsert_appends_a_fresh_profile_for_a_new_name() {
    let mut profiles = vec![profile("work", vec![("selected", Json::Bool(true))])];
    assert_eq!(upsert(&mut profiles, "keymap", rules("new")), Ok(()));
    assert_eq!(profiles.len(), 2);
    assert_eq!(profiles[0], profile("work", vec![("selected", Json::Bool(true))]));
    assert_eq!(profiles[1], new_profile("keymap", rules("new")));
}

#[test]
fn upsert_replaces_only_the_rules() {
    let before = profile(
        "keymap",
        vec![
            ("selected", Json::Bool(true)),
            ("complex_modifications", obj(vec![("parameters", num("500")), ("rules", rules("old"))])),
            ("devices", Json::Array(vec![])),
        ],
    );
    let mut profiles = vec![profile("work", vec![]), before];
    assert_eq!(upsert(&mut profiles, "keymap", rules("new")), Ok(()));
    assert_eq!(profiles[0], profile("work", vec![]));
    assert_eq!(
        profiles[1],
        profile(
            "keymap",
            vec![
                ("selected", Json::Bool(true)),
                ("complex_modifications", obj(vec![("parameters", num("500")), ("rules", rules("new"))])),
                ("devices", Json::Array(vec![])),
            ],
        )
    );
}

#[test]
fn upsert_adds_missing_complex_modifications() {
    let mut profiles = vec![profile("keymap", vec![("selected", Json::Bool(false))])];
    assert_eq!(upsert(&mut profiles, "keymap", rules("new")), Ok(()));
    assert_eq!(
        profiles[0],
        profile(
            "keymap",
            vec![
                ("selected", Json::Bool(false)),
                ("complex_modifications", obj(vec![("rules", rules("new"))])),
            ],
        )
    );
}

#[test]
fn upsert_adds_rules_to_complex_modifications_without_them() {
    let mut profiles = vec![profile("keymap", vec![("complex_modifications", obj(vec![("parameters", Json::Null)]))])];
    assert_eq!(upsert(&mut profiles, "keymap", rules("new")), Ok(()));
    assert_eq!(
        profiles[0],
        profile(
            "keymap",
            vec![("complex_modifications", obj(vec![("parameters", Json::Null), ("rules", rules("new"))]))],
        )
    );
}

#[test]
fn upsert_refuses_complex_modifications_that_is_no_object() {
    let before = profile("keymap", vec![("complex_modifications", Json::Array(vec![]))]);
    let mut profiles = vec![before];
    assert_eq!(
        upsert(&mut profiles, "keymap", rules("new")),
        Err("complex_modifications must be an object".to_string())
    );
    assert_eq!(profiles, vec![profile("keymap", vec![("complex_modifications", Json::Array(vec![]))])]);
}

#[test]
fn set_rules_refuses_a_profile_that_is_no_object() {
    match set_rules(Json::Array(vec![st("keymap")]), rules("new")) {
        Err((p, e)) => {
            assert_eq!(p, Json::Array(vec![st("keymap")]));
            assert_eq!(e, "profile entry must be an object");
        }
        Ok(_) => panic!("a profile that is no object was accepted"),
    }
}

#[test]
fn upsert_then_lookup_finds_the_new_rules() {
    let mut profiles = vec![profile("a", vec![]), profile("b", vec![])];
    upsert(&mut profiles, "b", rules("one")).unwrap();
    upsert(&mut profiles, "c", rules("two")).unwrap();
    assert_eq!(upsert_position(&profiles, "b"), Some(1));
    assert_eq!(upsert_position(&profiles, "c"), Some(2));
    assert_eq!(profiles[1], profile("b", vec![("complex_modifications", obj(vec![("rules", rules("one"))]))]));
    assert_eq!(profiles[2], new_profile("c", rules("two")));
}

#[test]
fn sync_step_needs_a_profiles_array() {
    let mut doc = obj(vec![("global", obj(vec![]))]);
    assert_eq!(
        sync_step(&mut doc, "system", Json::Array(vec![])),
        Err("karabiner.json missing 'profiles' array".to_string())
    );
    assert_eq!(doc, obj(vec![("global", obj(vec![]))]));
    let mut doc = obj(vec![("profiles", obj(vec![]))]);
    assert!(sync_step(&mut doc, "system", Json::Array(vec![])).is_err());
    let mut doc = Json::Array(vec![]);
    assert!(sync_step(&mut doc, "system", Json::Array(vec![])).is_err());
}

#[test]
fn sync_step_keeps_the_rest_of_the_document() {
    let mut doc = obj(vec![("global", obj(vec![("show", Json::Bool(true))])), ("profiles", Json::Array(vec![]))]);
    assert_eq!(sync_step(&mut doc, "keymap", rules("r")), Ok(()));
    assert_eq!(
        doc,
        obj(vec![
            ("global", obj(vec![("show", Json::Bool(true))])),
            ("profiles", Json::Array(vec![new_profile("keymap", rules("r"))])),
        ])
    );
}

#[test]
fn sync_profiles_writes_system_first_then_each_profile() {
    let doc = obj(vec![("profiles", Json::Array(vec![profile("work", vec![("selected", Json::Bool(true))])]))]);
    let compiled = vec![("alpha".to_string(), rules("a")), ("work".to_string(), rules("w"))];
    let out = sync_profiles(doc, compiled).unwrap();
    assert_eq!(
        out,
        obj(vec![(
            "profiles",
            Json::Array(vec![
                profile(
                    "work",
                    vec![
                        ("selected", Json::Bool(true)),
                        ("complex_modifications", obj(vec![("rules", rules("w"))])),
                    ],
                ),
                new_profile("system", Json::Array(vec![])),
                new_profile("alpha", rules("a")),
            ]),
        )])
    );
}

#[test]
fn sync_profiles_refuses_the_reserved_name() {
    let doc = obj(vec![("profiles", Json::Array(vec![]))]);
    let compiled = vec![("system".to_string(), rules("s"))];
    assert_eq!(sync_profiles(doc, compiled), Err("profile name 'system' is reserved".to_string()));
}

#[test]
fn sync_profiles_refuses_a_document_without_profiles() {
    let doc = obj(vec![]);
    assert_eq!(sync_profiles(doc, vec![]), Err("karabiner.json missing 'profiles' array".to_string()));
}
