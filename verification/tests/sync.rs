use karaconf::sync::{check_profile_name, list, profile_names, reset, switch, toml_stem_of};

fn s(x: &str) -> String {
    x.to_string()
}

#[test]
fn toml_stem_of_file_names() {
    assert_eq!(toml_stem_of("keymap.toml"), Some(s("keymap")));
    assert_eq!(toml_stem_of("a.b.toml"), Some(s("a.b")));
    assert_eq!(toml_stem_of("..toml"), Some(s(".")));
    assert_eq!(toml_stem_of(".toml"), None);
    assert_eq!(toml_stem_of("notes.txt"), None);
    assert_eq!(toml_stem_of("toml"), None);
    assert_eq!(toml_stem_of("x.toml.bak"), None);
}

#[test]
fn profile_names_are_sorted_toml_stems() {
    let files = vec![s("work.toml"), s("README.md"), s("alpha.toml"), s("Zed.toml"), s("mid.toml")];
    assert_eq!(profile_names(&files), vec![s("Zed"), s("alpha"), s("mid"), s("work")]);
    assert!(profile_names(&vec![]).is_empty());
}

#[test]
fn list_puts_system_first() {
    let files = vec![s("b.toml"), s("a.toml")];
    assert_eq!(list(&files), vec![s("system"), s("a"), s("b")]);
    assert_eq!(list(&vec![]), vec![s("system")]);
}

#[test]
fn system_profile_name_is_reserved() {
    assert_eq!(check_profile_name("system").unwrap_err(), "profile name 'system' is reserved");
    assert!(check_profile_name("keymap").is_ok());
}

#[test]
fn switch_and_reset_commands() {
    let c = switch("keymap");
    assert_eq!(c.program, "/Library/Application Support/org.pqrs/Karabiner-Elements/bin/karabiner_cli");
    assert_eq!(c.args, vec![s("--select-profile"), s("keymap")]);
    let r = reset();
    assert_eq!(r.program, c.program);
    assert_eq!(r.args, vec![s("--select-profile"), s("system")]);
}

#[test]
fn list_is_system_then_profile_names() {
    let files = vec![s("zed.toml"), s("notes.txt"), s("alpha.toml"), s(".toml")];
    let mut expected = vec![s("system")];
    expected.extend(profile_names(&files));
    assert_eq!(list(&files), expected);
    assert_eq!(expected, vec![s("system"), s("alpha"), s("zed")]);
}
