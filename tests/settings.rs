use jrn::{Config, ConfigKey, Settings, TimeStamp};

#[test]
fn default_settings() {
    let s = Settings::default();
    assert_eq!(s.get_editor(), "vim");
    assert_eq!(s.get_editor_args(), &vec!(String::from("+star")));
    assert_eq!(s.get_tag_start(), '-');
    assert_eq!(s.get_tag_deliminator(), '_');
    assert!(s.get_config_tags().is_empty());
}

#[test]
fn settings_from_scopes() {
    let c = Config::find_or_default(
        Some("tag.start=+\ntag.local=daily"),
        Some("core.editor=nano\ncore.editor.args=-w  -x"),
        Some("tag.deliminator=,,\ntag.local=home"),
    );
    let s = Settings::from_config(&c);
    assert_eq!(s.get_editor(), "nano");
    assert_eq!(s.get_editor_args(), &vec!(String::from("w"), String::from("x")));
    assert_eq!(s.get_tag_start(), '+');
    assert_eq!(s.get_tag_deliminator(), ',');
    assert_eq!(s.get_config_tags(), &vec!(String::from("daily"), String::from("home")));
}

#[test]
fn set_overrides_and_empty_sets_nothing() {
    let mut s = Settings::default();
    s.set(ConfigKey::TagStart, "=x");
    assert_eq!(s.get_tag_start(), '=');
    s.set(ConfigKey::TagStart, "");
    assert_eq!(s.get_tag_start(), '=');
    s.set(ConfigKey::CoreEditor, "ed");
    assert_eq!(s.get_editor(), "ed");
    s.set(ConfigKey::LocalTags, "a b");
    assert_eq!(s.get_config_tags(), &vec!(String::from("a"), String::from("b")));
}

#[test]
fn build_path_appends_config_tags() {
    let mut s = Settings::default();
    s.set(ConfigKey::LocalTags, "home");
    let t = TimeStamp::from_ymdhm(2024, 3, 5, 9, 30);
    let name = s.build_path(&t, &vec!(String::from("work")));
    assert_eq!(name, "2024-03-05_0930-work_home");
    assert_eq!(s.format_file_name(&t, &vec!(String::from("work"))), name);
    assert_eq!(s.format_file_name(&t, &Vec::new()), "2024-03-05_0930-home");
    let (back_t, back) = s.read_file_name(&name).unwrap();
    assert_eq!(back_t, t);
    assert_eq!(back, vec!("work", "home"));
}

#[test]
fn find_or_default_resolves_scopes() {
    let s = Settings::find_or_default(None, Some("core.editor=nano"), Some("tag.start=+"));
    assert_eq!(s.get_editor(), "nano");
    assert_eq!(s.get_tag_start(), '+');
    assert_eq!(s.get_tag_deliminator(), '_');
}
