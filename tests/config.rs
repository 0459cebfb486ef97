use jrn::{Config, ConfigKey, ConfigParseError, ConfigScope, NaiveConfig, NaiveConfigEntry};

#[test]
fn scope_order() {
    assert!(ConfigScope::Local > ConfigScope::User);
    assert!(ConfigScope::User > ConfigScope::System);
    assert!(ConfigScope::System > ConfigScope::Default);
}

#[test]
fn parse_str() {
    let s = r"
        core.editor=vim
        fake.entry=nonsense
        ";

    let c = s.parse::<NaiveConfig>().unwrap();
    let expected = NaiveConfigEntry::new(ConfigKey::CoreEditor, Some("vim"));
    assert_eq!(c.inner.len(), 1);
    assert!(c.inner.contains(&expected));
}

#[test]
fn parse_line_errors() {
    assert!(matches!(NaiveConfigEntry::parse("core.editor"), Err(ConfigParseError::NoDeliminator)));
    match NaiveConfigEntry::parse(" fake.entry = x") {
        Err(ConfigParseError::UnknownMeaning(k)) => assert_eq!(k, "fake.entry"),
        _ => panic!("unknown key accepted"),
    }
}

#[test]
fn parse_line_value_after_first_equals() {
    let e = NaiveConfigEntry::parse("core.editor.args = -c=x y ").unwrap();
    assert_eq!(e.key, ConfigKey::EditorArgs);
    assert_eq!(e.value, Some(String::from("-c=x y")));
}

#[test]
fn empty_value_is_unset() {
    let e = NaiveConfigEntry::parse("tag.start=   ").unwrap();
    assert_eq!(e.key, ConfigKey::TagStart);
    assert_eq!(e.value, None);
}

#[test]
fn defaults_only() {
    let c = Config::find_or_default(None, None, None);
    assert_eq!(c.get_editor(), "vim");
    assert_eq!(c.get_value(ConfigKey::TagStart), Some(String::from("-")));
    assert_eq!(c.get_value(ConfigKey::LocalTags), None);
}

#[test]
fn local_scope_wins() {
    let c = Config::find_or_default(None, None, Some("core.editor=ed\n"));
    assert_eq!(c.get_editor(), "ed");
}

#[test]
fn falls_back_to_nearest_defining_scope() {
    let c = Config::find_or_default(Some("core.editor=emacs"), Some("core.editor=nano"), Some("tag.start=+"));
    assert_eq!(c.get_editor(), "nano");
    let c = Config::find_or_default(Some("core.editor=emacs"), None, Some("core.editor="));
    assert_eq!(c.get_editor(), "emacs");
}

#[test]
fn configured_tags_concatenate_over_scopes() {
    let c = Config::find_or_default(Some("tag.local=a,b"), None, Some("tag.local = c"));
    assert_eq!(c.get_config_tags(), vec!("a", "b", "c"));
}

#[test]
fn default_scope_config_ignores_content() {
    let c = ConfigScope::Default.get_config(Some("core.editor=ed")).unwrap();
    assert_eq!(c.get_editor(), "vim");
    assert!(ConfigScope::User.get_config(None).is_none());
    let c = ConfigScope::User.get_config(Some("core.editor=ed")).unwrap();
    assert_eq!(c.get_editor(), "ed");
}

#[test]
fn set_overrides_within_scope() {
    let mut c = Config::default();
    c.set(ConfigScope::Local, ConfigKey::CoreEditor, "kak");
    assert_eq!(c.get_editor(), "kak");
    c.set(ConfigScope::Default, ConfigKey::CoreEditor, "vi");
    assert_eq!(c.get_editor(), "kak");
}

#[test]
fn merge_appends() {
    let a = Config::default();
    let b = ConfigScope::Local.get_config(Some("core.editor=ed")).unwrap();
    assert_eq!(a.merge(b).get_editor(), "ed");
}

#[test]
fn key_names_read_back() {
    for k in [
        ConfigKey::CoreEditor,
        ConfigKey::EditorArgs,
        ConfigKey::TagStart,
        ConfigKey::TagDeliminator,
        ConfigKey::LocalTags,
    ] {
        assert_eq!(ConfigKey::from_name(k.name()), Some(k));
    }
    assert_eq!(ConfigKey::EditorArgs.name(), "core.editor.args");
}

#[test]
fn empty_value_falls_back() {
    let local = NaiveConfig { inner: vec![NaiveConfigEntry::new(ConfigKey::CoreEditor, Some(""))] }
        .into_scoped(ConfigScope::Local);
    assert_eq!(Config::default().merge(local).get_editor(), "vim");
    let c = Config::find_or_default(None, Some("core.editor=nano"), Some("core.editor=  \r"));
    assert_eq!(c.get_editor(), "nano");
}

#[test]
fn crlf_lines_parse() {
    let c = Config::find_or_default(None, None, Some("core.editor=ed\r\ntag.start=+\r\n"));
    assert_eq!(c.get_editor(), "ed");
    assert_eq!(c.get_value(ConfigKey::TagStart), Some(String::from("+")));
}
