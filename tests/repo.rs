use jrn::{ConfigKey, IgnorePatterns, JrnError, JrnRepo, Settings, TimeStamp};

fn repo() -> JrnRepo {
    JrnRepo::init(Settings::default(), IgnorePatterns::default(), String::from("."))
}

fn stamp(minute: u32) -> TimeStamp {
    TimeStamp::from_ymdhm(2024, 3, 5, 9, minute)
}

fn names(r: &JrnRepo) -> Vec<String> {
    r.entries().iter().map(|e| e.file_path.clone()).collect()
}

#[test]
fn traversal_recovers_only_entries() {
    let mut r = repo();
    assert!(!r.visit("./.git", true));
    assert!(!r.visit("./2024-03-05_0930-foo.txt", false));
    assert!(!r.visit("./notes.md", false));
    assert_eq!(r.entries().len(), 1);
    assert_eq!(r.entries()[0].file_path, "./2024-03-05_0930-foo.txt");
    assert_eq!(r.entries()[0].creation_time, stamp(30));
    assert_eq!(r.tags().count("foo.txt"), Some(&1));
    assert_eq!(r.tags().sorted().len(), 1);
}

#[test]
fn directories_are_entered_unless_ignored() {
    let mut r = repo();
    assert!(r.visit("./notes", true));
    assert!(!r.visit("./notes/.cache", true));
    assert!(r.entries().is_empty());
}

#[test]
fn entries_are_kept_in_entry_order() {
    let mut r = repo();
    r.visit("b/2024-03-05_0931-x", false);
    r.visit("a/2024-03-05_0930-y", false);
    r.visit("c/2024-03-05_0930-x", false);
    r.visit("a/2024-03-05_0930-x", false);
    assert_eq!(
        names(&r),
        vec!("a/2024-03-05_0930-x", "c/2024-03-05_0930-x", "a/2024-03-05_0930-y", "b/2024-03-05_0931-x")
    );
    assert_eq!(r.tags().count("x"), Some(&3));
}

#[test]
fn new_entry_merges_config_tags() {
    let mut settings = Settings::default();
    settings.set(ConfigKey::LocalTags, "home");
    let mut r = JrnRepo::init(settings, IgnorePatterns::default(), String::from("."));
    let e = r.new_entry(stamp(30), &vec!(String::from("work"))).unwrap();
    assert_eq!(e.file_path, "2024-03-05_0930-work_home");
    assert_eq!(e.tags, vec!("work", "home"));
    r.add_entry(e);
    assert_eq!(r.entries().len(), 1);
    assert_eq!(r.tags().count("home"), Some(&1));
}

#[test]
fn new_entry_collision_is_reported() {
    let mut r = repo();
    let e = r.new_entry(stamp(30), &vec!(String::from("a"))).unwrap();
    r.add_entry(e);
    assert!(matches!(r.new_entry(stamp(30), &vec!(String::from("a"))), Err(JrnError::AlreadyExists)));
    assert!(r.new_entry(stamp(30), &vec!(String::from("b"))).is_ok());
}

#[test]
fn new_entry_refuses_tags_that_do_not_read_back() {
    let r = repo();
    assert!(matches!(r.new_entry(stamp(30), &vec!(String::from("a_b"))), Err(JrnError::InvalidName(_))));
    assert!(matches!(r.new_entry(stamp(30), &vec!(String::from(""))), Err(JrnError::InvalidName(_))));
    assert!(matches!(r.new_entry(stamp(30), &vec!(String::from("a/b"))), Err(JrnError::InvalidName(_))));
}

#[test]
fn push_tag_renames_latest() {
    let mut r = repo();
    r.visit("dir/2024-03-05_0930-a", false);
    r.visit("dir/2024-03-05_0931-b", false);
    let e = r.tagged_latest("c").unwrap();
    assert_eq!(e.file_path, "dir/2024-03-05_0931-b_c");
    assert_eq!(e.tags, vec!("b", "c"));
    r.replace_latest(e);
    assert_eq!(names(&r), vec!("dir/2024-03-05_0930-a", "dir/2024-03-05_0931-b_c"));
    assert_eq!(r.tags().count("b"), Some(&1));
    assert_eq!(r.tags().count("c"), Some(&1));
}

#[test]
fn push_tag_errors() {
    let mut r = repo();
    assert!(matches!(r.tagged_latest("c"), Err(JrnError::NoEntry)));
    r.visit("2024-03-05_0930-a", false);
    assert!(matches!(r.tagged_latest("x_y"), Err(JrnError::InvalidName(_))));
    assert!(matches!(r.tagged_latest(""), Err(JrnError::InvalidName(_))));
}

#[test]
fn remove_latest_uncounts_tags() {
    let mut r = repo();
    r.visit("2024-03-05_0930-a_b", false);
    r.visit("2024-03-05_0931-a", false);
    let removed = r.remove_latest().unwrap();
    assert_eq!(removed.file_path, "2024-03-05_0931-a");
    assert_eq!(r.tags().count("a"), Some(&1));
    assert_eq!(r.latest().unwrap().file_path, "2024-03-05_0930-a_b");
    r.remove_latest();
    assert_eq!(r.tags().count("a"), None);
    assert!(r.remove_latest().is_none());
}

#[test]
fn list_entries_filters_and_limits() {
    let mut r = repo();
    r.visit("2024-03-05_0930-work", false);
    r.visit("2024-03-05_0931-home", false);
    r.visit("2024-03-05_0932-work_x", false);
    r.visit("2024-03-05_0933-work", false);
    assert_eq!(r.list_entries("work", None).unwrap(), vec!(0, 2, 3));
    assert_eq!(r.list_entries("work", Some(2)).unwrap(), vec!(2, 3));
    assert_eq!(r.list_entries(".*", Some(9)).unwrap(), vec!(0, 1, 2, 3));
    assert!(matches!(r.list_entries("(", None), Err(JrnError::InvalidRegex)));
}

#[test]
fn list_tags_filters_ranked() {
    let mut r = repo();
    r.visit("2024-03-05_0930-work_wx", false);
    r.visit("2024-03-05_0931-home", false);
    r.visit("2024-03-05_0932-work", false);
    let all: Vec<(u16, String)> = r.list_tags(".*").unwrap().into_iter().map(|c| (c.0, c.1)).collect();
    assert_eq!(all, vec!((2, "work".to_string()), (1, "home".to_string()), (1, "wx".to_string())));
    let w: Vec<String> = r.list_tags("^w").unwrap().into_iter().map(|c| c.1).collect();
    assert_eq!(w, vec!("work", "wx"));
    assert!(matches!(r.list_tags("["), Err(JrnError::InvalidRegex)));
}

#[test]
fn paths_with_a_trailing_slash_read_their_file_name() {
    let mut r = repo();
    r.visit("dir/2024-03-05_0930-a/", false);
    assert_eq!(r.entries().len(), 1);
    let e = r.tagged_latest("b").unwrap();
    assert_eq!(e.file_path, "dir/2024-03-05_0930-a_b");
    assert!(!r.visit("dir/..", false));
    assert_eq!(r.entries().len(), 1);
}
