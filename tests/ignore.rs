use jrn::IgnorePatterns;

#[test]
fn default_ignores_git() {
    let path = ".git";
    let default = IgnorePatterns::find_or_default(None);
    assert!(default.matches(path));
}

#[test]
fn default_ignores_git_submodule() {
    let path = "somedir/.git";
    let default = IgnorePatterns::find_or_default(None);
    assert!(default.matches(path));
}

#[test]
fn default_does_not_ignore_random() {
    let path = "somedir/should_not_be_ignored";
    let default = IgnorePatterns::find_or_default(None);
    assert!(!default.matches(path));
}

#[test]
fn ignore_git() {
    let path = ".git";
    let ignore = IgnorePatterns::find_or_default(None);
    assert!(ignore.matches(path));
}

#[test]
fn rules_match_the_whole_name() {
    let ignore = IgnorePatterns::default();
    assert!(!ignore.matches("2024-03-05_0930-foo.txt"));
    assert!(!ignore.matches("dir.d/notes"));
    assert!(ignore.matches("a/b/.hidden"));
}

#[test]
fn ignore_file_rules_are_added() {
    let ignore = IgnorePatterns::find_or_default(Some("target\n\n.*\\.md\n"));
    assert!(ignore.matches("./target"));
    assert!(ignore.matches("notes.md"));
    assert!(!ignore.matches("targets"));
}

#[test]
fn invalid_rules_are_dropped() {
    let ignore = IgnorePatterns::find_or_default(Some("(\nbuild"));
    assert!(ignore.matches("build"));
    assert!(!ignore.matches("("));
}

#[test]
fn trailing_slash_and_missing_names() {
    let ignore = IgnorePatterns::default();
    assert!(ignore.matches("dir/.git/"));
    assert!(ignore.matches(".git//"));
    assert!(!ignore.matches(""));
    assert!(!ignore.matches("/"));
    assert!(!ignore.matches("a/.."));
    let everything = IgnorePatterns::find_or_default(Some(".*"));
    assert!(!everything.matches("/"));
    assert!(everything.matches("x"));
}

#[test]
fn crlf_and_blank_lines_in_ignore_file() {
    let ignore = IgnorePatterns::find_or_default(Some("target\r\n   \r\n\t\nbuild\r\n"));
    assert!(ignore.matches("target"));
    assert!(ignore.matches("a/build"));
    assert!(!ignore.matches("   "));
    assert!(!ignore.matches("notes"));
}
