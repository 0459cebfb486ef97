use jrn::Deliminated;
use jrn::IsDeliminator;

#[test]
fn deliminate_space() {
    let s = "+one two three";
    let d = s.deliminate().unwrap();
    assert_eq!(d, vec!("+one", "two", "three"));
}

#[test]
fn leading_deliminator() {
    let s = " one two three";
    let d = s.deliminate().unwrap();
    assert_eq!(d, vec!("one", "two", "three"));
}

#[test]
fn single_no_delim() {
    let s = "+one";
    let d = s.deliminate().unwrap();
    assert_eq!(d, vec!("+one"));
}

#[test]
fn single_leading_delim() {
    let s = ",one";
    let d = s.deliminate().unwrap();
    assert_eq!(d, vec!("one"));
}

#[test]
fn single_value_multi_delim() {
    let s = ",one,";
    let d = s.deliminate().unwrap();
    assert_eq!(d, vec!("one"));
}

#[test]
fn multi_value_multi_delim() {
    let s = "one,,two, three";
    let d = s.deliminate().unwrap();
    assert_eq!(d, vec!("one", "two", "three"));
}

#[test]
fn leading_space_two_tokens() {
    let d = " one two".deliminate().unwrap();
    assert_eq!(d, vec!("one", "two"));
}

#[test]
fn doubled_leading_deliminators_give_no_empty_token() {
    let d = ",,one".deliminate().unwrap();
    assert_eq!(d, vec!("one"));
}

#[test]
fn every_deliminator_splits() {
    let d = "a,b_c-d/e\\f g".deliminate().unwrap();
    assert_eq!(d, vec!("a", "b", "c", "d", "e", "f", "g"));
}

#[test]
fn empty_text_is_one_empty_token() {
    let d = "".deliminate().unwrap();
    assert_eq!(d, vec!(""));
}

#[test]
fn only_deliminators_give_no_token() {
    let d = ", _".deliminate().unwrap();
    assert!(d.is_empty());
}

#[test]
fn deliminator_set() {
    for c in [',', '_', '-', '/', '\\', ' '] {
        assert!(c.is_deliminator());
    }
    assert!(!'+'.is_deliminator());
    assert!(!'.'.is_deliminator());
}
