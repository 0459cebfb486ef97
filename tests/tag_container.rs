use jrn::TagContainer;

#[test]
fn insert_dup() {
    let mut con = TagContainer::new();
    con.insert(&"test");
    con.insert(&"test");
    assert_eq!(con.count(&"test"), Some(&2));
}

#[test]
fn can_sort() {
    let mut con = TagContainer::new();
    con.insert(&"A");
    con.insert(&"B");
    con.insert(&"B");
    con.insert(&"C");
    for (i, ct) in con.sorted().iter().enumerate() {
        match i {
            0 => assert_eq!(ct.1, "B"),
            1 => assert_eq!(ct.1, "A"),
            2 => assert_eq!(ct.1, "C"),
            _ => unreachable!(),
        }
    }
}

#[test]
fn sorted_pairs_by_count_then_tag() {
    let mut con = TagContainer::new();
    for t in ["A", "B", "B", "C"] {
        con.insert(t);
    }
    let pairs: Vec<(u16, String)> = con.sorted().into_iter().map(|c| (c.0, c.1)).collect();
    assert_eq!(pairs, vec!((2, "B".to_string()), (1, "A".to_string()), (1, "C".to_string())));
}

#[test]
fn tag_order_is_case_sensitive_code_point_order() {
    let mut con = TagContainer::new();
    for t in ["b", "B", "a", "ab"] {
        con.insert(t);
    }
    let tags: Vec<String> = con.sorted().into_iter().map(|c| c.1).collect();
    assert_eq!(tags, vec!("B", "a", "ab", "b"));
}

#[test]
fn count_of_missing_tag() {
    let con = TagContainer::new();
    assert_eq!(con.count("nope"), None);
}

#[test]
fn remove_decrements_and_forgets() {
    let mut con = TagContainer::new();
    con.insert("x");
    con.insert("x");
    con.remove("x");
    assert_eq!(con.count("x"), Some(&1));
    con.remove("x");
    assert_eq!(con.count("x"), None);
    con.remove("x");
    assert!(con.sorted().is_empty());
}

#[test]
fn count_stays_at_its_largest_value() {
    let mut con = TagContainer::new();
    for _ in 0..(u16::MAX as u32 + 3) {
        con.insert("t");
    }
    assert_eq!(con.count("t"), Some(&u16::MAX));
}
