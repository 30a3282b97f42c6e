use sales_regression::record::Record;

fn record(pairs: &[(&str, &str)]) -> Record {
    let mut r = Record::new();
    for (k, v) in pairs {
        r.insert(k.to_string(), v.to_string());
    }
    r
}

#[test]
fn new_record_is_empty() {
    let r = Record::new();
    assert_eq!(r.len(), 0);
    assert_eq!(r.get("Publisher"), None);
    assert!(!r.contains_key("Publisher"));
    assert_eq!(r.position_of(""), None);
}

#[test]
fn insert_then_get() {
    let r = record(&[("Publisher", "Penguin"), ("units sold", "7")]);
    assert_eq!(r.len(), 2);
    assert_eq!(r.get("Publisher"), Some(&"Penguin".to_string()));
    assert_eq!(r.get("units sold"), Some(&"7".to_string()));
    assert_eq!(r.get("Units sold"), None);
    assert!(r.contains_key("units sold"));
    assert!(!r.contains_key("units"));
}

#[test]
fn fields_keep_the_order_of_first_insertion() {
    let r = record(&[("b", "1"), ("a", "2"), ("c", "3")]);
    assert_eq!(r.key_at(0), "b");
    assert_eq!(r.key_at(1), "a");
    assert_eq!(r.key_at(2), "c");
    assert_eq!(r.value_at(1), "2");
    assert_eq!(r.position_of("c"), Some(2));
    assert_eq!(r.position_of("d"), None);
}

#[test]
fn insert_replaces_in_place() {
    let mut r = record(&[("a", "1"), ("b", "2")]);
    r.insert("a".to_string(), "3".to_string());
    assert_eq!(r.len(), 2);
    assert_eq!(r.key_at(0), "a");
    assert_eq!(r.value_at(0), "3");
    assert_eq!(r.value_at(1), "2");
    assert_eq!(r.get("a"), Some(&"3".to_string()));
}

#[test]
fn names_are_compared_exactly() {
    let r = record(&[("a", "1"), (" a", "2"), ("A", "3"), ("", "4")]);
    assert_eq!(r.len(), 4);
    assert_eq!(r.get(" a"), Some(&"2".to_string()));
    assert_eq!(r.get("A"), Some(&"3".to_string()));
    assert_eq!(r.get(""), Some(&"4".to_string()));
}

#[test]
fn clone_is_equal_and_independent() {
    let r = record(&[("a", "1"), ("b", "2")]);
    let mut c = r.clone();
    assert_eq!(c, r);
    c.insert("c".to_string(), "3".to_string());
    assert_ne!(c, r);
    assert_eq!(r.len(), 2);
    assert_eq!(c.len(), 3);
}
