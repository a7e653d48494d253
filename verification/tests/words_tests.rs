use simumech::words::WordMap;

#[test]
fn lookup_gives_ids_in_order_of_first_sight() {
    let mut words = WordMap::new();
    assert!(words.is_empty());
    assert_eq!(words.lookup("Hello".to_string()), 0);
    assert_eq!(words.lookup("world".to_string()), 1);
    assert_eq!(words.len(), 2);
    assert!(!words.is_empty());
}

#[test]
fn lookup_ignores_case_and_keeps_first_spelling() {
    let mut words = WordMap::new();
    let a = words.lookup("Hello".to_string());
    let b = words.lookup("HELLO".to_string());
    let c = words.lookup("hello".to_string());
    assert_eq!(a, b);
    assert_eq!(b, c);
    assert_eq!(words.len(), 1);
    assert_eq!(words.get(a), "Hello");
}

#[test]
fn lookup_twice_changes_nothing() {
    let mut words = WordMap::new();
    words.lookup("cat".to_string());
    let first = words.lookup("Dog".to_string());
    let len = words.len();
    let second = words.lookup("Dog".to_string());
    assert_eq!(first, second);
    assert_eq!(words.len(), len);
}

#[test]
fn find_after_lookup_gives_the_same_id() {
    let mut words = WordMap::new();
    words.lookup("one".to_string());
    let id = words.lookup("Two".to_string());
    assert_eq!(words.find("two"), Some(&id));
    assert_eq!(words.find("Two"), Some(&id));
    assert_eq!(words.find("TWO"), Some(&id));
    assert_eq!(words.find("three"), None);
}

#[test]
fn lookup_keeps_earlier_ids() {
    let mut words = WordMap::new();
    let a = words.lookup("a".to_string());
    let b = words.lookup("b".to_string());
    words.lookup("c".to_string());
    assert_eq!(words.get(a), "a");
    assert_eq!(words.get(b), "b");
}

#[test]
fn get_takes_ids_modulo_the_size() {
    let mut words = WordMap::new();
    words.lookup("zero".to_string());
    words.lookup("one".to_string());
    assert_eq!(words.get(2), "zero");
    assert_eq!(words.get(5), "one");
    assert_eq!(words.get(u32::MAX), "one");
}

#[test]
fn lookup_lowercases_beyond_ascii() {
    let mut words = WordMap::new();
    let a = words.lookup("ÉCOLE".to_string());
    let b = words.lookup("école".to_string());
    assert_eq!(a, b);
    assert_eq!(words.find("école"), Some(&a));
}

#[test]
fn lookups_count_distinct_lowercase_forms() {
    let mut words = WordMap::new();
    assert!(words.is_empty());
    for w in ["a", "B", "A", "b", "c", "C"] {
        words.lookup(w.to_string());
        assert!(!words.is_empty());
    }
    assert_eq!(words.len(), 3);
    let id = words.lookup("Word".to_string());
    assert_eq!(words.get(id), "Word");
    assert_eq!(words.get(id + words.len() as u32), "Word");
    assert_eq!(words.lookup("WORD".to_string()), id);
    assert_eq!(words.len(), 4);
}
