use missing_files::index::Index;

fn keys(index: &Index) -> Vec<String> {
    let mut keys = Vec::new();
    for i in 0..index.len() {
        keys.push(index.key_at(i).clone());
    }
    keys
}

fn values(index: &Index) -> Vec<String> {
    let mut values = Vec::new();
    for i in 0..index.len() {
        values.push(index.value_at(i).clone());
    }
    values
}

#[test]
fn new_index_is_empty() {
    let index = Index::new();
    assert_eq!(index.len(), 0);
    assert!(!index.contains_key("anything"));
    assert!(!index.contains_key(""));
}

#[test]
fn keys_come_in_ascending_order() {
    let mut index = Index::new();
    index.insert("m".to_string(), "1".to_string());
    index.insert("z".to_string(), "2".to_string());
    index.insert("a".to_string(), "3".to_string());
    index.insert("k".to_string(), "4".to_string());
    index.insert("".to_string(), "5".to_string());
    assert_eq!(keys(&index), vec!["", "a", "k", "m", "z"]);
    assert_eq!(values(&index), vec!["5", "3", "4", "1", "2"]);
}

#[test]
fn later_value_replaces_earlier_one() {
    let mut index = Index::new();
    index.insert("key".to_string(), "first".to_string());
    index.insert("other".to_string(), "x".to_string());
    index.insert("key".to_string(), "second".to_string());
    assert_eq!(index.len(), 2);
    assert_eq!(keys(&index), vec!["key", "other"]);
    assert_eq!(values(&index), vec!["second", "x"]);
}

#[test]
fn contains_key_finds_exactly_the_keys() {
    let mut index = Index::new();
    for key in ["b", "d", "f", "h", "j", "l", "n"] {
        index.insert(key.to_string(), format!("value of {}", key));
    }
    for key in ["b", "d", "f", "h", "j", "l", "n"] {
        assert!(index.contains_key(key));
    }
    for key in ["", "a", "c", "e", "g", "i", "k", "m", "o", "bb", "B"] {
        assert!(!index.contains_key(key));
    }
}

#[test]
fn many_keys_in_any_order() {
    let mut index = Index::new();
    let mut expected: Vec<String> = Vec::new();
    let mut n: u32 = 17;
    for _ in 0..200 {
        n = n.wrapping_mul(1103515245).wrapping_add(12345);
        let key = format!("k{}", n % 1000);
        index.insert(key.clone(), key.clone());
        expected.push(key);
    }
    expected.sort();
    expected.dedup();
    assert_eq!(keys(&index), expected);
    assert_eq!(values(&index), expected);
}

fn pair(key: &str, value: &str) -> (String, String) {
    (key.to_string(), value.to_string())
}

#[test]
fn from_pairs_sorts_and_keeps_the_last_value() {
    let index = Index::from_pairs(vec![
        pair("m", "1"),
        pair("a", "2"),
        pair("z", "3"),
        pair("a", "4"),
        pair("m", "5"),
        pair("b", "6"),
        pair("a", "7"),
    ]);
    assert_eq!(keys(&index), vec!["a", "b", "m", "z"]);
    assert_eq!(values(&index), vec!["7", "6", "5", "3"]);
}

#[test]
fn from_pairs_of_nothing_and_of_one() {
    let index = Index::from_pairs(Vec::new());
    assert_eq!(index.len(), 0);
    let index = Index::from_pairs(vec![pair("only", "one")]);
    assert_eq!(keys(&index), vec!["only"]);
    assert_eq!(values(&index), vec!["one"]);
    assert!(index.contains_key("only"));
}

#[test]
fn from_pairs_agrees_with_entering_one_by_one() {
    let mut pairs = Vec::new();
    let mut entered = Index::new();
    let mut n: u32 = 3;
    for i in 0..500 {
        n = n.wrapping_mul(1664525).wrapping_add(1013904223);
        let key = format!("key-{}", n % 300);
        let value = format!("value-{}", i);
        pairs.push((key.clone(), value.clone()));
        entered.insert(key, value);
    }
    let built = Index::from_pairs(pairs);
    assert_eq!(keys(&built), keys(&entered));
    assert_eq!(values(&built), values(&entered));
}

#[test]
fn merge_prefers_the_later_index() {
    let earlier = Index::from_pairs(vec![pair("a", "old a"), pair("c", "old c"), pair("e", "old e")]);
    let later = Index::from_pairs(vec![pair("b", "new b"), pair("c", "new c"), pair("f", "new f")]);
    let merged = Index::merge(earlier, later);
    assert_eq!(keys(&merged), vec!["a", "b", "c", "e", "f"]);
    assert_eq!(values(&merged), vec!["old a", "new b", "new c", "old e", "new f"]);
}

#[test]
fn merge_with_an_empty_index() {
    let some = Index::from_pairs(vec![pair("x", "1"), pair("y", "2")]);
    let merged = Index::merge(Index::new(), some.clone());
    assert_eq!(keys(&merged), vec!["x", "y"]);
    let merged = Index::merge(some, Index::new());
    assert_eq!(keys(&merged), vec!["x", "y"]);
    assert_eq!(values(&merged), vec!["1", "2"]);
    let merged = Index::merge(Index::new(), Index::new());
    assert_eq!(merged.len(), 0);
}

#[test]
fn large_index_is_built_quickly() {
    let mut pairs = Vec::new();
    let mut n: u64 = 1;
    for _ in 0..200000 {
        n = n.wrapping_mul(6364136223846793005).wrapping_add(1442695040888963407);
        pairs.push((format!("dir/{:020}", n), format!("{}", n % 97)));
    }
    let index = Index::from_pairs(pairs);
    assert_eq!(index.len(), 200000);
    for i in 1..index.len() {
        assert!(index.key_at(i - 1) < index.key_at(i));
    }
}
