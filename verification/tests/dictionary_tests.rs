use cashew::diff::CashewDiff;
use cashew::{CashewError, MerkleDictionary, RadixNode, Transform};

#[test]
fn test_new_dictionary_is_empty() {
    let dict = MerkleDictionary::<String>::new();
    assert!(dict.is_empty());
    assert_eq!(dict.len(), 0);
}

#[test]
fn test_insert_and_get() {
    let dict = MerkleDictionary::<String>::new();
    let dict = dict.inserting("alice", "engineer".to_string()).unwrap();
    assert_eq!(dict.get("alice").unwrap(), Some("engineer".to_string()));
    assert_eq!(dict.len(), 1);
}

#[test]
fn test_insert_multiple() {
    let dict = MerkleDictionary::<String>::new();
    let dict = dict.inserting("alice", "1".to_string()).unwrap();
    let dict = dict.inserting("bob", "2".to_string()).unwrap();
    let dict = dict.inserting("charlie", "3".to_string()).unwrap();
    assert_eq!(dict.len(), 3);
    assert_eq!(dict.get("alice").unwrap(), Some("1".to_string()));
    assert_eq!(dict.get("bob").unwrap(), Some("2".to_string()));
    assert_eq!(dict.get("charlie").unwrap(), Some("3".to_string()));
}

#[test]
fn test_get_missing_key() {
    let dict = MerkleDictionary::<String>::new();
    let dict = dict.inserting("alice", "1".to_string()).unwrap();
    assert_eq!(dict.get("bob").unwrap(), None);
}

#[test]
fn test_insert_shared_prefix() {
    let dict = MerkleDictionary::<String>::new();
    let dict = dict.inserting("apple", "1".to_string()).unwrap();
    let dict = dict.inserting("application", "2".to_string()).unwrap();
    assert_eq!(dict.get("apple").unwrap(), Some("1".to_string()));
    assert_eq!(dict.get("application").unwrap(), Some("2".to_string()));
    assert_eq!(dict.len(), 2);
}

#[test]
fn test_mutating() {
    let dict = MerkleDictionary::<String>::new();
    let dict = dict.inserting("key", "old".to_string()).unwrap();
    let dict = dict.mutating("key", "new".to_string()).unwrap();
    assert_eq!(dict.get("key").unwrap(), Some("new".to_string()));
    assert_eq!(dict.len(), 1);
}

#[test]
fn test_delete() {
    let dict = MerkleDictionary::<String>::new();
    let dict = dict.inserting("a", "1".to_string()).unwrap();
    let dict = dict.inserting("b", "2".to_string()).unwrap();
    let dict = dict.deleting("a").unwrap();
    assert_eq!(dict.get("a").unwrap(), None);
    assert_eq!(dict.get("b").unwrap(), Some("2".to_string()));
    assert_eq!(dict.len(), 1);
}

#[test]
fn test_delete_nonexistent() {
    let dict = MerkleDictionary::<String>::new();
    let dict = dict.inserting("a", "1".to_string()).unwrap();
    let dict = dict.deleting("b").unwrap();
    assert_eq!(dict.len(), 1);
}

#[test]
fn test_all_keys() {
    let dict = MerkleDictionary::<String>::new();
    let dict = dict.inserting("banana", "1".to_string()).unwrap();
    let dict = dict.inserting("apple", "2".to_string()).unwrap();
    let dict = dict.inserting("cherry", "3".to_string()).unwrap();
    let mut keys = dict.all_keys().unwrap();
    keys.sort();
    assert_eq!(keys, vec!["apple", "banana", "cherry"]);
}

#[test]
fn test_sorted_keys() {
    let dict = MerkleDictionary::<String>::new();
    let dict = dict.inserting("cherry", "3".to_string()).unwrap();
    let dict = dict.inserting("apple", "1".to_string()).unwrap();
    let dict = dict.inserting("banana", "2".to_string()).unwrap();
    let keys = dict.sorted_keys(10, None).unwrap();
    assert_eq!(keys, vec!["apple", "banana", "cherry"]);
}

#[test]
fn test_sorted_keys_with_pagination() {
    let dict = MerkleDictionary::<String>::new();
    let dict = dict.inserting("a", "1".to_string()).unwrap();
    let dict = dict.inserting("b", "2".to_string()).unwrap();
    let dict = dict.inserting("c", "3".to_string()).unwrap();
    let dict = dict.inserting("d", "4".to_string()).unwrap();
    let keys = dict.sorted_keys(2, Some("a")).unwrap();
    assert_eq!(keys, vec!["b", "c"]);
}

#[test]
fn test_all_keys_and_values() {
    let dict = MerkleDictionary::<String>::new();
    let dict = dict.inserting("x", "10".to_string()).unwrap();
    let dict = dict.inserting("y", "20".to_string()).unwrap();
    let mut pairs = dict.all_keys_and_values().unwrap();
    pairs.sort_by(|a, b| a.0.cmp(&b.0));
    assert_eq!(
        pairs,
        vec![
            ("x".to_string(), "10".to_string()),
            ("y".to_string(), "20".to_string()),
        ]
    );
}

#[test]
fn dictionary_test_immutability() {
    let dict1 = MerkleDictionary::<String>::new();
    let dict2 = dict1.inserting("key", "value".to_string()).unwrap();
    assert!(dict1.is_empty());
    assert_eq!(dict2.len(), 1);
}

#[test]
fn dictionary_test_serialization_roundtrip() {
    let dict = MerkleDictionary::<String>::new();
    let dict = dict.inserting("alice", "1".to_string()).unwrap();
    let dict = dict.inserting("bob", "2".to_string()).unwrap();
    let data = dict.to_data().unwrap();
    let restored = MerkleDictionary::<String>::from_data(&data).unwrap();
    assert_eq!(restored.len(), dict.len());
}

#[test]
fn test_empty_key_rejected() {
    let dict = MerkleDictionary::<String>::new();
    assert!(dict.inserting("", "value".to_string()).is_err());
}

#[test]
fn test_diff() {
    let old = MerkleDictionary::<String>::new();
    let old = old.inserting("a", "1".to_string()).unwrap();
    let old = old.inserting("b", "2".to_string()).unwrap();

    let new = old.inserting("c", "3".to_string()).unwrap();
    let new = new.deleting("a").unwrap();
    let new = new.mutating("b", "22".to_string()).unwrap();

    let diff = new.diff(&old).unwrap();
    assert!(diff.inserted.contains_key("c"));
    assert!(diff.deleted.contains_key("a"));
    assert!(diff.modified.contains_key("b"));
}

#[test]
fn test_apply_transform() {
    let dict = MerkleDictionary::<String>::new();
    let dict = dict
        .apply_transform("key", &Transform::Insert("val".to_string()))
        .unwrap();
    assert_eq!(dict.get("key").unwrap(), Some("val".to_string()));

    let dict = dict
        .apply_transform("key", &Transform::Update("new".to_string()))
        .unwrap();
    assert_eq!(dict.get("key").unwrap(), Some("new".to_string()));

    let dict = dict.apply_transform("key", &Transform::Delete).unwrap();
    assert_eq!(dict.get("key").unwrap(), None);
}

// ---- further cases ----

#[test]
fn inserting_existing_key_replaces_its_value() {
    let dict = MerkleDictionary::<String>::new();
    let dict = dict.inserting("a", "1".to_string()).unwrap();
    let dict2 = dict.inserting("a", "2".to_string()).unwrap();
    assert_eq!(dict2.get("a").unwrap(), Some("2".to_string()));
    assert_eq!(dict2.len(), 1);
    assert_eq!(dict.get("a").unwrap(), Some("1".to_string()));
    match dict.apply_transform("a", &Transform::Insert("3".to_string())) {
        Err(CashewError::InvalidKey(m)) => assert_eq!(m, "key already exists: a"),
        _ => panic!("expected an invalid key"),
    }
}

#[test]
fn equal_contents_give_equal_bytes() {
    let a = MerkleDictionary::<String>::new()
        .inserting("ab", "1".to_string()).unwrap()
        .inserting("ac", "2".to_string()).unwrap()
        .inserting("b", "3".to_string()).unwrap();
    let b = MerkleDictionary::<String>::new()
        .inserting("b", "3".to_string()).unwrap()
        .inserting("ac", "2".to_string()).unwrap()
        .inserting("x", "9".to_string()).unwrap()
        .inserting("ab", "1".to_string()).unwrap()
        .deleting("x").unwrap();
    assert_eq!(a.to_data().unwrap(), b.to_data().unwrap());
    let c = a.deleting("ab").unwrap();
    let d = MerkleDictionary::<String>::new()
        .inserting("ac", "2".to_string()).unwrap()
        .inserting("b", "3".to_string()).unwrap();
    assert_eq!(c.to_data().unwrap(), d.to_data().unwrap());
}

#[test]
fn empty_key_error_message() {
    let dict = MerkleDictionary::<String>::new();
    match dict.inserting("", "v".to_string()) {
        Err(CashewError::InvalidKey(m)) => assert_eq!(m, "empty key"),
        _ => panic!("expected an invalid key"),
    }
    assert!(matches!(dict.deleting(""), Err(CashewError::InvalidKey(_))));
}

#[test]
fn mutating_missing_key_is_refused() {
    let dict = MerkleDictionary::<String>::new();
    let dict = dict.inserting("a", "1".to_string()).unwrap();
    match dict.mutating("b", "2".to_string()) {
        Err(CashewError::InvalidKey(m)) => assert_eq!(m, "key not found: b"),
        _ => panic!("expected an invalid key"),
    }
}

#[test]
fn keys_split_and_merge_in_the_trie() {
    let mut dict = MerkleDictionary::<String>::new();
    let keys = ["romane", "romanus", "romulus", "rubens", "ruber", "rubicon", "rubicundus", "r"];
    for (i, k) in keys.iter().enumerate() {
        dict = dict.inserting(k, i.to_string()).unwrap();
    }
    assert_eq!(dict.len(), keys.len());
    for (i, k) in keys.iter().enumerate() {
        assert_eq!(dict.get(k).unwrap(), Some(i.to_string()));
    }
    assert_eq!(dict.get("rom").unwrap(), None);
    assert_eq!(dict.get("rubiconx").unwrap(), None);
    let mut sorted: Vec<String> = keys.iter().map(|k| k.to_string()).collect();
    sorted.sort();
    assert_eq!(dict.all_keys().unwrap(), sorted);
    let dict = dict.deleting("rubicon").unwrap().deleting("r").unwrap();
    assert_eq!(dict.get("rubicon").unwrap(), None);
    assert_eq!(dict.get("r").unwrap(), None);
    assert_eq!(dict.get("rubicundus").unwrap(), Some("6".to_string()));
    assert_eq!(dict.len(), keys.len() - 2);
}

#[test]
fn sorted_pairs_with_pagination() {
    let dict = MerkleDictionary::<String>::new();
    let dict = dict.inserting("b", "2".to_string()).unwrap();
    let dict = dict.inserting("a", "1".to_string()).unwrap();
    let dict = dict.inserting("c", "3".to_string()).unwrap();
    let pairs = dict.sorted_keys_and_values(1, Some("a")).unwrap();
    assert_eq!(pairs, vec![("b".to_string(), "2".to_string())]);
    assert_eq!(dict.all_keys().unwrap(), vec!["a", "b", "c"]);
}

#[test]
fn serialization_layout_and_lazy_roundtrip() {
    let dict = MerkleDictionary::<String>::new();
    let dict = dict.inserting("alice", "1".to_string()).unwrap();
    let data = dict.to_data().unwrap();
    let text = String::from_utf8(data.clone()).unwrap();
    assert!(text.starts_with("{\"children\":[{\"key\":\"a\",\"value\":{\"raw_cid\":\""));
    assert!(text.ends_with("}}],\"count\":1}"));
    let restored = MerkleDictionary::<String>::from_data(&data).unwrap();
    assert_eq!(restored.len(), 1);
    assert_eq!(restored.to_data().unwrap(), data);
    assert!(matches!(restored.get("alice"), Err(CashewError::NodeNotAvailable)));
    assert!(matches!(restored.all_keys(), Err(CashewError::NodeNotAvailable)));
}

#[test]
fn from_data_rejects_garbage() {
    assert!(matches!(
        MerkleDictionary::<String>::from_data(b"not json"),
        Err(CashewError::DecodeError(_))
    ));
    assert!(matches!(
        MerkleDictionary::<String>::from_data(&[0xff, 0xfe]),
        Err(CashewError::DecodeError(_))
    ));
}

#[test]
fn apply_transforms_in_order() {
    let dict = MerkleDictionary::<String>::new();
    let ts = vec![
        ("a".to_string(), Transform::Insert("1".to_string())),
        ("b".to_string(), Transform::Insert("2".to_string())),
        ("a".to_string(), Transform::Update("3".to_string())),
        ("b".to_string(), Transform::Delete),
    ];
    let dict = dict.apply_transforms(&ts).unwrap();
    assert_eq!(dict.get("a").unwrap(), Some("3".to_string()));
    assert_eq!(dict.get("b").unwrap(), None);
    assert_eq!(dict.len(), 1);
    let bad = vec![("z".to_string(), Transform::Update("1".to_string()))];
    assert!(matches!(dict.apply_transforms(&bad), Err(CashewError::InvalidKey(_))));
}

#[test]
fn diff_values_and_emptiness() {
    let old = MerkleDictionary::<String>::new();
    let old = old.inserting("k", "v1".to_string()).unwrap();
    let same = old.diff(&old).unwrap();
    assert!(same.is_empty());
    assert_eq!(same.change_count(), 0);
    let new = old.mutating("k", "v2".to_string()).unwrap();
    let d = new.diff(&old).unwrap();
    assert_eq!(d.change_count(), 1);
    let m = d.modified.get("k").unwrap();
    assert_eq!(m.old, "v1");
    assert_eq!(m.new, "v2");
    assert!(m.children.is_none());
    assert!(CashewDiff::new().is_empty());
}

#[test]
fn node_not_available_message() {
    assert_eq!(
        CashewError::NodeNotAvailable.message(),
        "node not available \u{2014} resolve the header first"
    );
    assert_eq!(CashewError::InvalidKey("x".to_string()).message(), "invalid key: x");
}

#[test]
fn display_strings() {
    let dict = MerkleDictionary::<String>::new().inserting("a", "1".to_string()).unwrap();
    assert_eq!(dict.display_string(), "MerkleDictionary(count=1)");
    let set = cashew::MerkleSet::new();
    assert_eq!(set.display_string(), "MerkleSet(count=0)");
    let arr = cashew::MerkleArray::<String>::new().append("x".to_string()).unwrap();
    assert_eq!(arr.display_string(), "MerkleArray(count=1)");
}

#[test]
fn from_entries_sorts_skips_empty_keys_and_keeps_the_last() {
    let entries = vec![
        ("b".to_string(), "cid-b".to_string(), None),
        ("a".to_string(), "cid-a".to_string(), None),
        ("".to_string(), "cid-empty".to_string(), None),
        ("bz".to_string(), "cid-bz".to_string(), None),
    ];
    let d = MerkleDictionary::<String>::from_entries(entries, 2);
    assert_eq!(d.len(), 2);
    let text = String::from_utf8(d.to_data().unwrap()).unwrap();
    assert_eq!(
        text,
        r#"{"children":[{"key":"a","value":{"raw_cid":"cid-a"}},{"key":"b","value":{"raw_cid":"cid-bz"}}],"count":2}"#
    );
    let restored = MerkleDictionary::<String>::from_data(text.as_bytes()).unwrap();
    assert_eq!(restored.to_data().unwrap(), text.into_bytes());
}

#[test]
fn resolving_loads_a_stored_subtree_bottom_up() {
    let d = MerkleDictionary::<String>::new()
        .inserting("apple", "1".to_string())
        .unwrap()
        .inserting("apricot", "2".to_string())
        .unwrap()
        .inserting("banana", "3".to_string())
        .unwrap();
    let lazy = MerkleDictionary::<String>::from_data(&d.to_data().unwrap()).unwrap();
    assert!(matches!(lazy.get("apple"), Err(CashewError::NodeNotAvailable)));

    let loaded_a = d.child('a').unwrap().node.as_ref().unwrap();
    let mut stored_a = RadixNode::from_data(&loaded_a.to_data().unwrap()).unwrap();
    assert!(stored_a.children.iter().all(|(_, h)| h.node.is_none()));
    for (c, h) in loaded_a.children.iter() {
        let leaf = RadixNode::from_data(&h.node.as_ref().unwrap().to_data().unwrap()).unwrap();
        stored_a = stored_a.resolving(*c, leaf).unwrap();
    }
    let resolved = lazy.resolving('a', stored_a).unwrap();
    assert_eq!(resolved.get("apple").unwrap(), Some("1".to_string()));
    assert_eq!(resolved.get("apricot").unwrap(), Some("2".to_string()));
    assert!(matches!(resolved.get("banana"), Err(CashewError::NodeNotAvailable)));
    assert_eq!(resolved.to_data().unwrap(), d.to_data().unwrap());
    let changed = resolved.inserting("avocado", "4".to_string()).unwrap();
    assert_eq!(changed.get("avocado").unwrap(), Some("4".to_string()));
}

#[test]
fn resolving_refuses_a_wrong_or_partial_node() {
    let d = MerkleDictionary::<String>::new()
        .inserting("apple", "1".to_string())
        .unwrap()
        .inserting("apricot", "2".to_string())
        .unwrap()
        .inserting("banana", "3".to_string())
        .unwrap();
    let lazy = MerkleDictionary::<String>::from_data(&d.to_data().unwrap()).unwrap();
    let loaded_b = d.child('b').unwrap().node.as_ref().unwrap().as_ref().clone();
    assert!(matches!(lazy.resolving('a', loaded_b.clone()), Err(CashewError::ResolutionError(_))));
    assert!(matches!(lazy.resolving('z', loaded_b.clone()), Err(CashewError::ResolutionError(_))));
    let loaded_a = d.child('a').unwrap().node.as_ref().unwrap();
    let partial = RadixNode::from_data(&loaded_a.to_data().unwrap()).unwrap();
    assert!(matches!(lazy.resolving('a', partial), Err(CashewError::ResolutionError(_))));
    let ok = lazy.resolving('b', loaded_b).unwrap();
    assert_eq!(ok.get("banana").unwrap(), Some("3".to_string()));
    assert!(matches!(ok.resolving('b', d.child('b').unwrap().node.as_ref().unwrap().as_ref().clone()), Err(CashewError::ResolutionError(_))));
}

#[test]
fn from_data_accepts_any_json_layout_of_the_form() {
    let text = "{ \"count\" : 1 ,\n \"extra\": [1, -2.5e3, true, null, {\"x\": \"y\"}],\n \"children\": [ { \"value\": { \"encryption_info\": null, \"raw_cid\": \"cid-a\" }, \"key\": \"a\" } ] }\n";
    let d = MerkleDictionary::<String>::from_data(text.as_bytes()).unwrap();
    assert_eq!(d.len(), 1);
    assert_eq!(
        String::from_utf8(d.to_data().unwrap()).unwrap(),
        r#"{"children":[{"key":"a","value":{"raw_cid":"cid-a"}}],"count":1}"#
    );
}

#[test]
fn from_data_refuses_duplicate_or_missing_fields() {
    for text in [
        r#"{"children":[],"count":1,"count":2}"#,
        r#"{"children":[]}"#,
        r#"{"children":[],"count":1} x"#,
        r#"{"children":[],"count":01}"#,
        r#"{"children":[{"key":"a"}],"count":1}"#,
    ] {
        assert!(
            matches!(MerkleDictionary::<String>::from_data(text.as_bytes()), Err(CashewError::DecodeError(_))),
            "{}",
            text
        );
    }
}
