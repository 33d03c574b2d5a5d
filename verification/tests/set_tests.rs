use cashew::{CashewError, MerkleSet};

#[test]
fn test_new_set_is_empty() {
    let set = MerkleSet::new();
    assert!(set.is_empty());
    assert_eq!(set.len(), 0);
}

#[test]
fn test_insert_and_contains() {
    let set = MerkleSet::new();
    let set = set.insert("alice").unwrap();
    let set = set.insert("bob").unwrap();
    assert!(set.contains("alice").unwrap());
    assert!(set.contains("bob").unwrap());
    assert!(!set.contains("charlie").unwrap());
    assert_eq!(set.len(), 2);
}

#[test]
fn test_remove() {
    let set = MerkleSet::new();
    let set = set.insert("a").unwrap();
    let set = set.insert("b").unwrap();
    let set = set.remove("a").unwrap();
    assert!(!set.contains("a").unwrap());
    assert!(set.contains("b").unwrap());
    assert_eq!(set.len(), 1);
}

#[test]
fn test_members() {
    let set = MerkleSet::new();
    let set = set.insert("cherry").unwrap();
    let set = set.insert("apple").unwrap();
    let set = set.insert("banana").unwrap();
    let mut members = set.members().unwrap();
    members.sort();
    assert_eq!(members, vec!["apple", "banana", "cherry"]);
}

#[test]
fn test_union() {
    let a = MerkleSet::new();
    let a = a.insert("x").unwrap();
    let a = a.insert("y").unwrap();
    let b = MerkleSet::new();
    let b = b.insert("y").unwrap();
    let b = b.insert("z").unwrap();
    let u = a.union(&b).unwrap();
    assert_eq!(u.len(), 3);
    assert!(u.contains("x").unwrap());
    assert!(u.contains("y").unwrap());
    assert!(u.contains("z").unwrap());
}

#[test]
fn test_intersection() {
    let a = MerkleSet::new();
    let a = a.insert("x").unwrap();
    let a = a.insert("y").unwrap();
    let b = MerkleSet::new();
    let b = b.insert("y").unwrap();
    let b = b.insert("z").unwrap();
    let i = a.intersection(&b).unwrap();
    assert_eq!(i.len(), 1);
    assert!(i.contains("y").unwrap());
}

#[test]
fn test_subtracting() {
    let a = MerkleSet::new();
    let a = a.insert("x").unwrap();
    let a = a.insert("y").unwrap();
    let b = MerkleSet::new();
    let b = b.insert("y").unwrap();
    let diff = a.subtracting(&b).unwrap();
    assert_eq!(diff.len(), 1);
    assert!(diff.contains("x").unwrap());
}

#[test]
fn test_symmetric_difference() {
    let a = MerkleSet::new();
    let a = a.insert("x").unwrap();
    let a = a.insert("y").unwrap();
    let b = MerkleSet::new();
    let b = b.insert("y").unwrap();
    let b = b.insert("z").unwrap();
    let sd = a.symmetric_difference(&b).unwrap();
    assert_eq!(sd.len(), 2);
    assert!(sd.contains("x").unwrap());
    assert!(sd.contains("z").unwrap());
    assert!(!sd.contains("y").unwrap());
}

#[test]
fn set_test_serialization_roundtrip() {
    let set = MerkleSet::new();
    let set = set.insert("alice").unwrap();
    let set = set.insert("bob").unwrap();
    let data = set.to_data().unwrap();
    let restored = MerkleSet::from_data(&data).unwrap();
    assert_eq!(restored.len(), 2);
}

#[test]
fn set_test_immutability() {
    let s1 = MerkleSet::new();
    let s2 = s1.insert("x").unwrap();
    assert!(s1.is_empty());
    assert_eq!(s2.len(), 1);
}

// ---- further cases ----

#[test]
fn set_operations_on_disjoint_and_empty_sets() {
    let a = MerkleSet::new().insert("p").unwrap().insert("q").unwrap();
    let b = MerkleSet::new().insert("r").unwrap();
    let empty = MerkleSet::new();
    assert_eq!(a.union(&empty).unwrap().len(), 2);
    assert_eq!(empty.union(&a).unwrap().len(), 2);
    assert!(a.intersection(&b).unwrap().is_empty());
    assert_eq!(a.subtracting(&b).unwrap().len(), 2);
    assert_eq!(a.subtracting(&a).unwrap().len(), 0);
    assert_eq!(a.symmetric_difference(&a).unwrap().len(), 0);
    let sd = a.symmetric_difference(&b).unwrap();
    assert_eq!(sd.sorted_members().unwrap(), vec!["p", "q", "r"]);
}

#[test]
fn set_insert_twice_keeps_one_member() {
    let a = MerkleSet::new().insert("p").unwrap();
    assert_eq!(a.insert("p").unwrap().len(), 1);
    assert!(matches!(a.insert(""), Err(CashewError::InvalidKey(_))));
    assert_eq!(a.remove("zzz").unwrap().len(), 1);
}

#[test]
fn set_operations_need_loaded_nodes() {
    let a = MerkleSet::new().insert("p").unwrap();
    let lazy = MerkleSet::from_data(&a.to_data().unwrap()).unwrap();
    assert!(matches!(lazy.contains("p"), Err(CashewError::NodeNotAvailable)));
    assert!(matches!(a.union(&lazy), Err(CashewError::NodeNotAvailable)));
    assert!(matches!(lazy.intersection(&a), Err(CashewError::NodeNotAvailable)));
    assert!(matches!(lazy.symmetric_difference(&a), Err(CashewError::NodeNotAvailable)));
    assert_eq!(a.as_dictionary().len(), 1);
}
