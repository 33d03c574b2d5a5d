use cashew::{CashewError, MerkleArray};

#[test]
fn test_new_array_is_empty() {
    let arr = MerkleArray::<String>::new();
    assert!(arr.is_empty());
    assert_eq!(arr.len(), 0);
}

#[test]
fn test_append_and_get() {
    let arr = MerkleArray::<String>::new();
    let arr = arr.append("first".to_string()).unwrap();
    let arr = arr.append("second".to_string()).unwrap();
    assert_eq!(arr.get_at(0).unwrap(), Some("first".to_string()));
    assert_eq!(arr.get_at(1).unwrap(), Some("second".to_string()));
    assert_eq!(arr.len(), 2);
}

#[test]
fn test_first_and_last() {
    let arr = MerkleArray::<String>::new();
    assert_eq!(arr.first().unwrap(), None);
    assert_eq!(arr.last().unwrap(), None);

    let arr = arr.append("a".to_string()).unwrap();
    let arr = arr.append("b".to_string()).unwrap();
    let arr = arr.append("c".to_string()).unwrap();
    assert_eq!(arr.first().unwrap(), Some("a".to_string()));
    assert_eq!(arr.last().unwrap(), Some("c".to_string()));
}

#[test]
fn test_append_all() {
    let arr1 = MerkleArray::<String>::new();
    let arr1 = arr1.append("a".to_string()).unwrap();
    let arr2 = MerkleArray::<String>::new();
    let arr2 = arr2.append("b".to_string()).unwrap();
    let arr2 = arr2.append("c".to_string()).unwrap();

    let merged = arr1.append_all(&arr2).unwrap();
    assert_eq!(merged.len(), 3);
    assert_eq!(merged.get_at(0).unwrap(), Some("a".to_string()));
    assert_eq!(merged.get_at(1).unwrap(), Some("b".to_string()));
    assert_eq!(merged.get_at(2).unwrap(), Some("c".to_string()));
}

#[test]
fn test_binary_key_ordering() {
    let k0 = MerkleArray::<String>::binary_key(0);
    let k1 = MerkleArray::<String>::binary_key(1);
    let k100 = MerkleArray::<String>::binary_key(100);
    assert!(k0 < k1);
    assert!(k1 < k100);
    assert_eq!(k0.len(), 256);
}

#[test]
fn array_test_immutability() {
    let arr1 = MerkleArray::<String>::new();
    let arr2 = arr1.append("x".to_string()).unwrap();
    assert!(arr1.is_empty());
    assert_eq!(arr2.len(), 1);
}

#[test]
fn array_test_serialization_roundtrip() {
    let arr = MerkleArray::<String>::new();
    let arr = arr.append("hello".to_string()).unwrap();
    let arr = arr.append("world".to_string()).unwrap();
    let data = arr.to_data().unwrap();
    let restored = MerkleArray::<String>::from_data(&data).unwrap();
    assert_eq!(restored.len(), 2);
}

// ---- further cases ----

#[test]
fn binary_key_digits() {
    let k5 = MerkleArray::<String>::binary_key(5);
    assert_eq!(k5.len(), 256);
    assert!(k5.ends_with("101"));
    assert!(k5[..253].chars().all(|c| c == '0'));
    let kmax = MerkleArray::<String>::binary_key(usize::MAX);
    assert!(kmax.ends_with(&"1".repeat(usize::BITS as usize)));
    assert!(MerkleArray::<String>::binary_key(usize::MAX - 1) < kmax);
}

#[test]
fn get_past_the_end_is_none() {
    let arr = MerkleArray::<String>::new().append("a".to_string()).unwrap();
    assert_eq!(arr.get_at(1).unwrap(), None);
    assert_eq!(arr.get_at(1000).unwrap(), None);
}

#[test]
fn append_all_of_empty_and_into_empty() {
    let empty = MerkleArray::<String>::new();
    let arr = empty.append("a".to_string()).unwrap();
    assert_eq!(arr.append_all(&empty).unwrap().len(), 1);
    let merged = empty.append_all(&arr).unwrap();
    assert_eq!(merged.len(), 1);
    assert_eq!(merged.get_at(0).unwrap(), Some("a".to_string()));
}

#[test]
fn lazy_array_cannot_be_read() {
    let arr = MerkleArray::<String>::new().append("a".to_string()).unwrap();
    let lazy = MerkleArray::<String>::from_data(&arr.to_data().unwrap()).unwrap();
    assert!(matches!(lazy.get_at(0), Err(CashewError::NodeNotAvailable)));
    assert!(matches!(lazy.first(), Err(CashewError::NodeNotAvailable)));
    assert!(matches!(arr.append_all(&lazy), Err(CashewError::NodeNotAvailable)));
    assert_eq!(arr.as_dictionary().len(), 1);
}
