use cashew::cid_utils::compute_cid_text;
use cashew::sparse_proof::SparseMerkleProof;
use cashew::{CashewError, EncryptionInfo, Header, RadixHeader, RadixNode};

#[test]
fn test_compute_cid_deterministic() {
    let data = b"hello world";
    let cid1 = compute_cid_text(data).unwrap();
    let cid2 = compute_cid_text(data).unwrap();
    assert_eq!(cid1, cid2);
}

#[test]
fn test_different_data_different_cids() {
    let cid1 = compute_cid_text(b"data1").unwrap();
    let cid2 = compute_cid_text(b"data2").unwrap();
    assert_ne!(cid1, cid2);
}

#[test]
fn cid_text_is_base32_cidv1() {
    let cid = compute_cid_text(b"hello world").unwrap();
    assert!(cid.starts_with("baguqeera"));
}

#[test]
fn node_serialization_layout() {
    let leaf = RadixNode::leaf("abc".to_string(), "v\"1".to_string());
    let text = String::from_utf8(leaf.to_data().unwrap()).unwrap();
    assert_eq!(text, r#"{"prefix":"abc","value":"v\"1","children":[]}"#);
    let empty = RadixNode::empty();
    let text = String::from_utf8(empty.to_data().unwrap()).unwrap();
    assert_eq!(text, r#"{"prefix":"","children":[]}"#);
    assert!(empty.is_empty());
    assert!(!leaf.is_empty());
}

#[test]
fn node_roundtrip_with_children() {
    let child = RadixNode::leaf("x".to_string(), "1".to_string());
    let h = RadixHeader::from_node(child).unwrap();
    let info = EncryptionInfo { key_hash: "kh".to_string(), iv: "iv".to_string() };
    let h2 = RadixHeader::new("cid2".to_string(), None, Some(info));
    let node = RadixNode::new("p".to_string(), None, vec![('x', h), ('y', h2)]);
    assert_eq!(node.properties(), vec!["x", "y"]);
    let data = node.to_data().unwrap();
    let back = RadixNode::from_data(&data).unwrap();
    assert_eq!(back.prefix, "p");
    assert_eq!(back.value, None);
    assert_eq!(back.children.len(), 2);
    assert!(back.children[0].1.node.is_none());
    assert_eq!(back.children[1].1.raw_cid, "cid2");
    assert_eq!(back.children[1].1.encryption_info.as_ref().unwrap().iv, "iv");
    assert_eq!(back.to_data().unwrap(), data);
    assert!(matches!(RadixNode::from_data(b"{}"), Err(CashewError::DecodeError(_))));
}

#[test]
fn header_from_node_and_lazy() {
    let node = RadixNode::leaf("k".to_string(), "v".to_string());
    let data = node.to_data().unwrap();
    let h = RadixHeader::from_node(node).unwrap();
    assert_eq!(h.raw_cid, compute_cid_text(&data).unwrap());
    assert!(h.require_node().is_ok());
    let lazy = h.removing_node();
    assert_eq!(lazy.raw_cid, h.raw_cid);
    assert!(matches!(lazy.require_node(), Err(CashewError::NodeNotAvailable)));
    let l = RadixHeader::lazy("c".to_string());
    assert!(l.node.is_none());
}

#[test]
fn generic_header() {
    let h: Header<u32> = Header::new("cid".to_string(), Some(7), None);
    assert_eq!(*h.require_node().unwrap(), 7);
    let lazy = h.removing_node();
    assert!(matches!(lazy.require_node(), Err(CashewError::NodeNotAvailable)));
    assert_eq!(Header::<u32>::lazy("c".to_string()).raw_cid, "c");
}

#[test]
fn proof_codes() {
    assert_eq!(SparseMerkleProof::Insertion.code(), 1);
    assert_eq!(SparseMerkleProof::Mutation.code(), 2);
    assert_eq!(SparseMerkleProof::Deletion.code(), 3);
    assert_eq!(SparseMerkleProof::Existence.code(), 4);
}

#[test]
fn node_value_with_escapes_reads_back() {
    let leaf = RadixNode::leaf("k\\ey".to_string(), "line\nbreak \"q\" \u{1}".to_string());
    let data = leaf.to_data().unwrap();
    let back = RadixNode::from_data(&data).unwrap();
    assert_eq!(back.prefix, "k\\ey");
    assert_eq!(back.value, Some("line\nbreak \"q\" \u{1}".to_string()));
    assert_eq!(leaf.display_string(), String::from_utf8(data).unwrap());
}

#[test]
fn headers_compare_by_cid() {
    let a = RadixHeader::lazy("same".to_string());
    let b = RadixHeader::from_node(RadixNode::empty()).unwrap();
    let c = RadixHeader::new("same".to_string(), Some(RadixNode::empty()), None);
    assert!(a == c);
    assert!(a != b);
    assert_eq!(b.display_string(), b.raw_cid);
    let h1: Header<u8> = Header::lazy("x".to_string());
    let h2: Header<u8> = Header::new("x".to_string(), Some(1), None);
    assert!(h1 == h2);
    assert_eq!(h1.display_string(), "x");
}

#[test]
fn deleting_merges_a_lone_child() {
    let a = RadixHeader::from_node(RadixNode::leaf("b".to_string(), "1".to_string())).unwrap();
    let c = RadixHeader::from_node(RadixNode::leaf("c".to_string(), "2".to_string())).unwrap();
    let node = RadixNode::new("a".to_string(), None, vec![('b', a), ('c', c)]);
    let h = RadixHeader::from_node(node).unwrap();
    let merged = RadixNode::leaf("ac".to_string(), "2".to_string());
    let dict = cashew::MerkleDictionary::<String>::new()
        .inserting("ab", "1".to_string()).unwrap()
        .inserting("ac", "2".to_string()).unwrap();
    let after = dict.deleting("ab").unwrap();
    let expected = cashew::MerkleDictionary::<String>::new()
        .inserting("ac", "2".to_string()).unwrap();
    assert_eq!(after.to_data().unwrap(), expected.to_data().unwrap());
    let text = String::from_utf8(after.to_data().unwrap()).unwrap();
    assert!(text.contains(&RadixHeader::from_node(merged).unwrap().raw_cid));
    assert!(h.require_node().is_ok());
}

#[test]
fn node_from_entries_keys_children_by_first_character() {
    let enc = EncryptionInfo { key_hash: "kh".to_string(), iv: "iv".to_string() };
    let entries = vec![
        ("zeta".to_string(), "cid-z".to_string(), Some(enc)),
        ("alpha".to_string(), "cid-a1".to_string(), None),
        ("".to_string(), "cid-skipped".to_string(), None),
        ("another".to_string(), "cid-a2".to_string(), None),
    ];
    let n = RadixNode::from_entries("p".to_string(), Some("v".to_string()), entries);
    assert_eq!(n.children.len(), 2);
    assert_eq!(n.children[0].0, 'a');
    assert_eq!(n.children[1].0, 'z');
    assert!(n.children.iter().all(|(_, h)| h.node.is_none()));
    let text = String::from_utf8(n.to_data().unwrap()).unwrap();
    assert_eq!(
        text,
        r#"{"prefix":"p","value":"v","children":[{"key":"a","value":{"raw_cid":"cid-a2"}},{"key":"z","value":{"raw_cid":"cid-z","encryption_info":{"key_hash":"kh","iv":"iv"}}}]}"#
    );
}

#[test]
fn cid_text_parses_back_to_its_parts() {
    let text = compute_cid_text(b"hello world").unwrap();
    let parsed = cashew::cid_utils::cid_from_string(&text).unwrap();
    assert_eq!(parsed.version, 1);
    assert_eq!(parsed.codec, 0x0129);
    assert_eq!(parsed.multihash.len(), 34);
    assert_eq!(&parsed.multihash[..2], &[0x12, 0x20]);
    let computed = cashew::cid_utils::compute_cid(b"hello world").unwrap();
    assert_eq!(computed, parsed);
}

#[test]
fn cid_from_string_rejects_garbage() {
    let r = cashew::cid_utils::cid_from_string("not a cid");
    assert!(matches!(r, Err(CashewError::CidCreationFailed(_))));
}

#[test]
fn node_from_data_accepts_reordered_fields_and_whitespace() {
    let text = r#" { "children" : [ {"key":"b","value":{"raw_cid":"cid-b","encryption_info":{"iv":"i","key_hash":"k"}}} ], "value" : null , "prefix" : "p" } "#;
    let n = RadixNode::from_data(text.as_bytes()).unwrap();
    assert_eq!(n.prefix, "p");
    assert!(n.value.is_none());
    assert_eq!(
        String::from_utf8(n.to_data().unwrap()).unwrap(),
        r#"{"prefix":"p","children":[{"key":"b","value":{"raw_cid":"cid-b","encryption_info":{"key_hash":"k","iv":"i"}}}]}"#
    );
    assert!(matches!(RadixNode::from_data(br#"{"prefix":"p"}"#), Err(CashewError::DecodeError(_))));
}

#[test]
fn cid_multihash_carries_the_sha256_digest() {
    let c = cashew::cid_utils::compute_cid(b"hello world").unwrap();
    let hex: String = c.multihash[2..].iter().map(|b| format!("{:02x}", b)).collect();
    assert_eq!(hex, "b94d27b9934d3e08a52e52d7da7dabfac484efe37a5380ee9088f7ace2efcde9");
}
