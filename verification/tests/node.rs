use radix_trie::RadixNode;

#[test]
fn first_insert_finds_no_previous_value() {
    let mut node = RadixNode::new();
    assert_eq!(node.insert(b"a", 1), None);
}

#[test]
fn overwrite_hands_back_the_previous_value() {
    let mut node = RadixNode::new();
    assert_eq!(node.insert(b"a", 1), None);
    assert_eq!(node.insert(b"a", 2), Some(1));
    assert_eq!(node.insert(b"a", 3), Some(2));
}

#[test]
fn empty_key_is_stored_at_the_node_itself() {
    let mut node = RadixNode::new();
    assert_eq!(node.insert(&[], 42), None);
    assert_eq!(node.insert(&[], 43), Some(42));
    // The value of the empty key is no value of any longer key.
    assert_eq!(node.insert(&[0], 1), None);
    assert_eq!(node.insert(&[], 44), Some(43));
}

#[test]
fn keys_with_a_common_prefix_keep_their_own_values() {
    let mut node = RadixNode::new();
    assert_eq!(node.insert(&[99, 97, 116], 1), None);
    assert_eq!(node.insert(&[99, 97, 114], 2), None);
    // The nodes of the common prefix exist but hold no value.
    assert_eq!(node.insert(&[99, 97], 3), None);
    assert_eq!(node.insert(&[99], 4), None);
    // Both leaves are still there, each with its own value.
    assert_eq!(node.insert(&[99, 97, 116], 5), Some(1));
    assert_eq!(node.insert(&[99, 97, 114], 6), Some(2));
    assert_eq!(node.insert(&[99, 97], 7), Some(3));
    assert_eq!(node.insert(&[99], 8), Some(4));
}

#[test]
fn key_that_extends_a_stored_key() {
    let mut node = RadixNode::new();
    assert_eq!(node.insert(b"ab", "short"), None);
    assert_eq!(node.insert(b"abcd", "long"), None);
    assert_eq!(node.insert(b"abc", "middle"), None);
    assert_eq!(node.insert(b"ab", "x"), Some("short"));
    assert_eq!(node.insert(b"abcd", "y"), Some("long"));
    assert_eq!(node.insert(b"abc", "z"), Some("middle"));
}

#[test]
fn other_first_byte_is_left_alone() {
    let mut node = RadixNode::new();
    assert_eq!(node.insert(b"apple", 1), None);
    assert_eq!(node.insert(b"a", 2), None);
    assert_eq!(node.insert(b"banana", 3), None);
    assert_eq!(node.insert(b"b", 4), None);
    assert_eq!(node.insert(b"bandana", 5), None);
    assert_eq!(node.insert(b"banana", 6), Some(3));
    assert_eq!(node.insert(b"apple", 7), Some(1));
    assert_eq!(node.insert(b"a", 8), Some(2));
    // Nothing has appeared under a first byte that no key started with.
    assert_eq!(node.insert(b"c", 9), None);
    assert_eq!(node.insert(b"capple", 10), None);
}

#[test]
fn order_of_bytes_matters() {
    let mut node = RadixNode::new();
    assert_eq!(node.insert(&[1, 2], 12), None);
    assert_eq!(node.insert(&[2, 1], 21), None);
    assert_eq!(node.insert(&[1, 2], 0), Some(12));
    assert_eq!(node.insert(&[2, 1], 0), Some(21));
}

#[test]
fn extreme_byte_values_use_distinct_slots() {
    let mut node = RadixNode::new();
    assert_eq!(node.insert(&[0], 'a'), None);
    assert_eq!(node.insert(&[255], 'b'), None);
    assert_eq!(node.insert(&[0, 0], 'c'), None);
    assert_eq!(node.insert(&[255, 0], 'd'), None);
    assert_eq!(node.insert(&[0], 'e'), Some('a'));
    assert_eq!(node.insert(&[255], 'f'), Some('b'));
    assert_eq!(node.insert(&[0, 0], 'g'), Some('c'));
    assert_eq!(node.insert(&[255, 0], 'h'), Some('d'));
}

#[test]
fn all_children_of_a_level_start_empty() {
    let mut node = RadixNode::new();
    assert_eq!(node.insert(&[128], 0u32), None);
    for byte in 0..=255u8 {
        let expected = if byte == 128 { Some(0) } else { None };
        assert_eq!(node.insert(&[byte], u32::from(byte) + 1), expected);
    }
    for byte in 0..=255u8 {
        assert_eq!(node.insert(&[byte], 0), Some(u32::from(byte) + 1));
    }
}

#[test]
fn default_node_is_a_new_node() {
    let mut node: RadixNode<String> = RadixNode::default();
    assert_eq!(node.insert(b"", String::from("root")), None);
    assert_eq!(node.insert(b"x", String::from("leaf")), None);
    assert_eq!(node.insert(b"", String::from("again")), Some(String::from("root")));
    assert_eq!(node.insert(b"x", String::from("again")), Some(String::from("leaf")));
}

#[test]
fn deep_key_is_found_again() {
    let mut node = RadixNode::new();
    let key: Vec<u8> = (0..500u32).map(|i| (i % 251) as u8).collect();
    assert_eq!(node.insert(&key, 1u64), None);
    assert_eq!(node.insert(&key[..499], 2u64), None);
    assert_eq!(node.insert(&key, 3u64), Some(1));
    assert_eq!(node.insert(&key[..499], 4u64), Some(2));
}
