use radix_trie::RadixTrie;

#[test]
fn new_trie_is_empty() {
    let t: RadixTrie<u32> = RadixTrie::new();
    assert!(t.is_empty());
    assert_eq!(t.len(), 0);
}

#[test]
fn two_keys_with_a_common_prefix_count_two() {
    let mut t = RadixTrie::new();
    t.insert("cat".as_bytes(), 1);
    t.insert("car".as_bytes(), 2);
    assert_eq!(t.len(), 2);
}

#[test]
fn empty_key_is_accepted_and_counted() {
    let mut t = RadixTrie::new();
    assert!(t.is_empty());
    t.insert(&[], 42);
    assert!(!t.is_empty() && t.len() == 1);
}

#[test]
fn repeated_key_is_counted_each_time() {
    let mut t = RadixTrie::new();
    t.insert("a".as_bytes(), 1);
    t.insert("a".as_bytes(), 2);
    assert_eq!(t.len(), 2);
}

#[test]
fn len_equals_number_of_calls() {
    let mut t = RadixTrie::new();
    let keys: [&[u8]; 5] = [b"alpha", b"beta", b"alpha", b"", b"al"];
    let mut calls: usize = 0;
    for round in 0..20u32 {
        for key in keys.iter() {
            t.insert(key, round);
            calls += 1;
            assert_eq!(t.len(), calls);
        }
    }
    assert_eq!(t.len(), 100);
    assert!(!t.is_empty());
}

#[test]
fn every_byte_value_is_a_valid_key() {
    let mut t = RadixTrie::new();
    for byte in 0..=255u8 {
        t.insert(&[byte], byte);
    }
    assert_eq!(t.len(), 256);
    t.insert(&[0, 255, 0, 255], 0);
    t.insert(&[255, 255, 255], 1);
    assert_eq!(t.len(), 258);
}

#[test]
fn key_with_repeated_bytes() {
    let mut t = RadixTrie::new();
    t.insert(&[7, 7, 7, 7], "four");
    t.insert(&[7, 7], "two");
    t.insert(&[7, 7, 7, 7, 7, 7], "six");
    assert_eq!(t.len(), 3);
}

#[test]
fn long_key() {
    let mut t = RadixTrie::new();
    let key = vec![1u8; 300];
    t.insert(&key, 1u8);
    t.insert(&key[..299], 2u8);
    assert_eq!(t.len(), 2);
}

#[test]
fn values_need_not_be_copy() {
    let mut t: RadixTrie<Vec<String>> = RadixTrie::new();
    t.insert(b"k", vec![String::from("one")]);
    t.insert(b"k", vec![String::from("two"), String::from("three")]);
    t.insert(b"", Vec::new());
    assert_eq!(t.len(), 3);
}
