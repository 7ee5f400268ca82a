use my_algo::binary_tree::coding_tree::{char_count, HuffmanCodingTree};

#[test]
fn coding_tree_test_encoding() {
    let s = String::from("hello, world!");
    let encoding_tree = HuffmanCodingTree::new(&s).unwrap();
    println!("{:?}", encoding_tree.encoded());
    assert_eq!(s, encoding_tree.decode());
}

#[test]
fn char_count_lists_characters_in_order() {
    let table = char_count("hello");
    assert_eq!(table, vec![('e', 1), ('h', 1), ('l', 2), ('o', 1)]);
    assert_eq!(char_count(""), vec![]);
}

#[test]
fn huffman_empty_text_has_no_tree() {
    assert!(HuffmanCodingTree::new("").is_none());
}

#[test]
fn huffman_code_length_and_bytes() {
    // two characters: each gets a one-bit code
    let tree = HuffmanCodingTree::new("abab").unwrap();
    let (bytes, len) = tree.encoded();
    assert_eq!(len, 4);
    assert_eq!(bytes.len(), 1);
    assert_eq!(tree.decode(), "abab");
}

#[test]
fn huffman_roundtrip_unicode() {
    let s = "汉字 and ascii, 汉字汉字!";
    let tree = HuffmanCodingTree::new(s).unwrap();
    let (bytes, len) = tree.encoded();
    assert!(len <= bytes.len() * 8);
    assert_eq!(tree.decode(), s);
}

#[test]
fn huffman_hello_world_is_optimal() {
    // counts: 'l' 3, 'o' 2, eight characters once: the least total code length is 42 bits
    let tree = HuffmanCodingTree::new("hello, world!").unwrap();
    let (bytes, len) = tree.encoded();
    assert_eq!(len, 42);
    assert_eq!(bytes.len(), 6);
    // the six bits after the code in the last byte are zero
    assert_eq!(bytes[5] & 0x3f, 0);
    assert_eq!(tree.decode(), "hello, world!");
}
