use rscmprs::bits::{decode_binary, pack_bits};
use rscmprs::codec::{decode_text, encode_text, CodecError};
use rscmprs::frequency::find_most_occurrences;
use rscmprs::node::Node;
use rscmprs::pipeline::{compress_text, decompress_text};
use rscmprs::tree::make_huffman_tree;

fn leaf(symbol: &str, weight: u64) -> Node {
    Node { left: None, right: None, data: Some(symbol.to_string()), occurrence: weight }
}

fn tree_of(text: &str) -> Node {
    make_huffman_tree(find_most_occurrences(text))
}

fn data_of(node: &Option<Box<Node>>) -> Option<String> {
    node.as_ref().and_then(|n| n.data.clone())
}

#[test]
fn frequencies_of_aaab() {
    let nodes = find_most_occurrences("aaab");
    assert_eq!(nodes.len(), 2);
    assert_eq!(nodes[0].data.as_deref(), Some("b"));
    assert_eq!(nodes[0].occurrence, 1);
    assert_eq!(nodes[1].data.as_deref(), Some("a"));
    assert_eq!(nodes[1].occurrence, 3);
    assert!(nodes.iter().all(|n| n.left.is_none() && n.right.is_none()));
}

#[test]
fn equal_weights_are_ordered_by_code_point() {
    let nodes = find_most_occurrences("cabbac");
    let symbols: Vec<&str> = nodes.iter().map(|n| n.data.as_deref().unwrap()).collect();
    assert_eq!(symbols, vec!["a", "b", "c"]);
    assert!(nodes.iter().all(|n| n.occurrence == 2));
}

#[test]
fn multibyte_characters_are_single_symbols() {
    let nodes = find_most_occurrences("ééa✓");
    let pairs: Vec<(String, u64)> =
        nodes.iter().map(|n| (n.data.clone().unwrap(), n.occurrence)).collect();
    assert_eq!(pairs, vec![("a".to_string(), 1), ("✓".to_string(), 1), ("é".to_string(), 2)]);
}

#[test]
fn no_symbols_for_empty_text() {
    assert!(find_most_occurrences("").is_empty());
}

#[test]
fn add_sums_weights() {
    let merged = Node::add(leaf("x", 2), leaf("y", 5));
    assert_eq!(merged.occurrence, 7);
    assert!(merged.data.is_none());
    assert_eq!(data_of(&merged.left).as_deref(), Some("x"));
    assert_eq!(data_of(&merged.right).as_deref(), Some("y"));
}

#[test]
fn tree_of_aaab_has_two_leaves_under_the_root() {
    let tree = tree_of("aaab");
    assert_eq!(tree.occurrence, 4);
    assert!(tree.data.is_none());
    assert_eq!(data_of(&tree.left).as_deref(), Some("b"));
    assert_eq!(data_of(&tree.right).as_deref(), Some("a"));
}

#[test]
fn merged_node_goes_after_equal_weights() {
    // a:1 and b:1 merge into a node of weight 2, which goes after c:2.
    let tree = tree_of("abcc");
    assert_eq!(tree.occurrence, 4);
    assert_eq!(data_of(&tree.left).as_deref(), Some("c"));
    let right = tree.right.as_ref().unwrap();
    assert_eq!(right.occurrence, 2);
    assert_eq!(data_of(&right.left).as_deref(), Some("a"));
    assert_eq!(data_of(&right.right).as_deref(), Some("b"));
}

#[test]
fn empty_node_list_gives_empty_tree() {
    let tree = make_huffman_tree(Vec::new());
    assert!(tree.left.is_none() && tree.right.is_none() && tree.data.is_none());
    assert_eq!(tree.occurrence, 0);
}

#[test]
fn search_finds_codes_and_restores_path_on_failure() {
    let tree = tree_of("abcc");
    assert_eq!(tree.search("c", &mut Vec::new()), Some(vec![0]));
    assert_eq!(tree.search("a", &mut Vec::new()), Some(vec![1, 0]));
    assert_eq!(tree.search("b", &mut Vec::new()), Some(vec![1, 1]));
    let mut path = vec![1, 1, 0];
    assert_eq!(tree.search("b", &mut path), Some(vec![1, 1, 0, 1, 1]));
    assert_eq!(path, vec![1, 1, 0, 1, 1]);
    let mut path = vec![0, 1];
    assert_eq!(tree.search("z", &mut path), None);
    assert_eq!(path, vec![0, 1]);
}

#[test]
fn every_symbol_of_the_text_has_one_leaf_and_a_code() {
    let text = "mississippi river";
    let tree = tree_of(text);
    for c in text.chars() {
        assert!(tree.search(&c.to_string(), &mut Vec::new()).is_some());
    }
    fn count(node: &Node, s: &str) -> usize {
        let own = usize::from(node.data.as_deref() == Some(s));
        own + node.left.as_ref().map_or(0, |l| count(l, s))
            + node.right.as_ref().map_or(0, |r| count(r, s))
    }
    for c in text.chars() {
        assert_eq!(count(&tree, &c.to_string()), 1);
    }
}

#[test]
fn root_weight_is_symbol_count() {
    let text = "héllo wörld, héllo ✓";
    assert_eq!(tree_of(text).occurrence, text.chars().count() as u64);
}

#[test]
fn encode_aaab() {
    let tree = tree_of("aaab");
    assert_eq!(encode_text("aaab", &tree), Ok("1110".to_string()));
}

#[test]
fn encode_abcc() {
    let tree = tree_of("abcc");
    assert_eq!(encode_text("abcc", &tree), Ok("101100".to_string()));
}

#[test]
fn encode_unknown_symbol_fails() {
    let tree = tree_of("ab");
    assert_eq!(encode_text("abc", &tree), Err(CodecError::SymbolNotEncodable));
}

#[test]
fn pack_pads_last_byte_with_zeros() {
    assert_eq!(pack_bits("1110"), Ok(vec![0b1110_0000]));
    assert_eq!(pack_bits("0001"), Ok(vec![0b0001_0000]));
}

#[test]
fn pack_whole_bytes_most_significant_first() {
    assert_eq!(pack_bits("0000000111111110"), Ok(vec![0x01, 0xFE]));
    assert_eq!(pack_bits("101"), Ok(vec![0b1010_0000]));
    assert_eq!(pack_bits(""), Ok(vec![]));
}

#[test]
fn pack_rejects_other_characters() {
    assert_eq!(pack_bits("01x1"), Err(CodecError::InvalidBitCharacter));
    assert_eq!(pack_bits("2"), Err(CodecError::InvalidBitCharacter));
}

#[test]
fn unpack_bytes_most_significant_first() {
    assert_eq!(decode_binary(&[0xA5]), vec![1, 0, 1, 0, 0, 1, 0, 1]);
    assert_eq!(decode_binary(&[0x01, 0x80]), vec![0, 0, 0, 0, 0, 0, 0, 1, 1, 0, 0, 0, 0, 0, 0, 0]);
    assert!(decode_binary(&[]).is_empty());
}

#[test]
fn decode_walks_the_tree() {
    let tree = tree_of("abcc");
    assert_eq!(decode_text(&[1, 0, 1, 1, 0, 0], &tree), "abcc");
}

#[test]
fn decode_drops_trailing_incomplete_code() {
    let tree = tree_of("abcc");
    assert_eq!(decode_text(&[1, 0, 1, 1, 0, 0, 1], &tree), "abcc");
    assert_eq!(decode_text(&[], &tree), "");
}

#[test]
fn scenario_aaab() {
    let (tree, payload) = compress_text("aaab");
    assert_eq!(tree.occurrence, 4);
    assert_eq!(payload, vec![0b1110_0000]);
    assert_eq!(decompress_text(&payload, &tree), Ok("aaab".to_string()));
}

#[test]
fn padding_does_not_add_symbols() {
    // "aaab" with a on the left: padding zeros would decode to more a's.
    let tree = Node::add(leaf("a", 3), leaf("b", 1));
    assert_eq!(decompress_text(&[0b0001_0000], &tree), Ok("aaab".to_string()));
}

#[test]
fn scenario_empty_text() {
    let (tree, payload) = compress_text("");
    assert!(tree.left.is_none() && tree.right.is_none() && tree.data.is_none());
    assert_eq!(tree.occurrence, 0);
    assert!(payload.is_empty());
    assert_eq!(decompress_text(&payload, &tree), Ok("".to_string()));
}

#[test]
fn scenario_single_symbol() {
    let (tree, payload) = compress_text("zzzz");
    assert!(tree.left.is_none() && tree.right.is_none());
    assert_eq!(tree.data.as_deref(), Some("z"));
    assert_eq!(tree.occurrence, 4);
    assert_eq!(encode_text("zzzz", &tree), Ok(String::new()));
    assert!(payload.is_empty());
    assert_eq!(decompress_text(&payload, &tree), Ok("zzzz".to_string()));
}

#[test]
fn round_trip_of_longer_texts() {
    let texts = [
        "the quick brown fox jumps over the lazy dog",
        "héllo wörld ✓✓ — ünïcödé",
        "ab",
        "abcdefghij\n\t  0123456789",
        "aaaaaaaaaaaaaaaaaaaaaaaaaaaaab",
    ];
    for text in texts {
        let (tree, payload) = compress_text(text);
        assert_eq!(decompress_text(&payload, &tree), Ok(text.to_string()));
    }
}

#[test]
fn well_formed_trees_are_recognised() {
    assert!(tree_of("abcc").is_well_formed());
    assert!(tree_of("zzzz").is_well_formed());
    assert!(!tree_of("").is_well_formed());
    let one_child = Node { left: Some(Box::new(leaf("a", 1))), right: None, data: None, occurrence: 1 };
    assert!(!one_child.is_well_formed());
    let mut wrong_weight = Node::add(leaf("a", 1), leaf("b", 2));
    wrong_weight.occurrence = 4;
    assert!(!wrong_weight.is_well_formed());
    let mut payload_and_children = Node::add(leaf("a", 1), leaf("b", 2));
    payload_and_children.data = Some("c".to_string());
    assert!(!payload_and_children.is_well_formed());
}

#[test]
fn decompress_rejects_malformed_tree() {
    let one_child = Node { left: Some(Box::new(leaf("a", 1))), right: None, data: None, occurrence: 1 };
    assert_eq!(decompress_text(&[0x00], &one_child), Err(CodecError::InvalidTreeShape));
    let no_symbol = Node { left: None, right: None, data: None, occurrence: 3 };
    assert_eq!(decompress_text(&[], &no_symbol), Err(CodecError::InvalidTreeShape));
}
