use keypad_chain::towels::{char_to_index, Node, TowelError, Towels};

fn bytes(list: &[&str]) -> Vec<Vec<u8>> {
    list.iter().map(|s| s.as_bytes().to_vec()).collect()
}

#[test]
fn sample_designs() {
    let towels = Towels::new(
        bytes(&["r", "wr", "b", "g", "bwu", "rb", "gb", "br"]),
        bytes(&["brwrr", "bggr", "gbbr", "rrbgbr", "ubwu", "bwurrg", "brgr", "bbrgwb"]),
    )
    .unwrap();
    assert_eq!(towels.walk_trie(), (6, Some(16)));
}

#[test]
fn single_design_ways() {
    let towels = Towels::new(bytes(&["r", "wr", "b", "g", "bwu", "rb", "gb", "br"]), bytes(&["rrbgbr"])).unwrap();
    assert_eq!(towels.walk_trie(), (1, Some(6)));
    let none = Towels::new(bytes(&["r"]), bytes(&["ubwu", ""])).unwrap();
    assert_eq!(none.walk_trie(), (1, Some(1)));
}

#[test]
fn towels_reject_unknown_stripes() {
    assert!(matches!(Towels::new(bytes(&["rx"]), bytes(&["r"])), Err(TowelError::UnknownStripe)));
    assert!(matches!(Towels::new(bytes(&["r"]), bytes(&["ra"])), Err(TowelError::UnknownStripe)));
}

#[test]
fn stripe_indices() {
    assert_eq!(char_to_index(b'u'), 0);
    assert_eq!(char_to_index(b'b'), 1);
    assert_eq!(char_to_index(b'w'), 2);
    assert_eq!(char_to_index(b'r'), 3);
    assert_eq!(char_to_index(b'g'), 4);
    let _node = Node::new();
}
