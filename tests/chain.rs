use keypad_chain::chain::{complexities, complexity_totals, Chain};
use keypad_chain::code::{Code, CodeError};

fn code(text: &str) -> Code {
    Code::new(text).unwrap()
}

fn sample() -> Vec<Code> {
    vec![code("029A"), code("980A"), code("179A"), code("456A"), code("379A")]
}

#[test]
fn code_029a_shallow() {
    let c = code("029A");
    let mut chain = Chain::new();
    assert_eq!(c.num_part(), 29);
    assert_eq!(chain.chain_length(&c, 2), Some(68));
    assert_eq!(complexities(&vec![code("029A")], 2), Some(1972));
}

#[test]
fn code_980a_shallow() {
    let c = code("980A");
    let mut chain = Chain::new();
    assert_eq!(c.num_part(), 980);
    assert_eq!(chain.chain_length(&c, 2), Some(60));
    assert_eq!(complexities(&vec![code("980A")], 2), Some(58800));
}

#[test]
fn sample_batch_shallow() {
    assert_eq!(complexities(&sample(), 2), Some(126384));
}

#[test]
fn sample_chain_lengths_shallow() {
    let mut chain = Chain::new();
    let expected = [68u64, 60, 68, 64, 64];
    for (c, e) in sample().iter().zip(expected.iter()) {
        assert_eq!(chain.chain_length(c, 2), Some(*e));
    }
}

#[test]
fn deep_pass_grows_and_reuses_memo() {
    let codes = sample();
    let mut chain = Chain::new();
    let shallow: Vec<u64> = codes.iter().map(|c| chain.chain_length(c, 2).unwrap()).collect();
    let hits_before = chain.hits();
    let deep: Vec<u64> = codes.iter().map(|c| chain.chain_length(c, 25).unwrap()).collect();
    assert!(chain.hits() > hits_before);
    for (s, d) in shallow.iter().zip(deep.iter()) {
        assert!(d > s);
    }
}

#[test]
fn totals_share_one_memo() {
    let codes = sample();
    let (shallow, deep) = complexity_totals(&codes, 2, 25);
    assert_eq!(shallow, Some(126384));
    assert_eq!(deep, complexities(&codes, 25));
    assert_eq!(deep, Some(154115708116294));
    assert!(deep.unwrap() > shallow.unwrap());
}

#[test]
fn depth_zero_counts_numeric_presses() {
    // "029A" typed straight on the first directional keypad: <A ^A >^^A vvvA
    let mut chain = Chain::new();
    assert_eq!(chain.chain_length(&code("029A"), 0), Some(12));
}

#[test]
fn depth_one_chain_length() {
    let mut chain = Chain::new();
    assert_eq!(chain.chain_length(&code("029A"), 1), Some(28));
}

#[test]
fn empty_code_list_totals_zero() {
    assert_eq!(complexities(&Vec::new(), 2), Some(0));
}

#[test]
fn zero_valued_code_contributes_nothing() {
    assert_eq!(complexities(&vec![code("000A")], 2), Some(0));
}

#[test]
fn code_rejects_unknown_key() {
    assert!(matches!(Code::new("02xA"), Err(CodeError::UnknownKey)));
    assert!(matches!(Code::new("0<9A"), Err(CodeError::UnknownKey)));
}

#[test]
fn code_rejects_value_too_large() {
    assert!(matches!(Code::new("99999999999999999999A"), Err(CodeError::ValueTooLarge)));
    assert_eq!(Code::new("18446744073709551615A").unwrap().num_part(), u64::MAX);
}

#[test]
fn num_part_skips_activation() {
    assert_eq!(code("179A").num_part(), 179);
    assert_eq!(code("A").num_part(), 0);
    assert_eq!(code("0A").num_part(), 0);
}

#[test]
fn code_from_keys_matches_text() {
    let c = Code::from_keys(vec!['4', '5', '6', 'A']).unwrap();
    assert_eq!(c.keys(), &vec!['4', '5', '6', 'A']);
    assert_eq!(c.num_part(), 456);
}
