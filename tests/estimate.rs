use keypad_chain::estimate::{estimate, Memo};
use keypad_chain::expand::{expand, split_runs};
use keypad_chain::keypad::Keypad;
use keypad_chain::moves::MoveTable;

fn dir_table() -> MoveTable {
    MoveTable::build(Keypad::directional())
}

fn chars(s: &str) -> Vec<char> {
    s.chars().collect()
}

#[test]
fn depth_zero_is_length() {
    let t = dir_table();
    let mut memo = Memo::new();
    for run in ["A", "<A", "v<<A", ">>^A", "^>A"] {
        assert_eq!(estimate(&chars(run), 0, &t, &mut memo), Some(run.chars().count() as u64));
    }
}

#[test]
fn depth_one_values() {
    let t = dir_table();
    let mut memo = Memo::new();
    // "<A": from A to < is v<<A (4), back to A is >>^A (4)
    assert_eq!(estimate(&chars("<A"), 1, &t, &mut memo), Some(8));
    assert_eq!(estimate(&chars("A"), 1, &t, &mut memo), Some(1));
    assert_eq!(estimate(&chars("^A"), 1, &t, &mut memo), Some(4));
}

#[test]
fn estimate_is_monotone_in_depth() {
    let t = dir_table();
    let mut memo = Memo::new();
    for run in ["A", "<A", "v<<A", ">>^A", "^>A", "<vA"] {
        let mut last = 0u64;
        for d in 0..8 {
            let c = estimate(&chars(run), d, &t, &mut memo).unwrap();
            assert!(c >= last);
            last = c;
        }
    }
}

#[test]
fn estimate_twice_gives_same_and_hits_memo() {
    let t = dir_table();
    let mut memo = Memo::new();
    let first = estimate(&chars("v<<A"), 3, &t, &mut memo);
    let size = memo.len();
    let hits = memo.hits();
    let second = estimate(&chars("v<<A"), 3, &t, &mut memo);
    assert_eq!(first, second);
    assert_eq!(memo.len(), size);
    assert_eq!(memo.hits(), hits + 1);
}

#[test]
fn memo_lookup_and_insert() {
    let mut memo = Memo::new();
    assert_eq!(memo.lookup(&chars("<A"), 0), None);
    memo.insert(&chars("<A"), 0, 2);
    assert_eq!(memo.lookup(&chars("<A"), 0), Some(2));
    assert_eq!(memo.lookup(&chars("<A"), 1), None);
    assert_eq!(memo.hits(), 1);
    assert_eq!(memo.len(), 1);
}

#[test]
fn expand_branches_on_two_candidates() {
    let t = MoveTable::build(Keypad::numeric());
    let exps = expand(&chars("029A"), &t);
    let got: Vec<String> = exps.iter().map(|e| e.iter().collect()).collect();
    assert_eq!(got, vec!["<A^A^^>AvvvA".to_string(), "<A^A>^^AvvvA".to_string()]);
}

#[test]
fn expand_empty_keys() {
    let t = dir_table();
    let exps = expand(&Vec::new(), &t);
    assert_eq!(exps, vec![Vec::<char>::new()]);
}

#[test]
fn split_runs_cuts_at_presses() {
    let runs = split_runs(&chars("<A^A>^^AvvvA"));
    let got: Vec<String> = runs.iter().map(|r| r.iter().collect()).collect();
    assert_eq!(got, vec!["<A", "^A", ">^^A", "vvvA"]);
    assert!(split_runs(&Vec::new()).is_empty());
    assert_eq!(split_runs(&chars("AA")), vec![vec!['A'], vec!['A']]);
}
