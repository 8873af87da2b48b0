use keypad_chain::keypad::{Keypad, LayoutError};
use keypad_chain::moves::MoveTable;

fn chars(s: &str) -> Vec<char> {
    s.chars().collect()
}

fn strings(v: &Vec<Vec<char>>) -> Vec<String> {
    v.iter().map(|m| m.iter().collect()).collect()
}

const NUMERIC_KEYS: &str = "0123456789A";
const DIRECTIONAL_KEYS: &str = "^v<>A";

fn check_table(t: &MoveTable, keys: &str) {
    for s in keys.chars() {
        for d in keys.chars() {
            let ms = t.lookup(s, d);
            assert!(!ms.is_empty() && ms.len() <= 2);
            for m in ms {
                assert_eq!(m.last(), Some(&'A'));
                assert_eq!(m.iter().filter(|&&c| c == 'A').count(), 1);
            }
            if s == d {
                assert_eq!(ms, &vec![vec!['A']]);
            }
        }
    }
}

#[test]
fn numeric_table_candidates() {
    check_table(&MoveTable::build(Keypad::numeric()), NUMERIC_KEYS);
}

#[test]
fn directional_table_candidates() {
    check_table(&MoveTable::build(Keypad::directional()), DIRECTIONAL_KEYS);
}

#[test]
fn numeric_moves_avoid_gap() {
    let t = MoveTable::build(Keypad::numeric());
    // from A to 1 the vertical-first move would turn on the gap
    assert_eq!(strings(t.lookup('A', '1')), vec!["^<<A"]);
    assert_eq!(strings(t.lookup('0', '7')), vec!["^^^<A"]);
    assert_eq!(strings(t.lookup('7', '0')), vec![">vvvA"]);
    assert_eq!(strings(t.lookup('2', '9')), vec!["^^>A", ">^^A"]);
    assert_eq!(strings(t.lookup('A', '0')), vec!["<A"]);
}

#[test]
fn directional_moves_avoid_gap() {
    let t = MoveTable::build(Keypad::directional());
    assert_eq!(strings(t.lookup('A', '<')), vec!["v<<A"]);
    assert_eq!(strings(t.lookup('<', '^')), vec![">^A"]);
    assert_eq!(strings(t.lookup('A', 'v')), vec!["v<A", "<vA"]);
}

#[test]
fn layout_errors() {
    assert!(matches!(Keypad::new(chars("x12"), 0), Err(LayoutError::BadShape)));
    assert!(matches!(Keypad::new(chars("x123"), 3), Err(LayoutError::BadShape)));
    assert!(matches!(Keypad::new(chars("123456"), 3), Err(LayoutError::NoGap)));
    assert!(matches!(Keypad::new(chars("x23x56"), 3), Err(LayoutError::ManyGaps)));
    let k = Keypad::new(chars("x^A<v>"), 3).unwrap();
    assert_eq!(k.gap_coords(), (0, 0));
    assert_eq!(k.height(), 2);
}

#[test]
fn keypad_lookups() {
    let k = Keypad::numeric();
    assert_eq!(k.len(), 12);
    assert_eq!(k.width(), 3);
    assert_eq!(k.height(), 4);
    assert_eq!(k.gap_index(), 9);
    assert_eq!(k.gap_coords(), (3, 0));
    assert_eq!(k.cell(10), '0');
    assert_eq!(k.cell_at(0, 2), Some('9'));
    assert_eq!(k.cell_at(3, 3), None);
    assert_eq!(k.cell_at(4, 0), None);
    assert_eq!(k.position_of('5'), Some(4));
    assert_eq!(k.position_of('x'), None);
    assert_eq!(k.position_of('<'), None);
}
