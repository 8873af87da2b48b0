use keypad_chain::locks::{compatible_heights, CharArray, GridError, Patterns};

fn grid(rows: &[&str]) -> CharArray {
    let contents: Vec<u8> = rows.iter().flat_map(|r| r.bytes()).collect();
    CharArray::new(contents, rows[0].len()).unwrap()
}

fn sample() -> Vec<CharArray> {
    vec![
        grid(&["#####", ".####", ".####", ".####", ".#.#.", ".#...", "....."]),
        grid(&["#####", "##.##", ".#.##", "...##", "...#.", "...#.", "....."]),
        grid(&[".....", "#....", "#....", "#...#", "#.#.#", "#.###", "#####"]),
        grid(&[".....", ".....", "#.#..", "###..", "###.#", "###.#", "#####"]),
        grid(&[".....", ".....", ".....", "#....", "#.#..", "#.#.#", "#####"]),
    ]
}

#[test]
fn pin_heights_of_sample() {
    let g = sample();
    assert!(g[0].is_lock() && g[1].is_lock());
    assert!(!g[2].is_lock());
    assert_eq!(g[0].pin_heights(), vec![0, 5, 3, 4, 3]);
    assert_eq!(g[1].pin_heights(), vec![1, 2, 0, 5, 3]);
    assert_eq!(g[2].pin_heights(), vec![5, 0, 2, 1, 3]);
    assert_eq!(g[3].pin_heights(), vec![4, 3, 4, 0, 2]);
    assert_eq!(g[4].pin_heights(), vec![3, 0, 2, 0, 1]);
}

#[test]
fn sample_fitting_pairs() {
    let p = Patterns::new(sample()).unwrap();
    assert_eq!(p.fitting_pairs(), Some(3));
}

#[test]
fn compatibility() {
    assert!(compatible_heights(&vec![0, 5, 3, 4, 3], &vec![3, 0, 2, 0, 1]));
    assert!(!compatible_heights(&vec![0, 5, 3, 4, 3], &vec![5, 0, 2, 1, 3]));
    assert!(compatible_heights(&vec![], &vec![5]));
}

#[test]
fn grid_errors() {
    assert!(matches!(CharArray::new(vec![b'#'; 6], 0), Err(GridError::BadShape)));
    assert!(matches!(CharArray::new(vec![b'#'; 7], 5), Err(GridError::BadShape)));
    let short = CharArray::new(vec![b'#'; 10], 5).unwrap();
    assert!(matches!(Patterns::new(vec![short]), Err(GridError::TooShort)));
}
