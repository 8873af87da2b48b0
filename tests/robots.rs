use keypad_chain::robots::{proper_mod, quadrant_counts_product, sim_robots, Robot};

#[test]
fn proper_mod_wraps_negatives() {
    assert_eq!(proper_mod(7, 5), 2);
    assert_eq!(proper_mod(-1, 101), 100);
    assert_eq!(proper_mod(-101, 101), 0);
    assert_eq!(proper_mod(-102, 101), 100);
    assert_eq!(proper_mod(i32::MIN, 103), (((i32::MIN as i64) % 103 + 103) % 103) as usize);
}

#[test]
fn update_moves_and_wraps() {
    let mut r = Robot::new((2, 4), (2, -3));
    r.update();
    assert_eq!(r.position(), (4, 1));
    r.update();
    assert_eq!(r.position(), (6, 101));
    let mut edge = Robot::new((100, 102), (1, 1));
    edge.update();
    assert_eq!(edge.position(), (0, 0));
}

#[test]
fn quadrants() {
    assert_eq!(Robot::new((50, 0), (0, 0)).quadrant(), None);
    assert_eq!(Robot::new((0, 51), (0, 0)).quadrant(), None);
    assert_eq!(Robot::new((0, 0), (0, 0)).quadrant(), Some(0));
    assert_eq!(Robot::new((100, 0), (0, 0)).quadrant(), Some(1));
    assert_eq!(Robot::new((0, 102), (0, 0)).quadrant(), Some(2));
    assert_eq!(Robot::new((100, 102), (0, 0)).quadrant(), Some(3));
}

#[test]
fn counts_product() {
    let robots = vec![
        Robot::new((0, 0), (0, 0)),
        Robot::new((1, 1), (0, 0)),
        Robot::new((100, 0), (0, 0)),
        Robot::new((0, 102), (0, 0)),
        Robot::new((100, 102), (0, 0)),
        Robot::new((50, 50), (0, 0)),
    ];
    assert_eq!(quadrant_counts_product(&robots), Some(2));
    assert_eq!(quadrant_counts_product(&robots[..2].to_vec()), Some(0));
    assert_eq!(quadrant_counts_product(&Vec::new()), Some(0));
}

#[test]
fn sim_moves_every_robot() {
    let mut robots = vec![Robot::new((2, 4), (2, -3)), Robot::new((0, 0), (-1, -1))];
    sim_robots(&mut robots);
    assert_eq!(robots[0].position(), (4, 1));
    assert_eq!(robots[1].position(), (100, 102));
}
