//! Robots that move in straight lines on a grid that wraps around at its
//! edges, and the counts of robots in each quadrant of the grid.
use vstd::prelude::*;
use vstd::arithmetic::div_mod::{lemma_add_mod_noop, lemma_fundamental_div_mod, lemma_fundamental_div_mod_converse};

verus! {

/// Columns of the robots' grid.
pub const GRID_WIDTH: usize = 101;

/// Rows of the robots' grid.
pub const GRID_HEIGHT: usize = 103;

/// The middle column, which belongs to no quadrant.
pub const MIDDLE_X: usize = GRID_WIDTH / 2;

/// The middle row, which belongs to no quadrant.
pub const MIDDLE_Y: usize = GRID_HEIGHT / 2;

/// Where a robot at `p` with velocity `v` stands one second later.
pub open spec fn stepped(p: (nat, nat), v: (int, int)) -> (nat, nat) {
    (
        ((p.0 + v.0) % (GRID_WIDTH as int)) as nat,
        ((p.1 + v.1) % (GRID_HEIGHT as int)) as nat,
    )
}

/// The quadrant of position `p`: 0 top left, 1 top right, 2 bottom left,
/// 3 bottom right; none on the middle row or column.
pub open spec fn quadrant_of(p: (nat, nat)) -> Option<usize> {
    if p.0 == MIDDLE_X || p.1 == MIDDLE_Y {
        None
    } else if p.0 < MIDDLE_X && p.1 < MIDDLE_Y {
        Some(0)
    } else if p.0 > MIDDLE_X && p.1 > MIDDLE_Y {
        Some(3)
    } else if p.0 > MIDDLE_X {
        Some(1)
    } else {
        Some(2)
    }
}

/// A robot: its position (column, row) and its velocity per second.
#[derive(Clone, Copy)]
pub struct Robot {
    position: (usize, usize),
    velocity: (i32, i32),
}

impl Robot {
    pub closed spec fn pos(&self) -> (nat, nat) {
        (self.position.0 as nat, self.position.1 as nat)
    }

    pub closed spec fn vel(&self) -> (int, int) {
        (self.velocity.0 as int, self.velocity.1 as int)
    }

    pub fn new(position: (usize, usize), velocity: (i32, i32)) -> (r: Robot)
        ensures
            r.pos() == (position.0 as nat, position.1 as nat),
            r.vel() == (velocity.0 as int, velocity.1 as int),
    {
        Robot { position, velocity }
    }

    pub fn position(&self) -> (r: (usize, usize))
        ensures
            (r.0 as nat, r.1 as nat) == self.pos(),
    {
        self.position
    }

    /// Moves the robot by one second, wrapping around the grid's edges.
    pub fn update(&mut self)
        ensures
            final(self).pos() == stepped(old(self).pos(), old(self).vel()),
            final(self).vel() == old(self).vel(),
    {
        let (x, y) = self.position;
        let (dx, dy) = self.velocity;
        let nx = (x % GRID_WIDTH + proper_mod(dx, GRID_WIDTH)) % GRID_WIDTH;
        let ny = (y % GRID_HEIGHT + proper_mod(dy, GRID_HEIGHT)) % GRID_HEIGHT;
        proof {
            lemma_add_mod_noop(x as int, dx as int, GRID_WIDTH as int);
            lemma_add_mod_noop(y as int, dy as int, GRID_HEIGHT as int);
        }
        self.position = (nx, ny);
    }

    /// The quadrant that the robot stands in, if any.
    pub fn quadrant(&self) -> (r: Option<usize>)
        ensures
            r == quadrant_of(self.pos()),
    {
        let (x, y) = self.position;
        if x == MIDDLE_X || y == MIDDLE_Y {
            None
        } else if x < MIDDLE_X && y < MIDDLE_Y {
            Some(0)
        } else if x > MIDDLE_X && y > MIDDLE_Y {
            Some(3)
        } else if x > MIDDLE_X {
            Some(1)
        } else {
            Some(2)
        }
    }
}

/// `a` modulo `b`, always in `0..b`.
pub fn proper_mod(a: i32, b: usize) -> (r: usize)
    requires
        b > 0,
    ensures
        r as int == a as int % (b as int),
{
    if a >= 0 {
        (a as usize) % b
    } else {
        let m = (-(a as i64)) as usize;
        let rem = m % b;
        let ghost q = m as int / b as int;
        proof {
            lemma_fundamental_div_mod(m as int, b as int);
            assert(a as int == -(m as int));
        }
        if rem == 0 {
            proof {
                assert(a as int == (-q) * b + 0) by (nonlinear_arith)
                    requires
                        m as int == b * q + rem,
                        rem == 0,
                        a as int == -(m as int),
                ;
                lemma_fundamental_div_mod_converse(a as int, b as int, -q, 0);
            }
            0
        } else {
            proof {
                assert(a as int == (-q - 1) * b + (b - rem)) by (nonlinear_arith)
                    requires
                        m as int == b * q + rem,
                        a as int == -(m as int),
                ;
                lemma_fundamental_div_mod_converse(a as int, b as int, -q - 1, b - rem);
            }
            b - rem
        }
    }
}

/// Moves every robot by one second.
pub fn sim_robots(robots: &mut Vec<Robot>)
    ensures
        final(robots)@.len() == old(robots)@.len(),
        forall|i: int|
            0 <= i < old(robots)@.len() ==> (#[trigger] final(robots)@[i]).pos() == stepped(
                old(robots)@[i].pos(),
                old(robots)@[i].vel(),
            ) && final(robots)@[i].vel() == old(robots)@[i].vel(),
{
    let mut i: usize = 0;
    while i < robots.len()
        invariant
            0 <= i <= robots@.len(),
            robots@.len() == old(robots)@.len(),
            forall|k: int|
                0 <= k < i ==> (#[trigger] robots@[k]).pos() == stepped(
                    old(robots)@[k].pos(),
                    old(robots)@[k].vel(),
                ) && robots@[k].vel() == old(robots)@[k].vel(),
            forall|k: int| i <= k < robots@.len() ==> #[trigger] robots@[k] == old(robots)@[k],
        decreases robots@.len() - i,
    {
        let mut r = robots[i];
        r.update();
        robots.set(i, r);
        i = i + 1;
    }
}

/// How many of `robots` stand in quadrant `q`.
pub open spec fn quadrant_count(robots: Seq<Robot>, q: usize) -> nat
    decreases robots.len(),
{
    if robots.len() == 0 {
        0
    } else {
        quadrant_count(robots.drop_last(), q) + if quadrant_of(robots.last().pos()) == Some(q) {
            1nat
        } else {
            0nat
        }
    }
}

/// The product of the robot counts of the four quadrants.
pub open spec fn safety_factor(robots: Seq<Robot>) -> nat {
    quadrant_count(robots, 0) * quadrant_count(robots, 1) * quadrant_count(robots, 2)
        * quadrant_count(robots, 3)
}

/// The product of the robot counts of the four quadrants, absent where it does
/// not fit in a `u64`.
pub fn quadrant_counts_product(robots: &Vec<Robot>) -> (r: Option<u64>)
    ensures
        safety_factor(robots@) <= u64::MAX ==> r == Some(safety_factor(robots@) as u64),
        safety_factor(robots@) > u64::MAX ==> r is None,
{
    let mut counts: Vec<u64> = vec![0, 0, 0, 0];
    let mut i: usize = 0;
    assert(robots@.take(0) =~= Seq::<Robot>::empty());
    while i < robots.len()
        invariant
            0 <= i <= robots@.len(),
            counts@.len() == 4,
            forall|q: int|
                0 <= q < 4 ==> #[trigger] counts@[q] as nat == quadrant_count(
                    robots@.take(i as int),
                    q as usize,
                ),
            forall|q: int| 0 <= q < 4 ==> #[trigger] counts@[q] <= i,
        decreases robots@.len() - i,
    {
        let ghost before = robots@.take(i as int);
        assert(robots@.take(i + 1).drop_last() =~= before);
        let quad = robots[i].quadrant();
        if let Some(q) = quad {
            if q < 4 {
                let c = counts[q] + 1;
                counts.set(q, c);
            }
        }
        proof {
            assert forall|q: int| 0 <= q < 4 implies #[trigger] counts@[q] as nat == quadrant_count(
                robots@.take(i + 1),
                q as usize,
            ) by {
                assert(robots@.take(i + 1).last() == robots@[i as int]);
            }
        }
        i = i + 1;
    }
    assert(robots@.take(robots@.len() as int) =~= robots@);
    let (a, b, c, d) = (counts[0], counts[1], counts[2], counts[3]);
    if a == 0 || b == 0 || c == 0 || d == 0 {
        assert(a * b * c * d == 0) by (nonlinear_arith)
            requires
                a == 0 || b == 0 || c == 0 || d == 0,
        ;
        return Some(0);
    }
    let ab = a.checked_mul(b);
    if ab.is_none() {
        assert(a * b * c * d >= a * b) by (nonlinear_arith)
            requires
                c >= 1,
                d >= 1,
                a >= 1,
                b >= 1,
        ;
        return None;
    }
    let abc = ab.unwrap().checked_mul(c);
    if abc.is_none() {
        assert(a * b * c * d >= a * b * c) by (nonlinear_arith)
            requires
                c >= 1,
                d >= 1,
                a >= 1,
                b >= 1,
        ;
        return None;
    }
    abc.unwrap().checked_mul(d)
}

} // verus!
