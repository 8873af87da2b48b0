//! The cells that a move passes over, and the proof that no candidate move of
//! a keypad whose gap sits in a corner of its grid passes over the gap.
use vstd::prelude::*;
use crate::keypad::{ACTIVATE, DOWN, GAP, LEFT, PadView, RIGHT, UP, directional_pad, numeric_pad};
use crate::moves::{
    MoveTable, candidates, horizontal, key_moves, lemma_candidates_shape, lemma_key_cell, repeat,
    vertical,
};

verus! {

/// Where the pointer stands after the symbol `c`, from (`at.0`, `at.1`) as
/// (row, column); the activation symbol leaves it in place.
pub open spec fn step(at: (int, int), c: char) -> (int, int) {
    if c == UP {
        (at.0 - 1, at.1)
    } else if c == DOWN {
        (at.0 + 1, at.1)
    } else if c == LEFT {
        (at.0, at.1 - 1)
    } else if c == RIGHT {
        (at.0, at.1 + 1)
    } else {
        at
    }
}

/// Where the pointer stands after the symbols `m`, from `at`.
pub open spec fn walk(at: (int, int), m: Seq<char>) -> (int, int)
    decreases m.len(),
{
    if m.len() == 0 {
        at
    } else {
        step(walk(at, m.drop_last()), m.last())
    }
}

/// (row, column) of cell `i`.
pub open spec fn coords(p: PadView, i: int) -> (int, int) {
    (p.row(i), p.col(i))
}

/// Typing `m` with the pointer on cell `i` never puts it on the gap.
pub open spec fn avoids_gap(p: PadView, i: int, m: Seq<char>) -> bool {
    forall|k: int| 0 <= k <= m.len() ==> walk(coords(p, i), #[trigger] m.take(k)) != coords(p, p.gap)
}

/// The gap sits in a corner of the grid.
pub open spec fn gap_in_corner(p: PadView) -> bool {
    &&& (p.row(p.gap) == 0 || p.row(p.gap) == (p.cells.len() as int) / (p.width as int) - 1)
    &&& (p.col(p.gap) == 0 || p.col(p.gap) == p.width - 1)
}

proof fn lemma_walk_concat(at: (int, int), a: Seq<char>, b: Seq<char>)
    ensures
        walk(at, a + b) == walk(walk(at, a), b),
    decreases b.len(),
{
    if b.len() == 0 {
        assert(a + b =~= a);
    } else {
        lemma_walk_concat(at, a, b.drop_last());
        assert((a + b).drop_last() =~= a + b.drop_last());
    }
}

/// Walking part of a straight run moves the pointer by that many cells.
proof fn lemma_walk_repeat(at: (int, int), c: char, n: nat, k: int)
    requires
        0 <= k <= n,
        c == UP || c == DOWN || c == LEFT || c == RIGHT,
    ensures
        walk(at, repeat(c, n).take(k)) == (if c == UP {
            (at.0 - k, at.1)
        } else if c == DOWN {
            (at.0 + k, at.1)
        } else if c == LEFT {
            (at.0, at.1 - k)
        } else {
            (at.0, at.1 + k)
        }),
    decreases k,
{
    if k > 0 {
        lemma_walk_repeat(at, c, n, k - 1);
        assert(repeat(c, n).take(k).drop_last() =~= repeat(c, n).take(k - 1));
    }
}

/// The cells that typing the prefix of `a + b + [press]` passes over: those of
/// `a` from `at`, then those of `b` from where `a` ends.
proof fn lemma_walk_two_runs(at: (int, int), a: Seq<char>, b: Seq<char>, k: int)
    requires
        0 <= k <= (a + b + seq![ACTIVATE]).len(),
    ensures
        k <= a.len() ==> walk(at, (a + b + seq![ACTIVATE]).take(k)) == walk(at, a.take(k)),
        a.len() < k <= a.len() + b.len() ==> walk(at, (a + b + seq![ACTIVATE]).take(k)) == walk(
            walk(at, a),
            b.take(k - a.len()),
        ),
        k == a.len() + b.len() + 1 ==> walk(at, (a + b + seq![ACTIVATE]).take(k)) == walk(
            walk(at, a),
            b,
        ),
{
    let m = a + b + seq![ACTIVATE];
    if k <= a.len() {
        assert(m.take(k) =~= a.take(k));
    } else if k <= a.len() + b.len() {
        assert(m.take(k) =~= a + b.take(k - a.len()));
        lemma_walk_concat(at, a, b.take(k - a.len()));
    } else {
        assert(m.take(k) =~= (a + b).push(ACTIVATE));
        assert(m.take(k).drop_last() =~= a + b);
        lemma_walk_concat(at, a, b);
    }
}

/// The row and column of a cell of a well-formed grid are in range, and give
/// the cell back.
proof fn lemma_coords_range(p: PadView, i: int)
    requires
        p.wf(),
        0 <= i < p.cells.len(),
    ensures
        0 <= p.row(i) <= (p.cells.len() as int) / (p.width as int) - 1,
        0 <= p.col(i) < p.width,
        i == p.row(i) * p.width + p.col(i),
{
    let w = p.width as int;
    let n = p.cells.len() as int;
    vstd::arithmetic::div_mod::lemma_fundamental_div_mod(i, w);
    vstd::arithmetic::div_mod::lemma_fundamental_div_mod(n, w);
    vstd::arithmetic::div_mod::lemma_div_is_ordered(i, n, w);
    assert(i / w < n / w) by {
        if i / w >= n / w {
            assert((i / w) * w >= (n / w) * w) by (nonlinear_arith)
                requires
                    i / w >= n / w,
                    w > 0,
            ;
        }
    }
    vstd::arithmetic::div_mod::lemma_div_pos_is_pos(i, w);
}

/// Cells with the same coordinates are the same cell.
proof fn lemma_coords_inj(p: PadView, i: int, j: int)
    requires
        p.wf(),
        0 <= i < p.cells.len(),
        0 <= j < p.cells.len(),
        coords(p, i) == coords(p, j),
    ensures
        i == j,
{
    lemma_coords_range(p, i);
    lemma_coords_range(p, j);
}

/// The vertical-first move from `i` to `j` avoids the gap when the gap sits in
/// a corner of the grid and is none of `i`, `j` and the cell where the move
/// turns.
proof fn lemma_vertical_first_avoids(p: PadView, i: int, j: int)
    requires
        p.wf(),
        gap_in_corner(p),
        0 <= i < p.cells.len(),
        0 <= j < p.cells.len(),
        i != p.gap,
        j != p.gap,
        (p.row(j), p.col(i)) != coords(p, p.gap),
    ensures
        avoids_gap(p, i, vertical(p, i, j) + horizontal(p, i, j) + seq![ACTIVATE]),
{
    let v = vertical(p, i, j);
    let h = horizontal(p, i, j);
    let m = v + h + seq![ACTIVATE];
    let g = coords(p, p.gap);
    let start = coords(p, i);
    lemma_coords_range(p, i);
    lemma_coords_range(p, j);
    lemma_coords_range(p, p.gap);
    let dc = if p.row(j) > p.row(i) { DOWN } else { UP };
    let hc = if p.col(j) > p.col(i) { RIGHT } else { LEFT };
    lemma_walk_repeat(start, dc, v.len(), v.len() as int);
    assert(v.take(v.len() as int) =~= v);
    let turn = walk(start, v);
    assert(turn == (p.row(j), p.col(i)));
    assert forall|k: int| 0 <= k <= m.len() implies walk(start, #[trigger] m.take(k)) != g by {
        lemma_walk_two_runs(start, v, h, k);
        if k <= v.len() {
            lemma_walk_repeat(start, dc, v.len(), k);
            if walk(start, v.take(k)) == g {
                // on the column of i, between the rows of i and j: the gap's row
                // is the first or the last, so it is one of those two rows
                if p.row(p.gap) == p.row(i) {
                    lemma_coords_inj(p, i, p.gap);
                }
            }
        } else if k <= v.len() + h.len() {
            lemma_walk_repeat(turn, hc, h.len(), k - v.len());
            if walk(turn, h.take(k - v.len())) == g {
                if p.col(p.gap) == p.col(j) {
                    lemma_coords_inj(p, j, p.gap);
                }
            }
        } else {
            lemma_walk_repeat(turn, hc, h.len(), h.len() as int);
            assert(h.take(h.len() as int) =~= h);
            if walk(turn, h) == g {
                lemma_coords_inj(p, j, p.gap);
            }
        }
    }
}

/// The horizontal-first move from `i` to `j` avoids the gap when the gap sits
/// in a corner of the grid and is none of `i`, `j` and the cell where the move
/// turns.
proof fn lemma_horizontal_first_avoids(p: PadView, i: int, j: int)
    requires
        p.wf(),
        gap_in_corner(p),
        0 <= i < p.cells.len(),
        0 <= j < p.cells.len(),
        i != p.gap,
        j != p.gap,
        (p.row(i), p.col(j)) != coords(p, p.gap),
    ensures
        avoids_gap(p, i, horizontal(p, i, j) + vertical(p, i, j) + seq![ACTIVATE]),
{
    let v = vertical(p, i, j);
    let h = horizontal(p, i, j);
    let m = h + v + seq![ACTIVATE];
    let g = coords(p, p.gap);
    let start = coords(p, i);
    lemma_coords_range(p, i);
    lemma_coords_range(p, j);
    lemma_coords_range(p, p.gap);
    let dc = if p.row(j) > p.row(i) { DOWN } else { UP };
    let hc = if p.col(j) > p.col(i) { RIGHT } else { LEFT };
    lemma_walk_repeat(start, hc, h.len(), h.len() as int);
    assert(h.take(h.len() as int) =~= h);
    let turn = walk(start, h);
    assert(turn == (p.row(i), p.col(j)));
    assert forall|k: int| 0 <= k <= m.len() implies walk(start, #[trigger] m.take(k)) != g by {
        lemma_walk_two_runs(start, h, v, k);
        if k <= h.len() {
            lemma_walk_repeat(start, hc, h.len(), k);
            if walk(start, h.take(k)) == g {
                if p.col(p.gap) == p.col(i) {
                    lemma_coords_inj(p, i, p.gap);
                }
            }
        } else if k <= h.len() + v.len() {
            lemma_walk_repeat(turn, dc, v.len(), k - h.len());
            if walk(turn, v.take(k - h.len())) == g {
                if p.row(p.gap) == p.row(j) {
                    lemma_coords_inj(p, j, p.gap);
                }
            }
        } else {
            lemma_walk_repeat(turn, dc, v.len(), v.len() as int);
            assert(v.take(v.len() as int) =~= v);
            if walk(turn, v) == g {
                lemma_coords_inj(p, j, p.gap);
            }
        }
    }
}

/// On a keypad whose gap sits in a corner of its grid, between two functional
/// keys there are one or two candidate moves; each ends in its only
/// activation symbol, and none passes over the gap.
pub proof fn lemma_key_moves_avoid_gap(p: PadView, s: char, d: char)
    requires
        p.wf(),
        gap_in_corner(p),
        p.has_key(s),
        p.has_key(d),
    ensures
        1 <= key_moves(p, s, d).len() <= 2,
        forall|k: int|
            #![trigger key_moves(p, s, d)[k]]
            0 <= k < key_moves(p, s, d).len() ==> {
                let m = key_moves(p, s, d)[k];
                &&& m.last() == ACTIVATE
                &&& forall|x: int| 0 <= x < m.len() - 1 ==> m[x] != ACTIVATE
                &&& avoids_gap(p, p.pos(s), m)
            },
{
    lemma_key_cell(p, s);
    lemma_key_cell(p, d);
    let (i, j) = (p.pos(s), p.pos(d));
    lemma_candidates_shape(p, i, j);
    let c = candidates(p, i, j);
    assert forall|k: int| 0 <= k < c.len() implies avoids_gap(p, i, #[trigger] c[k]) by {
        if p.row(i) == p.row(j) || p.col(i) == p.col(j) {
            if (p.row(j), p.col(i)) == coords(p, p.gap) {
                if p.row(i) == p.row(j) {
                    lemma_coords_inj(p, i, p.gap);
                } else {
                    lemma_coords_inj(p, j, p.gap);
                }
            }
            lemma_vertical_first_avoids(p, i, j);
        } else {
            if (p.row(j), p.col(i)) != coords(p, p.gap) {
                lemma_vertical_first_avoids(p, i, j);
            }
            if (p.row(i), p.col(j)) != coords(p, p.gap) {
                lemma_horizontal_first_avoids(p, i, j);
            }
        }
    }
    assert forall|k: int, x: int| 0 <= k < c.len() && 0 <= x < c[k].len() - 1 implies #[trigger] c[k][x]
        != ACTIVATE by {
        assert(crate::moves::move_like(c[k]));
    }
}

/// Both keypads are well formed, with their gap in a corner.
pub proof fn lemma_pads_wf()
    ensures
        numeric_pad().wf(),
        gap_in_corner(numeric_pad()),
        directional_pad().wf(),
        gap_in_corner(directional_pad()),
{
    let n = numeric_pad().cells;
    assert(n.len() == 12);
    assert(9int / 3 == 3 && 9int % 3 == 0 && 12int / 3 == 4) by (nonlinear_arith);
    assert(0int / 3 == 0 && 0int % 3 == 0 && 6int / 3 == 2) by (nonlinear_arith);
    assert forall|j: int| 0 <= j < n.len() && j != 9 implies n[j] != GAP by {
        assert(n[0] == '7' && n[1] == '8' && n[2] == '9' && n[3] == '4' && n[4] == '5');
        assert(n[5] == '6' && n[6] == '1' && n[7] == '2' && n[8] == '3' && n[10] == '0');
        assert(n[11] == ACTIVATE);
    }
    let d = directional_pad().cells;
    assert forall|j: int| 0 <= j < d.len() && j != 0 implies d[j] != GAP by {
        assert(d[1] == UP && d[2] == ACTIVATE && d[3] == LEFT && d[4] == DOWN && d[5] == RIGHT);
    }
}

/// For every pair of functional keys of either keypad, the built table holds
/// one or two candidate moves; each ends in its only activation symbol, and
/// none passes over the gap.
pub proof fn law_table_moves(t: &MoveTable, s: char, d: char)
    requires
        t.wf(),
        t.pad_view() == numeric_pad() || t.pad_view() == directional_pad(),
        t.pad_view().has_key(s),
        t.pad_view().has_key(d),
    ensures
        1 <= key_moves(t.pad_view(), s, d).len() <= 2,
        forall|k: int|
            #![trigger key_moves(t.pad_view(), s, d)[k]]
            0 <= k < key_moves(t.pad_view(), s, d).len() ==> {
                let m = key_moves(t.pad_view(), s, d)[k];
                &&& m.last() == ACTIVATE
                &&& forall|x: int| 0 <= x < m.len() - 1 ==> m[x] != ACTIVATE
                &&& avoids_gap(t.pad_view(), t.pad_view().pos(s), m)
            },
{
    lemma_pads_wf();
    lemma_key_moves_avoid_gap(t.pad_view(), s, d);
}

/// From a key to itself the only candidate is a bare press.
pub proof fn law_same_key(p: PadView, s: char)
    requires
        p.wf(),
        p.has_key(s),
    ensures
        key_moves(p, s, s) == seq![seq![ACTIVATE]],
{
    lemma_key_cell(p, s);
    let i = p.pos(s);
    assert(vertical(p, i, i) =~= Seq::<char>::empty());
    assert(horizontal(p, i, i) =~= Seq::<char>::empty());
    assert(vertical(p, i, i) + horizontal(p, i, i) + seq![ACTIVATE] =~= seq![ACTIVATE]);
}

} // verus!
