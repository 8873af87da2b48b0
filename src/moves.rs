//! Move tables: for every ordered pair of functional keys of a keypad, the
//! tied-shortest button sequences, typed on the keypad one level up, that carry
//! the pointer from the first key to the second and press it.
use vstd::prelude::*;
use crate::keypad::{ACTIVATE, DOWN, Keypad, LEFT, PadView, RIGHT, UP, is_key};

verus! {

/// `n` copies of `c`.
pub open spec fn repeat(c: char, n: nat) -> Seq<char> {
    Seq::new(n, |_k: int| c)
}

/// The vertical part of a move from cell `i` to cell `j`.
pub open spec fn vertical(p: PadView, i: int, j: int) -> Seq<char> {
    if p.row(j) > p.row(i) {
        repeat(DOWN, (p.row(j) - p.row(i)) as nat)
    } else {
        repeat(UP, (p.row(i) - p.row(j)) as nat)
    }
}

/// The horizontal part of a move from cell `i` to cell `j`.
pub open spec fn horizontal(p: PadView, i: int, j: int) -> Seq<char> {
    if p.col(j) > p.col(i) {
        repeat(RIGHT, (p.col(j) - p.col(i)) as nat)
    } else {
        repeat(LEFT, (p.col(i) - p.col(j)) as nat)
    }
}

/// The candidate moves from cell `i` to cell `j`: none where either is the gap;
/// one where they share a row or a column; otherwise vertical-first then
/// horizontal-first, each kept only where the corner it turns at is not the gap.
pub open spec fn candidates(p: PadView, i: int, j: int) -> Seq<Seq<char>> {
    if i == p.gap || j == p.gap {
        Seq::empty()
    } else if p.row(i) == p.row(j) || p.col(i) == p.col(j) {
        seq![vertical(p, i, j) + horizontal(p, i, j) + seq![ACTIVATE]]
    } else {
        let down_first = if p.row(j) == p.row(p.gap) && p.col(i) == p.col(p.gap) {
            Seq::empty()
        } else {
            seq![vertical(p, i, j) + horizontal(p, i, j) + seq![ACTIVATE]]
        };
        let across_first = if p.row(i) == p.row(p.gap) && p.col(j) == p.col(p.gap) {
            Seq::empty()
        } else {
            seq![horizontal(p, i, j) + vertical(p, i, j) + seq![ACTIVATE]]
        };
        down_first + across_first
    }
}

/// The candidate moves from key `s` to key `d`.
pub open spec fn key_moves(p: PadView, s: char, d: char) -> Seq<Seq<char>> {
    candidates(p, p.pos(s), p.pos(d))
}

/// A directional symbol: one of the four pointer moves.
pub open spec fn is_dir(c: char) -> bool {
    c == UP || c == DOWN || c == LEFT || c == RIGHT
}

/// A move: directional symbols followed by one activation symbol.
pub open spec fn move_like(m: Seq<char>) -> bool {
    &&& m.len() >= 1
    &&& m.last() == ACTIVATE
    &&& forall|k: int| 0 <= k < m.len() - 1 ==> is_dir(#[trigger] m[k])
}

pub open spec fn views(v: Seq<Vec<char>>) -> Seq<Seq<char>> {
    v.map_values(|m: Vec<char>| m@)
}

proof fn lemma_move_like(a: Seq<char>, b: Seq<char>)
    requires
        forall|k: int| 0 <= k < a.len() ==> is_dir(#[trigger] a[k]),
        forall|k: int| 0 <= k < b.len() ==> is_dir(#[trigger] b[k]),
    ensures
        move_like(a + b + seq![ACTIVATE]),
{
    let m = a + b + seq![ACTIVATE];
    assert forall|k: int| 0 <= k < m.len() - 1 implies is_dir(#[trigger] m[k]) by {
        if k < a.len() {
            assert(m[k] == a[k]);
        } else {
            assert(m[k] == b[k - a.len()]);
        }
    }
}

/// Between two functional cells there are one or two candidate moves, each
/// made of directional symbols and one final activation symbol.
pub proof fn lemma_candidates_shape(p: PadView, i: int, j: int)
    requires
        p.wf(),
        0 <= i < p.cells.len(),
        0 <= j < p.cells.len(),
        i != p.gap,
        j != p.gap,
    ensures
        1 <= candidates(p, i, j).len() <= 2,
        forall|k: int| 0 <= k < candidates(p, i, j).len() ==> move_like(
            #[trigger] candidates(p, i, j)[k],
        ),
{
    let v = vertical(p, i, j);
    let h = horizontal(p, i, j);
    assert(forall|k: int| 0 <= k < v.len() ==> is_dir(#[trigger] v[k]));
    assert(forall|k: int| 0 <= k < h.len() ==> is_dir(#[trigger] h[k]));
    lemma_move_like(v, h);
    lemma_move_like(h, v);
    let c = candidates(p, i, j);
    assert forall|k: int| 0 <= k < c.len() implies move_like(#[trigger] c[k]) by {
        if !(p.row(i) == p.row(j) || p.col(i) == p.col(j)) {
            if k == 1 {
                assert(c[k] == h + v + seq![ACTIVATE]);
            }
        }
    }
}

/// The functional key `c` stands at a functional cell.
pub proof fn lemma_key_cell(p: PadView, c: char)
    requires
        p.wf(),
        p.has_key(c),
    ensures
        0 <= p.pos(c) < p.cells.len(),
        p.pos(c) != p.gap,
        p.cells[p.pos(c)] == c,
{
    crate::keypad::lemma_key_pos(p.cells, c);
}

/// Between two functional keys there are one or two candidate moves, each
/// made of directional symbols and one final activation symbol.
pub proof fn lemma_key_moves_shape(p: PadView, s: char, d: char)
    requires
        p.wf(),
        p.has_key(s),
        p.has_key(d),
    ensures
        1 <= key_moves(p, s, d).len() <= 2,
        forall|k: int| 0 <= k < key_moves(p, s, d).len() ==> move_like(
            #[trigger] key_moves(p, s, d)[k],
        ),
{
    lemma_key_cell(p, s);
    lemma_key_cell(p, d);
    lemma_candidates_shape(p, p.pos(s), p.pos(d));
}

/// Appends `n` copies of `c` to `v`.
fn push_repeat(v: &mut Vec<char>, c: char, n: usize)
    ensures
        final(v)@ == old(v)@ + repeat(c, n as nat),
{
    let ghost start = v@;
    let mut k: usize = 0;
    while k < n
        invariant
            0 <= k <= n,
            v@ == start + repeat(c, k as nat),
        decreases n - k,
    {
        v.push(c);
        k = k + 1;
        assert(v@ =~= start + repeat(c, k as nat));
    }
}

/// The run of vertical moves from row `from` to row `to`.
fn vertical_run(v: &mut Vec<char>, from: usize, to: usize)
    ensures
        final(v)@ == old(v)@ + (if to > from {
            repeat(DOWN, (to - from) as nat)
        } else {
            repeat(UP, (from - to) as nat)
        }),
{
    if to > from {
        push_repeat(v, DOWN, to - from);
    } else {
        push_repeat(v, UP, from - to);
    }
}

/// The run of horizontal moves from column `from` to column `to`.
fn horizontal_run(v: &mut Vec<char>, from: usize, to: usize)
    ensures
        final(v)@ == old(v)@ + (if to > from {
            repeat(RIGHT, (to - from) as nat)
        } else {
            repeat(LEFT, (from - to) as nat)
        }),
{
    if to > from {
        push_repeat(v, RIGHT, to - from);
    } else {
        push_repeat(v, LEFT, from - to);
    }
}

/// The candidate moves between cells `i` and `j` of `pad`.
pub fn moves_between(pad: &Keypad, i: usize, j: usize) -> (r: Vec<Vec<char>>)
    requires
        pad.wf(),
        i < pad@.cells.len(),
        j < pad@.cells.len(),
    ensures
        views(r@) == candidates(pad@, i as int, j as int),
{
    let ghost p = pad@;
    let g = pad.gap_index();
    let w = pad.width();
    if i == g || j == g {
        let r: Vec<Vec<char>> = Vec::new();
        assert(views(r@) =~= candidates(p, i as int, j as int));
        return r;
    }
    let (ri, ci) = (i / w, i % w);
    let (rj, cj) = (j / w, j % w);
    let (rg, cg) = pad.gap_coords();
    let mut down_first: Vec<char> = Vec::new();
    vertical_run(&mut down_first, ri, rj);
    horizontal_run(&mut down_first, ci, cj);
    down_first.push(ACTIVATE);
    assert(down_first@ =~= vertical(p, i as int, j as int) + horizontal(p, i as int, j as int)
        + seq![ACTIVATE]);
    let mut r: Vec<Vec<char>> = Vec::new();
    if ri == rj || ci == cj {
        r.push(down_first);
        assert(views(r@) =~= candidates(p, i as int, j as int));
        return r;
    }
    let mut across_first: Vec<char> = Vec::new();
    horizontal_run(&mut across_first, ci, cj);
    vertical_run(&mut across_first, ri, rj);
    across_first.push(ACTIVATE);
    assert(across_first@ =~= horizontal(p, i as int, j as int) + vertical(p, i as int, j as int)
        + seq![ACTIVATE]);
    if !(rj == rg && ci == cg) {
        r.push(down_first);
    }
    if !(ri == rg && cj == cg) {
        r.push(across_first);
    }
    assert(views(r@) =~= candidates(p, i as int, j as int));
    r
}

/// Every candidate move between every ordered pair of cells of a keypad.
pub struct MoveTable {
    pad: Keypad,
    table: Vec<Vec<Vec<Vec<char>>>>,
}

impl MoveTable {
    /// The keypad that the table is for.
    pub closed spec fn pad_view(&self) -> PadView {
        self.pad@
    }

    /// The moves that the table holds from cell `i` to cell `j`.
    pub closed spec fn moves(&self, i: int, j: int) -> Seq<Seq<char>> {
        views(self.table@[i]@[j]@)
    }

    pub closed spec fn shape_wf(&self) -> bool {
        &&& self.table@.len() == self.pad@.cells.len()
        &&& forall|i: int|
            0 <= i < self.table@.len() ==> #[trigger] self.table@[i]@.len()
                == self.pad@.cells.len()
    }

    pub open spec fn wf(&self) -> bool {
        &&& self.pad_view().wf()
        &&& self.shape_wf()
        &&& forall|i: int, j: int|
            0 <= i < self.pad_view().cells.len() && 0 <= j < self.pad_view().cells.len()
                ==> #[trigger] self.moves(i, j) == candidates(self.pad_view(), i, j)
    }

    /// Precomputes the candidate moves of `pad`.
    pub fn build(pad: Keypad) -> (r: MoveTable)
        requires
            pad.wf(),
        ensures
            r.wf(),
            r.pad_view() == pad@,
    {
        let n = pad.len();
        let mut table: Vec<Vec<Vec<Vec<char>>>> = Vec::new();
        let mut i: usize = 0;
        while i < n
            invariant
                0 <= i <= n,
                n == pad@.cells.len(),
                pad.wf(),
                table@.len() == i,
                forall|a: int| 0 <= a < i ==> #[trigger] table@[a]@.len() == n,
                forall|a: int, b: int|
                    0 <= a < i && 0 <= b < n ==> views(#[trigger] table@[a]@[b]@) == candidates(
                        pad@,
                        a,
                        b,
                    ),
            decreases n - i,
        {
            let mut row: Vec<Vec<Vec<char>>> = Vec::new();
            let mut j: usize = 0;
            while j < n
                invariant
                    0 <= i < n,
                    0 <= j <= n,
                    n == pad@.cells.len(),
                    pad.wf(),
                    row@.len() == j,
                    forall|b: int| 0 <= b < j ==> views(#[trigger] row@[b]@) == candidates(
                        pad@,
                        i as int,
                        b,
                    ),
                decreases n - j,
            {
                row.push(moves_between(&pad, i, j));
                j = j + 1;
            }
            table.push(row);
            i = i + 1;
        }
        MoveTable { pad, table }
    }

    /// The keypad that the table is for.
    pub fn pad(&self) -> (r: &Keypad)
        ensures
            r@ == self.pad_view(),
    {
        &self.pad
    }

    /// The candidate moves from key `s` to key `d`.
    pub fn lookup(&self, s: char, d: char) -> (r: &Vec<Vec<char>>)
        requires
            self.wf(),
            is_key(self.pad_view().cells, s),
            is_key(self.pad_view().cells, d),
        ensures
            views(r@) == key_moves(self.pad_view(), s, d),
    {
        proof {
            crate::keypad::lemma_key_pos(self.pad@.cells, s);
            crate::keypad::lemma_key_pos(self.pad@.cells, d);
        }
        let ps = self.pad.position_of(s);
        let pd = self.pad.position_of(d);
        let i = ps.unwrap();
        let j = pd.unwrap();
        proof {
            assert(i as int == self.pad@.pos(s));
            assert(j as int == self.pad@.pos(d));
            assert(self.moves(i as int, j as int) == candidates(self.pad_view(), i as int, j as int));
        }
        let r = &self.table[i][j];
        assert(views(r@) == self.moves(i as int, j as int));
        r
    }
}

} // verus!
