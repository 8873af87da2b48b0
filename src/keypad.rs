//! Keypad layouts: a row-major grid of key symbols with exactly one gap cell.
use vstd::prelude::*;

verus! {

/// The reserved marker of the one non-functional cell of a layout.
pub const GAP: char = 'x';

/// The button that commits the pointer's position as a press; also the key on
/// which every pointer rests at the start.
pub const ACTIVATE: char = 'A';

pub const UP: char = '^';

pub const DOWN: char = 'v';

pub const LEFT: char = '<';

pub const RIGHT: char = '>';

/// Why a grid of symbols is not a usable layout.
#[derive(Debug, Clone, Copy, PartialEq, Eq, Structural)]
pub enum LayoutError {
    /// The width is zero or does not divide the number of cells.
    BadShape,
    /// No cell holds the gap marker.
    NoGap,
    /// More than one cell holds the gap marker.
    ManyGaps,
}

/// The numeric keypad, row by row: 7 8 9 / 4 5 6 / 1 2 3 / gap 0 A.
pub open spec fn numeric_layout() -> Seq<char> {
    seq!['7', '8', '9', '4', '5', '6', '1', '2', '3', GAP, '0', ACTIVATE]
}

/// The directional keypad, row by row: gap ^ A / < v >.
pub open spec fn directional_layout() -> Seq<char> {
    seq![GAP, UP, ACTIVATE, LEFT, DOWN, RIGHT]
}

pub open spec fn shape_ok(cells: Seq<char>, width: nat) -> bool {
    width > 0 && cells.len() % width == 0
}

pub open spec fn no_gap(cells: Seq<char>) -> bool {
    forall|i: int| 0 <= i < cells.len() ==> cells[i] != GAP
}

pub open spec fn many_gaps(cells: Seq<char>) -> bool {
    exists|i: int, j: int| 0 <= i < j < cells.len() && cells[i] == GAP && cells[j] == GAP
}

/// `g` is the one cell of `cells` that holds the gap marker.
pub open spec fn sole_gap(cells: Seq<char>, g: int) -> bool {
    &&& 0 <= g < cells.len()
    &&& cells[g] == GAP
    &&& forall|j: int| 0 <= j < cells.len() && j != g ==> cells[j] != GAP
}

/// `c` is a functional key of `cells`: present, and not the gap marker.
pub open spec fn is_key(cells: Seq<char>, c: char) -> bool {
    c != GAP && cells.contains(c)
}

/// `p` is the first cell of `cells` that holds `c`.
pub open spec fn first_at(cells: Seq<char>, c: char, p: int) -> bool {
    &&& 0 <= p < cells.len()
    &&& cells[p] == c
    &&& forall|k: int| 0 <= k < p ==> cells[k] != c
}

/// The cell at which key `c` stands (its first occurrence).
pub open spec fn key_pos(cells: Seq<char>, c: char) -> int {
    choose|p: int| first_at(cells, c, p)
}

proof fn lemma_first_below(cells: Seq<char>, c: char, i: int)
    requires
        0 <= i < cells.len(),
        cells[i] == c,
    ensures
        exists|p: int| first_at(cells, c, p),
    decreases i,
{
    if exists|k: int| 0 <= k < i && cells[k] == c {
        let k = choose|k: int| 0 <= k < i && cells[k] == c;
        lemma_first_below(cells, c, k);
    } else {
        assert(first_at(cells, c, i));
    }
}

pub proof fn lemma_key_pos(cells: Seq<char>, c: char)
    requires
        cells.contains(c),
    ensures
        first_at(cells, c, key_pos(cells, c)),
{
    let i = choose|i: int| 0 <= i < cells.len() && cells[i] == c;
    lemma_first_below(cells, c, i);
}

proof fn lemma_first_at_unique(cells: Seq<char>, c: char, p: int, q: int)
    requires
        first_at(cells, c, p),
        first_at(cells, c, q),
    ensures
        p == q,
{
}

/// A grid of key symbols, `width` cells per row, with exactly one gap cell.
pub struct Keypad {
    cells: Vec<char>,
    width: usize,
    gap: usize,
}

/// What a keypad is, mathematically: its cells row by row, the cells per row,
/// and the index of the gap cell.
pub struct PadView {
    pub cells: Seq<char>,
    pub width: nat,
    pub gap: int,
}

impl PadView {
    pub open spec fn wf(self) -> bool {
        &&& shape_ok(self.cells, self.width)
        &&& sole_gap(self.cells, self.gap)
    }

    pub open spec fn row(self, i: int) -> int {
        i / (self.width as int)
    }

    pub open spec fn col(self, i: int) -> int {
        i % (self.width as int)
    }

    /// The cell at which functional key `c` stands.
    pub open spec fn pos(self, c: char) -> int {
        key_pos(self.cells, c)
    }

    pub open spec fn has_key(self, c: char) -> bool {
        is_key(self.cells, c)
    }
}

/// The numeric keypad as a value.
pub open spec fn numeric_pad() -> PadView {
    PadView { cells: numeric_layout(), width: 3, gap: 9 }
}

/// The directional keypad as a value.
pub open spec fn directional_pad() -> PadView {
    PadView { cells: directional_layout(), width: 3, gap: 0 }
}

impl View for Keypad {
    type V = PadView;

    closed spec fn view(&self) -> PadView {
        PadView { cells: self.cells@, width: self.width as nat, gap: self.gap as int }
    }
}

impl Keypad {
    /// The symbols, row by row.
    pub open spec fn layout(&self) -> Seq<char> {
        self@.cells
    }

    /// Cells per row.
    pub open spec fn cols(&self) -> nat {
        self@.width
    }

    /// The index of the gap cell.
    pub open spec fn gap_pos(&self) -> int {
        self@.gap
    }

    pub open spec fn wf(&self) -> bool {
        self@.wf()
    }

    /// Builds a layout from its cells, row by row, `width` to a row.
    pub fn new(cells: Vec<char>, width: usize) -> (r: Result<Keypad, LayoutError>)
        ensures
            !shape_ok(cells@, width as nat) ==> r == Err::<Keypad, LayoutError>(
                LayoutError::BadShape,
            ),
            shape_ok(cells@, width as nat) && no_gap(cells@) ==> r == Err::<Keypad, LayoutError>(
                LayoutError::NoGap,
            ),
            shape_ok(cells@, width as nat) && many_gaps(cells@) ==> r == Err::<
                Keypad,
                LayoutError,
            >(LayoutError::ManyGaps),
            r is Ok <==> shape_ok(cells@, width as nat) && !no_gap(cells@) && !many_gaps(cells@),
            r matches Ok(k) ==> k.wf() && k.layout() == cells@ && k.cols() == width,
    {
        if width == 0 || cells.len() % width != 0 {
            return Err(LayoutError::BadShape);
        }
        let mut gap: Option<usize> = None;
        let mut i: usize = 0;
        while i < cells.len()
            invariant
                0 <= i <= cells.len(),
                shape_ok(cells@, width as nat),
                gap matches None ==> forall|k: int| 0 <= k < i ==> cells@[k] != GAP,
                gap matches Some(g) ==> g < i && sole_gap(cells@.subrange(0, i as int), g as int),
            decreases cells.len() - i,
        {
            if cells[i] == GAP {
                if gap.is_some() {
                    let g = gap.unwrap();
                    assert(cells@.subrange(0, i as int)[g as int] == GAP);
                    assert(many_gaps(cells@));
                    return Err(LayoutError::ManyGaps);
                }
                gap = Some(i);
            }
            i = i + 1;
            assert forall|j: int| 0 <= j < i implies cells@.subrange(0, i as int)[j] == cells@[j] by {}
        }
        match gap {
            None => Err(LayoutError::NoGap),
            Some(g) => {
                assert(cells@.subrange(0, cells.len() as int) =~= cells@);
                assert(!many_gaps(cells@));
                Ok(Keypad { cells, width, gap: g })
            },
        }
    }

    /// The numeric keypad.
    pub fn numeric() -> (r: Keypad)
        ensures
            r.wf(),
            r@ == numeric_pad(),
    {
        let cells = vec!['7', '8', '9', '4', '5', '6', '1', '2', '3', GAP, '0', ACTIVATE];
        let r = Keypad { cells, width: 3, gap: 9 };
        assert(r.layout() =~= numeric_layout());
        r
    }

    /// The directional keypad.
    pub fn directional() -> (r: Keypad)
        ensures
            r.wf(),
            r@ == directional_pad(),
    {
        let cells = vec![GAP, UP, ACTIVATE, LEFT, DOWN, RIGHT];
        let r = Keypad { cells, width: 3, gap: 0 };
        assert(r.layout() =~= directional_layout());
        r
    }

    /// Number of cells, the gap included.
    pub fn len(&self) -> (r: usize)
        ensures
            r == self.layout().len(),
    {
        self.cells.len()
    }

    /// Cells per row.
    pub fn width(&self) -> (r: usize)
        ensures
            r == self.cols(),
    {
        self.width
    }

    /// Number of rows.
    pub fn height(&self) -> (r: usize)
        requires
            self.wf(),
        ensures
            r * self.cols() == self.layout().len(),
    {
        proof {
            vstd::arithmetic::div_mod::lemma_fundamental_div_mod(
                self.cells.len() as int,
                self.width as int,
            );
        }
        let h = self.cells.len() / self.width;
        assert(h * self.width == self.cells.len()) by (nonlinear_arith)
            requires
                self.cells.len() == self.width * h + self.cells.len() % self.width,
                self.cells.len() % self.width == 0,
        ;
        h
    }

    /// The symbol at linear index `i`.
    pub fn cell(&self, i: usize) -> (r: char)
        requires
            i < self.layout().len(),
        ensures
            r == self.layout()[i as int],
    {
        self.cells[i]
    }

    /// The symbol at (`row`, `col`).
    pub fn cell_at(&self, row: usize, col: usize) -> (r: Option<char>)
        requires
            self.wf(),
        ensures
            r == (if col < self.cols() && row * self.cols() + col < self.layout().len() {
                Some(self.layout()[row * self.cols() + col])
            } else {
                None
            }),
    {
        let h = self.height();
        let w = self.width;
        if col >= w {
            return None;
        }
        if row >= h {
            assert(row * w + col >= h * w) by (nonlinear_arith)
                requires
                    row >= h,
            ;
            return None;
        }
        assert(h * w == self.cells.len());
        assert(row * w + col < h * w) by (nonlinear_arith)
            requires
                row < h,
                col < w,
        ;
        Some(self.cells[row * w + col])
    }

    /// The linear index of the gap cell.
    pub fn gap_index(&self) -> (r: usize)
        ensures
            r == self.gap_pos(),
    {
        self.gap
    }

    /// The (row, column) of the gap cell.
    pub fn gap_coords(&self) -> (r: (usize, usize))
        requires
            self.wf(),
        ensures
            r.0 == self.gap_pos() / (self.cols() as int),
            r.1 == self.gap_pos() % (self.cols() as int),
    {
        (self.gap / self.width, self.gap % self.width)
    }

    /// The cell of key `c`, or `None` where `c` is no functional key.
    pub fn position_of(&self, c: char) -> (r: Option<usize>)
        requires
            self.wf(),
        ensures
            is_key(self.layout(), c) ==> r == Some(key_pos(self.layout(), c) as usize),
            r matches Some(i) ==> i as int == key_pos(self.layout(), c),
            !is_key(self.layout(), c) ==> r is None,
    {
        if c == GAP {
            return None;
        }
        let mut i: usize = 0;
        while i < self.cells.len()
            invariant
                0 <= i <= self.cells.len(),
                c != GAP,
                forall|k: int| 0 <= k < i ==> self.cells@[k] != c,
            decreases self.cells.len() - i,
        {
            if self.cells[i] == c {
                proof {
                    assert(self.cells@[i as int] == c);
                    assert(self.layout().contains(c));
                    lemma_key_pos(self.cells@, c);
                    lemma_first_at_unique(self.cells@, c, i as int, key_pos(self.cells@, c));
                }
                return Some(i);
            }
            i = i + 1;
        }
        None
    }
}

} // verus!
