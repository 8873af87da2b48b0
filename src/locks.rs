//! Lock and key schematics: grids of `#` and `.`, the pin heights they stand
//! for, and how many key and lock pairs fit together.
use vstd::prelude::*;
use crate::estimate::{fit, fit_add};

verus! {

/// A filled cell of a schematic.
pub const PIN_CHAR: u8 = 35;

/// An empty cell of a schematic.
pub const DOT_CHAR: u8 = 46;

/// The tallest pin; a key and a lock fit where no column sums above it.
pub const MAX_HEIGHT: usize = 5;

/// Why cells cannot form a grid.
#[derive(Debug, Clone, Copy, PartialEq, Eq, Structural)]
pub enum GridError {
    /// The width is zero or does not divide the number of cells.
    BadShape,
    /// A schematic without room for a full pin below its top row.
    TooShort,
}

/// A grid of bytes, row by row.
pub struct CharArray {
    contents: Vec<u8>,
    width: usize,
    height: usize,
}

/// The height of the pin in column `x` of grid `g` (`w` wide): the run of
/// cells equal to `c` below the top row, at most `MAX_HEIGHT` long, from row
/// `k + 1` on.
pub open spec fn run_from(g: Seq<u8>, w: int, x: int, c: u8, k: int) -> nat
    decreases MAX_HEIGHT - k,
{
    if k >= MAX_HEIGHT || k < 0 || g[(k + 1) * w + x] != c {
        0
    } else {
        1 + run_from(g, w, x, c, k + 1)
    }
}

/// The top row of grid `g` (`w` wide) is all pins.
pub open spec fn lock_grid(g: Seq<u8>, w: int) -> bool {
    forall|x: int| 0 <= x < w ==> g[x] == PIN_CHAR
}

/// The pin heights of grid `g` (`w` wide), one per column.
pub open spec fn heights_of(g: Seq<u8>, w: int) -> Seq<usize> {
    Seq::new(
        w as nat,
        |x: int|
            if lock_grid(g, w) {
                run_from(g, w, x, PIN_CHAR, 0) as usize
            } else {
                (MAX_HEIGHT - run_from(g, w, x, DOT_CHAR, 0)) as usize
            },
    )
}

/// No column of the two height lists, paired in order, sums above the
/// tallest pin.
pub open spec fn compatible(a: Seq<usize>, b: Seq<usize>) -> bool {
    forall|i: int| 0 <= i < a.len() && i < b.len() ==> #[trigger] a[i] + #[trigger] b[i] <= MAX_HEIGHT
}

impl CharArray {
    pub closed spec fn cells(&self) -> Seq<u8> {
        self.contents@
    }

    pub closed spec fn cols(&self) -> nat {
        self.width as nat
    }

    pub closed spec fn rows(&self) -> nat {
        self.height as nat
    }

    pub open spec fn wf(&self) -> bool {
        &&& self.cols() > 0
        &&& self.cells().len() == self.cols() * self.rows()
    }

    /// A grid of `contents`, `width` cells to a row.
    pub fn new(contents: Vec<u8>, width: usize) -> (r: Result<CharArray, GridError>)
        ensures
            r is Ok <==> width > 0 && contents@.len() % (width as nat) == 0,
            r is Err ==> r == Err::<CharArray, GridError>(GridError::BadShape),
            r matches Ok(g) ==> g.wf() && g.cells() == contents@ && g.cols() == width,
    {
        if width == 0 || contents.len() % width != 0 {
            return Err(GridError::BadShape);
        }
        let height = contents.len() / width;
        proof {
            vstd::arithmetic::div_mod::lemma_fundamental_div_mod(contents.len() as int, width as int);
            assert(contents@.len() == width * height) by (nonlinear_arith)
                requires
                    contents@.len() == width * (contents@.len() as int / width as int) + contents@.len()
                        % (width as nat),
                    contents@.len() % (width as nat) == 0,
                    height == contents@.len() as int / width as int,
            ;
        }
        Ok(CharArray { contents, width, height })
    }

    /// Whether the top row is all pins.
    pub fn is_lock(&self) -> (r: bool)
        requires
            self.wf(),
            self.rows() >= 1,
        ensures
            r == lock_grid(self.cells(), self.cols() as int),
    {
        assert(self.width <= self.contents@.len()) by (nonlinear_arith)
            requires
                self.contents@.len() == self.width * self.height,
                self.height >= 1,
                self.width > 0,
        ;
        let mut x: usize = 0;
        while x < self.width
            invariant
                0 <= x <= self.width,
                self.width <= self.contents@.len(),
                forall|k: int| 0 <= k < x ==> self.contents@[k] == PIN_CHAR,
            decreases self.width - x,
        {
            if self.contents[x] != PIN_CHAR {
                return false;
            }
            x = x + 1;
        }
        true
    }

    /// The pin height of each column: for a lock the run of pins below the top
    /// row, for a key the tallest pin less the run of empty cells.
    pub fn pin_heights(&self) -> (r: Vec<usize>)
        requires
            self.wf(),
            self.rows() > MAX_HEIGHT,
        ensures
            r@ == heights_of(self.cells(), self.cols() as int),
    {
        let w = self.width;
        let n = self.contents.len();
        let ghost g = self.contents@;
        let lock = self.is_lock();
        let c = if lock {
            PIN_CHAR
        } else {
            DOT_CHAR
        };
        let mut res: Vec<usize> = Vec::new();
        let mut x: usize = 0;
        while x < w
            invariant
                0 <= x <= w,
                w == self.width,
                n == g.len(),
                g == self.contents@,
                self.wf(),
                self.rows() > MAX_HEIGHT,
                lock == lock_grid(g, w as int),
                c == (if lock {
                    PIN_CHAR
                } else {
                    DOT_CHAR
                }),
                res@ == heights_of(g, w as int).take(x as int),
            decreases w - x,
        {
            let mut h: usize = 0;
            let mut k: usize = 0;
            let mut going = true;
            while going && k < MAX_HEIGHT
                invariant
                    0 <= k <= MAX_HEIGHT,
                    h == k,
                    x < w,
                    w == self.width,
                    n == g.len(),
                    g == self.contents@,
                    self.wf(),
                    self.rows() > MAX_HEIGHT,
                    going ==> run_from(g, w as int, x as int, c, 0) == h + run_from(
                        g,
                        w as int,
                        x as int,
                        c,
                        k as int,
                    ),
                    !going ==> run_from(g, w as int, x as int, c, 0) == h,
                decreases MAX_HEIGHT - k + if going {
                    1int
                } else {
                    0int
                },
            {
                assert((k + 1) * w + x < n) by (nonlinear_arith)
                    requires
                        k + 1 < self.height,
                        x < w,
                        n == w * self.height,
                ;
                let cur = (k + 1) * w + x;
                if self.contents[cur] != c {
                    going = false;
                } else {
                    h = h + 1;
                    k = k + 1;
                }
            }
            let v = if lock {
                h
            } else {
                MAX_HEIGHT - h
            };
            res.push(v);
            proof {
                assert(res@ =~= heights_of(g, w as int).take(x + 1));
            }
            x = x + 1;
        }
        assert(heights_of(g, w as int).take(w as int) =~= heights_of(g, w as int));
        res
    }
}

/// Whether no column of the two height lists, paired in order, sums above
/// the tallest pin.
pub fn compatible_heights(lock_heights: &Vec<usize>, key_heights: &Vec<usize>) -> (r: bool)
    ensures
        r == compatible(lock_heights@, key_heights@),
{
    let mut i: usize = 0;
    while i < lock_heights.len() && i < key_heights.len()
        invariant
            0 <= i <= lock_heights@.len(),
            i <= key_heights@.len(),
            forall|k: int| 0 <= k < i ==> #[trigger] lock_heights@[k] + #[trigger] key_heights@[k] <= MAX_HEIGHT,
        decreases lock_heights@.len() - i,
    {
        let (l, k) = (lock_heights[i], key_heights[i]);
        if l > MAX_HEIGHT || k > MAX_HEIGHT - l {
            return false;
        }
        i = i + 1;
    }
    true
}

/// The pin heights of grid `g`.
pub open spec fn grid_heights(g: CharArray) -> Seq<usize> {
    heights_of(g.cells(), g.cols() as int)
}

/// A schematic that pin heights can be read from.
pub open spec fn schematic(g: CharArray) -> bool {
    g.wf() && g.rows() > MAX_HEIGHT
}

/// The locks among `gs`, in order.
pub open spec fn locks_of(gs: Seq<CharArray>) -> Seq<CharArray>
    decreases gs.len(),
{
    if gs.len() == 0 {
        Seq::empty()
    } else if lock_grid(gs.last().cells(), gs.last().cols() as int) {
        locks_of(gs.drop_last()).push(gs.last())
    } else {
        locks_of(gs.drop_last())
    }
}

/// The keys among `gs`, in order.
pub open spec fn keys_of(gs: Seq<CharArray>) -> Seq<CharArray>
    decreases gs.len(),
{
    if gs.len() == 0 {
        Seq::empty()
    } else if lock_grid(gs.last().cells(), gs.last().cols() as int) {
        keys_of(gs.drop_last())
    } else {
        keys_of(gs.drop_last()).push(gs.last())
    }
}

/// How many of `locks` fit the heights `h`.
pub open spec fn fits_count(h: Seq<usize>, locks: Seq<CharArray>) -> nat
    decreases locks.len(),
{
    if locks.len() == 0 {
        0
    } else {
        fits_count(h, locks.drop_last()) + if compatible(h, grid_heights(locks.last())) {
            1nat
        } else {
            0nat
        }
    }
}

/// How many pairs of a key of `keys` and a lock of `locks` fit together.
pub open spec fn pair_count(keys: Seq<CharArray>, locks: Seq<CharArray>) -> nat
    decreases keys.len(),
{
    if keys.len() == 0 {
        0
    } else {
        pair_count(keys.drop_last(), locks) + fits_count(grid_heights(keys.last()), locks)
    }
}

proof fn lemma_pair_step(keys: Seq<CharArray>, locks: Seq<CharArray>, a: int)
    requires
        0 <= a < keys.len(),
    ensures
        pair_count(keys.take(a + 1), locks) == pair_count(keys.take(a), locks) + fits_count(
            grid_heights(keys[a]),
            locks,
        ),
{
    assert(keys.take(a + 1).drop_last() =~= keys.take(a));
    assert(keys.take(a + 1).last() == keys[a]);
}

/// Schematics sorted into locks and keys.
pub struct Patterns {
    locks: Vec<CharArray>,
    keys: Vec<CharArray>,
}

impl Patterns {
    pub closed spec fn lock_list(&self) -> Seq<CharArray> {
        self.locks@
    }

    pub closed spec fn key_list(&self) -> Seq<CharArray> {
        self.keys@
    }

    pub open spec fn wf(&self) -> bool {
        &&& forall|i: int| 0 <= i < self.lock_list().len() ==> schematic(#[trigger] self.lock_list()[i])
        &&& forall|i: int| 0 <= i < self.key_list().len() ==> schematic(#[trigger] self.key_list()[i])
    }

    /// Sorts `grids` into locks (top row all pins) and keys; fails where a
    /// grid has no more than `MAX_HEIGHT` rows.
    pub fn new(grids: Vec<CharArray>) -> (r: Result<Patterns, GridError>)
        requires
            forall|i: int| 0 <= i < grids@.len() ==> (#[trigger] grids@[i]).wf(),
        ensures
            (forall|i: int| 0 <= i < grids@.len() ==> (#[trigger] grids@[i]).rows() > MAX_HEIGHT)
                ==> r is Ok,
            (exists|i: int| 0 <= i < grids@.len() && (#[trigger] grids@[i]).rows() <= MAX_HEIGHT)
                ==> r == Err::<Patterns, GridError>(GridError::TooShort),
            r matches Ok(p) ==> p.wf() && p.lock_list() == locks_of(grids@) && p.key_list() == keys_of(
                grids@,
            ),
    {
        let mut j: usize = 0;
        while j < grids.len()
            invariant
                0 <= j <= grids@.len(),
                forall|i: int| 0 <= i < j ==> (#[trigger] grids@[i]).rows() > MAX_HEIGHT,
            decreases grids@.len() - j,
        {
            if grids[j].height <= MAX_HEIGHT {
                return Err(GridError::TooShort);
            }
            j = j + 1;
        }
        let mut locks: Vec<CharArray> = Vec::new();
        let mut keys: Vec<CharArray> = Vec::new();
        let ghost all = grids@;
        let total = grids.len();
        let mut rest = grids;
        let mut k: usize = 0;
        assert(all.take(0) =~= Seq::<CharArray>::empty());
        while rest.len() > 0
            invariant
                0 <= k <= all.len(),
                total == all.len(),
                rest@ == all.subrange(k as int, all.len() as int),
                forall|i: int| 0 <= i < all.len() ==> (#[trigger] all[i]).wf(),
                forall|i: int| 0 <= i < all.len() ==> (#[trigger] all[i]).rows() > MAX_HEIGHT,
                locks@ == locks_of(all.take(k as int)),
                keys@ == keys_of(all.take(k as int)),
                forall|i: int| 0 <= i < locks@.len() ==> schematic(#[trigger] locks@[i]),
                forall|i: int| 0 <= i < keys@.len() ==> schematic(#[trigger] keys@[i]),
            decreases rest@.len(),
        {
            let g = rest.remove(0);
            assert(g == all[k as int]);
            let lock = g.is_lock();
            proof {
                assert(all.take(k + 1).drop_last() =~= all.take(k as int));
                assert(all.take(k + 1).last() == g);
                assert(rest@ =~= all.subrange(k + 1, all.len() as int));
            }
            if lock {
                locks.push(g);
            } else {
                keys.push(g);
            }
            k = k + 1;
        }
        assert(all.take(all.len() as int) =~= all);
        Ok(Patterns { locks, keys })
    }

    /// How many locks fit the pin heights `heights`.
    fn fits_for(&self, heights: &Vec<usize>) -> (r: usize)
        requires
            self.wf(),
        ensures
            r == fits_count(heights@, self.lock_list()),
    {
        let ghost locks = self.locks@;
        let mut n: usize = 0;
        let mut b: usize = 0;
        assert(locks.take(0) =~= Seq::<CharArray>::empty());
        while b < self.locks.len()
            invariant
                0 <= b <= locks.len(),
                locks == self.locks@,
                self.wf(),
                n <= b,
                n == fits_count(heights@, locks.take(b as int)),
            decreases locks.len() - b,
        {
            assert(schematic(self.lock_list()[b as int]));
            let other = self.locks[b].pin_heights();
            if compatible_heights(heights, &other) {
                n = n + 1;
            }
            proof {
                assert(locks.take(b + 1).drop_last() =~= locks.take(b as int));
                assert(locks.take(b + 1).last() == locks[b as int]);
            }
            b = b + 1;
        }
        assert(locks.take(locks.len() as int) =~= locks);
        n
    }

    /// How many pairs of a key and a lock fit together, absent where the
    /// count does not fit in a `u64`.
    pub fn fitting_pairs(&self) -> (r: Option<u64>)
        requires
            self.wf(),
        ensures
            r == fit(pair_count(self.key_list(), self.lock_list())),
    {
        let ghost keys = self.keys@;
        let ghost locks = self.locks@;
        let mut res: Option<u64> = Some(0);
        let mut a: usize = 0;
        assert(keys.take(0) =~= Seq::<CharArray>::empty());
        while a < self.keys.len()
            invariant
                0 <= a <= keys.len(),
                keys == self.keys@,
                locks == self.locks@,
                self.wf(),
                res == fit(pair_count(keys.take(a as int), locks)),
            decreases keys.len() - a,
        {
            assert(schematic(self.key_list()[a as int]));
            let heights = self.keys[a].pin_heights();
            let n = self.fits_for(&heights);
            let ghost fc = fits_count(grid_heights(keys[a as int]), locks);
            proof {
                lemma_pair_step(keys, locks, a as int);
                assert(heights@ == grid_heights(keys[a as int]));
                assert(n == fc);
                assert(Some(n as u64) == fit(fc));
            }
            let ghost before = pair_count(keys.take(a as int), locks);
            res = fit_add(res, Some(n as u64));
            assert(res == fit(before + fc));
            a = a + 1;
        }
        assert(keys.take(keys.len() as int) =~= keys);
        res
    }
}

} // verus!
