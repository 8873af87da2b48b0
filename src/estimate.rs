//! The cost model: how many presses the operator at the top of a chain of
//! directional keypads makes so that the keypad `depth` levels down types a
//! given sequence, with a memo of the costs already known.
use vstd::prelude::*;
use crate::expand::{
    all_keys, choices, concat, expand, flat_all, is_run, lemma_choices_shape, lemma_splits_unique,
    split_runs, splits,
};
use crate::keypad::{ACTIVATE, DOWN, LEFT, RIGHT, UP, directional_layout, directional_pad};
use crate::moves::{MoveTable, is_dir, move_like, views};

verus! {

/// The fewest presses at the top of the chain that make the directional keypad
/// `depth` levels down type `keys`: at depth zero the operator types them;
/// otherwise the cheapest choice of moves one level up, each move costed at one
/// level less.
pub open spec fn cost(keys: Seq<char>, depth: nat) -> nat
    decreases depth, 0nat, 0nat,
{
    if depth == 0 {
        keys.len()
    } else {
        min_total(choices(directional_pad(), keys), (depth - 1) as nat)
    }
}

/// The cheapest of the choices `cs`, each a list of runs costed at `depth`.
pub open spec fn min_total(cs: Seq<Seq<Seq<char>>>, depth: nat) -> nat
    decreases depth, 2nat, cs.len(),
{
    if cs.len() == 0 {
        0
    } else if cs.len() == 1 {
        total(cs[0], depth)
    } else {
        min_nat(min_total(cs.drop_last(), depth), total(cs.last(), depth))
    }
}

/// The summed cost of the runs `runs` at `depth`.
pub open spec fn total(runs: Seq<Seq<char>>, depth: nat) -> nat
    decreases depth, 1nat, runs.len(),
{
    if runs.len() == 0 {
        0
    } else {
        total(runs.drop_last(), depth) + cost(runs.last(), depth)
    }
}

pub open spec fn min_nat(a: nat, b: nat) -> nat {
    if a <= b {
        a
    } else {
        b
    }
}

/// `n` as a `u64`, where it fits.
pub open spec fn fit(n: nat) -> Option<u64> {
    if n <= u64::MAX {
        Some(n as u64)
    } else {
        None
    }
}

/// The smaller of two counts, an absent one standing for one too large to hold.
fn fit_min(a: Option<u64>, b: Option<u64>) -> (r: Option<u64>)
    ensures
        forall|m: nat, n: nat| #![trigger fit(m), fit(n)] a == fit(m) && b == fit(n) ==> r == fit(min_nat(m, n)),
{
    match (a, b) {
        (Some(x), Some(y)) => if x <= y {
            Some(x)
        } else {
            Some(y)
        },
        (Some(x), None) => Some(x),
        (None, Some(y)) => Some(y),
        (None, None) => None,
    }
}

/// The sum of two counts, absent where it does not fit.
pub(crate) fn fit_add(a: Option<u64>, b: Option<u64>) -> (r: Option<u64>)
    ensures
        forall|m: nat, n: nat| #![trigger fit(m), fit(n)] a == fit(m) && b == fit(n) ==> r == fit(m + n),
{
    match (a, b) {
        (Some(x), Some(y)) => x.checked_add(y),
        _ => None,
    }
}

/// The symbols of the directional keypad are its functional keys.
pub proof fn lemma_dir_keys()
    ensures
        forall|c: char|
            is_dir(c) || c == ACTIVATE ==> #[trigger] directional_pad().has_key(c),
{
    let l = directional_layout();
    assert(l[1] == UP && l[2] == ACTIVATE && l[3] == LEFT && l[4] == DOWN && l[5] == RIGHT);
    assert(l.contains(UP) && l.contains(ACTIVATE) && l.contains(LEFT) && l.contains(DOWN)
        && l.contains(RIGHT));
}

/// A move is a run, and its symbols are keys of the directional keypad.
proof fn lemma_move_is_run(m: Seq<char>)
    requires
        move_like(m),
    ensures
        is_run(m),
        all_keys(directional_pad(), m),
{
    lemma_dir_keys();
    assert forall|i: int| 0 <= i < m.len() implies directional_pad().has_key(#[trigger] m[i]) by {
        if i < m.len() - 1 {
            assert(is_dir(m[i]));
        }
    }
}

/// A list of moves cuts its concatenation into runs, which ends in a press.
proof fn lemma_moves_split(c: Seq<Seq<char>>)
    requires
        forall|k: int| 0 <= k < c.len() ==> move_like(#[trigger] c[k]),
    ensures
        splits(c, c.flatten()),
        c.flatten().len() == 0 || c.flatten().last() == ACTIVATE,
{
    assert forall|k: int| 0 <= k < c.len() implies is_run(#[trigger] c[k]) by {
        lemma_move_is_run(c[k]);
    }
    if c.len() > 0 {
        assert(c =~= c.drop_last().push(c.last()));
        c.drop_last().lemma_flatten_push(c.last());
        assert(move_like(c[c.len() - 1]));
    }
}

proof fn lemma_total_step(rs: Seq<Seq<char>>, b: int, depth: nat)
    requires
        0 <= b < rs.len(),
    ensures
        total(rs.take(b + 1), depth) == total(rs.take(b), depth) + cost(rs[b], depth),
{
    assert(rs.take(b + 1).drop_last() =~= rs.take(b));
    assert(rs.take(b + 1).last() == rs[b]);
}

proof fn lemma_min_total_step(cs: Seq<Seq<Seq<char>>>, a: int, depth: nat)
    requires
        0 <= a < cs.len(),
    ensures
        a == 0 ==> min_total(cs.take(a + 1), depth) == total(cs[a], depth),
        a > 0 ==> min_total(cs.take(a + 1), depth) == min_nat(
            min_total(cs.take(a), depth),
            total(cs[a], depth),
        ),
{
    assert(cs.take(a + 1).drop_last() =~= cs.take(a));
    assert(cs.take(a + 1).last() == cs[a]);
    assert(cs.take(a + 1)[0] == cs[0]);
}

/// One remembered cost.
struct Entry {
    keys: Vec<char>,
    depth: usize,
    cost: u64,
}

/// The costs already computed, by sequence and depth; entries are only added.
pub struct Memo {
    entries: Vec<Entry>,
    hits: u64,
}

/// Whether two sequences are equal.
fn same_keys(a: &Vec<char>, b: &Vec<char>) -> (r: bool)
    ensures
        r == (a@ == b@),
{
    if a.len() != b.len() {
        return false;
    }
    let mut i: usize = 0;
    while i < a.len()
        invariant
            0 <= i <= a.len(),
            a@.len() == b@.len(),
            forall|k: int| 0 <= k < i ==> a@[k] == b@[k],
        decreases a.len() - i,
    {
        if a[i] != b[i] {
            return false;
        }
        i = i + 1;
    }
    assert(a@ =~= b@);
    true
}

impl View for Memo {
    /// The known costs: each remembered key, with its cost.
    type V = Map<(Seq<char>, nat), nat>;

    closed spec fn view(&self) -> Map<(Seq<char>, nat), nat> {
        Map::new(|k: (Seq<char>, nat)| self.holds(k), |k: (Seq<char>, nat)| cost(k.0, k.1))
    }
}

impl Memo {
    closed spec fn holds(&self, k: (Seq<char>, nat)) -> bool {
        exists|i: int|
            0 <= i < self.entries@.len() && (#[trigger] self.entries@[i]).keys@ == k.0
                && self.entries@[i].depth == k.1
    }

    /// Every remembered cost is the cost of its key.
    pub closed spec fn wf(&self) -> bool {
        forall|i: int|
            0 <= i < self.entries@.len() ==> (#[trigger] self.entries@[i]).cost as nat == cost(
                self.entries@[i].keys@,
                self.entries@[i].depth as nat,
            )
    }

    /// Number of remembered costs.
    pub closed spec fn entry_count(&self) -> nat {
        self.entries@.len()
    }

    /// How many lookups found their key.
    pub closed spec fn hit_count(&self) -> nat {
        self.hits as nat
    }

    /// An empty memo.
    pub fn new() -> (r: Memo)
        ensures
            r.wf(),
            r@ == Map::<(Seq<char>, nat), nat>::empty(),
            r.hit_count() == 0,
    {
        let r = Memo { entries: Vec::new(), hits: 0 };
        assert(r@ =~= Map::<(Seq<char>, nat), nat>::empty());
        r
    }

    /// Number of remembered costs.
    pub fn len(&self) -> (r: usize)
        ensures
            r == self.entry_count(),
    {
        self.entries.len()
    }

    /// How many lookups found their key.
    pub fn hits(&self) -> (r: u64)
        ensures
            r == self.hit_count(),
    {
        self.hits
    }

    /// The remembered cost of `keys` at `depth`, counting a hit where it is found.
    pub fn lookup(&mut self, keys: &Vec<char>, depth: usize) -> (r: Option<u64>)
        requires
            old(self).wf(),
        ensures
            final(self).wf(),
            final(self)@ == old(self)@,
            old(self)@.contains_key((keys@, depth as nat)) ==> r == Some(
                cost(keys@, depth as nat) as u64,
            ) && cost(keys@, depth as nat) <= u64::MAX,
            !old(self)@.contains_key((keys@, depth as nat)) ==> r is None,
            r is Some ==> final(self).hit_count() == if old(self).hit_count() < u64::MAX {
                old(self).hit_count() + 1
            } else {
                old(self).hit_count()
            },
            r is None ==> final(self).hit_count() == old(self).hit_count(),
    {
        let mut i: usize = 0;
        while i < self.entries.len()
            invariant
                0 <= i <= self.entries@.len(),
                self.entries@ == old(self).entries@,
                self.hits == old(self).hits,
                self.wf(),
                forall|k: int|
                    0 <= k < i ==> !((#[trigger] self.entries@[k]).keys@ == keys@
                        && self.entries@[k].depth == depth),
            decreases self.entries.len() - i,
        {
            let e = &self.entries[i];
            if e.depth == depth && same_keys(&e.keys, keys) {
                let c = e.cost;
                assert(self.holds((keys@, depth as nat)));
                if self.hits < u64::MAX {
                    self.hits = self.hits + 1;
                }
                assert(self@ =~= old(self)@);
                return Some(c);
            }
            i = i + 1;
        }
        None
    }

    /// Remembers that `keys` costs `c` at `depth`.
    pub fn insert(&mut self, keys: &Vec<char>, depth: usize, c: u64)
        requires
            old(self).wf(),
            c as nat == cost(keys@, depth as nat),
        ensures
            final(self).wf(),
            final(self)@ == old(self)@.insert((keys@, depth as nat), c as nat),
            final(self).hit_count() == old(self).hit_count(),
    {
        let copy = concat(keys, &Vec::new());
        assert(copy@ =~= keys@);
        let ghost before = self.entries@;
        self.entries.push(Entry { keys: copy, depth, cost: c });
        assert forall|k: (Seq<char>, nat)| #[trigger] self.holds(k) == (old(self).holds(k) || k == (
            keys@,
            depth as nat,
        )) by {
            if old(self).holds(k) {
                let i = choose|i: int|
                    0 <= i < before.len() && (#[trigger] before[i]).keys@ == k.0 && before[i].depth
                        == k.1;
                assert(self.entries@[i] == before[i]);
            }
            if k == (keys@, depth as nat) {
                assert(self.entries@[before.len() as int].keys@ == keys@);
            }
            if self.holds(k) {
                let i = choose|i: int|
                    0 <= i < self.entries@.len() && (#[trigger] self.entries@[i]).keys@ == k.0
                        && self.entries@[i].depth == k.1;
                if i < before.len() {
                    assert(self.entries@[i] == before[i]);
                }
            }
        }
        assert(self@ =~= old(self)@.insert((keys@, depth as nat), c as nat));
    }
}

/// The summed cost of `runs` at `depth`, absent where it does not fit.
fn sum_runs(runs: &Vec<Vec<char>>, depth: usize, table: &MoveTable, memo: &mut Memo) -> (r: Option<
    u64,
>)
    requires
        table.wf(),
        table.pad_view() == directional_pad(),
        forall|k: int| 0 <= k < runs@.len() ==> all_keys(directional_pad(), #[trigger] runs@[k]@),
        old(memo).wf(),
    ensures
        final(memo).wf(),
        old(memo)@.submap_of(final(memo)@),
        r == fit(total(views(runs@), depth as nat)),
    decreases depth, 1nat,
{
    let ghost rs = views(runs@);
    let mut acc: Option<u64> = Some(0);
    let mut b: usize = 0;
    assert(rs.take(0) =~= Seq::<Seq<char>>::empty());
    while b < runs.len()
        invariant
            0 <= b <= runs@.len(),
            rs == views(runs@),
            table.wf(),
            table.pad_view() == directional_pad(),
            forall|k: int| 0 <= k < runs@.len() ==> all_keys(directional_pad(), #[trigger] runs@[k]@),
            memo.wf(),
            old(memo)@.submap_of(memo@),
            acc == fit(total(rs.take(b as int), depth as nat)),
        decreases runs@.len() - b,
    {
        let ghost mid = memo@;
        let c = estimate(&runs[b], depth, table, memo);
        proof {
            vstd::map_lib::lemma_submap_of_trans(old(memo)@, mid, memo@);
            assert(rs[b as int] == runs@[b as int]@);
            lemma_total_step(rs, b as int, depth as nat);
        }
        acc = fit_add(acc, c);
        b = b + 1;
    }
    assert(rs.take(runs@.len() as int) =~= rs);
    acc
}

/// The cheapest of the button sequences `exps`, each cut into its runs and
/// costed at `depth`, where `cs` lists the moves that make up each of them.
pub(crate) fn cheapest(
    exps: &Vec<Vec<char>>,
    depth: usize,
    table: &MoveTable,
    memo: &mut Memo,
    Ghost(cs): Ghost<Seq<Seq<Seq<char>>>>,
) -> (r: Option<u64>)
    requires
        table.wf(),
        table.pad_view() == directional_pad(),
        old(memo).wf(),
        views(exps@) == flat_all(cs),
        cs.len() >= 1,
        forall|q: int, k: int|
            0 <= q < cs.len() && 0 <= k < cs[q].len() ==> move_like(#[trigger] cs[q][k]),
    ensures
        final(memo).wf(),
        old(memo)@.submap_of(final(memo)@),
        r == fit(min_total(cs, depth as nat)),
    decreases depth, 2nat,
{
    assert(views(exps@).len() == exps@.len());
    assert(flat_all(cs).len() == cs.len());
    let mut best: Option<u64> = None;
    let mut a: usize = 0;
    while a < exps.len()
        invariant
            0 <= a <= exps@.len(),
            table.wf(),
            table.pad_view() == directional_pad(),
            memo.wf(),
            old(memo)@.submap_of(memo@),
            views(exps@) == flat_all(cs),
            exps@.len() == cs.len(),
            forall|q: int, k: int|
                0 <= q < cs.len() && 0 <= k < cs[q].len() ==> move_like(#[trigger] cs[q][k]),
            a > 0 ==> best == fit(min_total(cs.take(a as int), depth as nat)),
        decreases exps@.len() - a,
    {
        proof {
            let c = cs[a as int];
            assert forall|k: int| 0 <= k < c.len() implies move_like(#[trigger] c[k]) by {
                assert(move_like(cs[a as int][k]));
            }
            lemma_moves_split(c);
            assert(exps@[a as int]@ == views(exps@)[a as int]);
            assert(flat_all(cs)[a as int] == c.flatten());
        }
        let runs = split_runs(&exps[a]);
        proof {
            let c = cs[a as int];
            lemma_splits_unique(views(runs@), c, exps@[a as int]@);
            assert forall|k: int| 0 <= k < runs@.len() implies all_keys(
                directional_pad(),
                #[trigger] runs@[k]@,
            ) by {
                assert(runs@[k]@ == views(runs@)[k]);
                lemma_move_is_run(c[k]);
            }
        }
        let ghost mid = memo@;
        let t = sum_runs(&runs, depth, table, memo);
        proof {
            vstd::map_lib::lemma_submap_of_trans(old(memo)@, mid, memo@);
            lemma_min_total_step(cs, a as int, depth as nat);
        }
        if a == 0 {
            best = t;
        } else {
            best = fit_min(best, t);
        }
        a = a + 1;
    }
    assert(cs.take(cs.len() as int) =~= cs);
    best
}

/// The fewest presses at the top of the chain that make the directional keypad
/// `depth` levels down type `keys`, absent where the count does not fit in a
/// `u64`. Costs already in `memo` are reused; those computed are added to it.
pub fn estimate(keys: &Vec<char>, depth: usize, table: &MoveTable, memo: &mut Memo) -> (r: Option<
    u64,
>)
    requires
        table.wf(),
        table.pad_view() == directional_pad(),
        all_keys(directional_pad(), keys@),
        old(memo).wf(),
    ensures
        final(memo).wf(),
        old(memo)@.submap_of(final(memo)@),
        r == fit(cost(keys@, depth as nat)),
        depth == 0 ==> r == Some(keys@.len() as u64),
        r is Some ==> final(memo)@.contains_key((keys@, depth as nat)),
        old(memo)@.contains_key((keys@, depth as nat)) ==> final(memo)@ == old(memo)@,
    decreases depth, 0nat,
{
    let known = memo.lookup(keys, depth);
    if known.is_some() {
        return known;
    }
    if depth == 0 {
        let c = keys.len() as u64;
        memo.insert(keys, 0, c);
        return Some(c);
    }
    let ghost cs = choices(directional_pad(), keys@);
    proof {
        lemma_dir_keys();
        lemma_choices_shape(directional_pad(), keys@);
    }
    let exps = expand(keys, table);
    let ghost mid = memo@;
    let best = cheapest(&exps, depth - 1, table, memo, Ghost(cs));
    proof {
        vstd::map_lib::lemma_submap_of_trans(old(memo)@, mid, memo@);
    }
    if best.is_some() {
        let ghost mid = memo@;
        memo.insert(keys, depth, best.unwrap());
        assert(memo@.contains_key((keys@, depth as nat)));
        proof {
            vstd::map_lib::lemma_submap_of_trans(old(memo)@, mid, memo@);
        }
    }
    best
}

/// At depth zero the operator types the sequence itself.
pub proof fn law_depth_zero(keys: Seq<char>)
    ensures
        cost(keys, 0) == keys.len(),
{
}

proof fn lemma_total_ge_len(c: Seq<Seq<char>>)
    requires
        forall|k: int| 0 <= k < c.len() ==> (#[trigger] c[k]).len() >= 1,
    ensures
        total(c, 0) >= c.len(),
    decreases c.len(),
{
    if c.len() > 0 {
        let front = c.drop_last();
        assert forall|k: int| 0 <= k < front.len() implies (#[trigger] front[k]).len() >= 1 by {
            assert(front[k] == c[k]);
        }
        lemma_total_ge_len(front);
        assert(c.last().len() >= 1);
        assert(cost(c.last(), 0) == c.last().len());
    }
}

proof fn lemma_min_total_lower(cs: Seq<Seq<Seq<char>>>, depth: nat, low: nat)
    requires
        cs.len() >= 1,
        forall|q: int| 0 <= q < cs.len() ==> total(#[trigger] cs[q], depth) >= low,
    ensures
        min_total(cs, depth) >= low,
    decreases cs.len(),
{
    if cs.len() > 1 {
        lemma_min_total_lower(cs.drop_last(), depth, low);
    }
}

proof fn lemma_min_total_mono(cs: Seq<Seq<Seq<char>>>, lo: nat, hi: nat)
    requires
        forall|q: int| 0 <= q < cs.len() ==> total(#[trigger] cs[q], hi) >= total(cs[q], lo),
    ensures
        min_total(cs, hi) >= min_total(cs, lo),
    decreases cs.len(),
{
    if cs.len() > 1 {
        lemma_min_total_mono(cs.drop_last(), lo, hi);
    }
}

proof fn lemma_total_mono(c: Seq<Seq<char>>, depth: nat)
    requires
        forall|k: int| 0 <= k < c.len() ==> all_keys(directional_pad(), #[trigger] c[k]),
    ensures
        total(c, depth + 1) >= total(c, depth),
    decreases depth, 1nat, c.len(),
{
    if c.len() > 0 {
        lemma_total_mono(c.drop_last(), depth);
        law_monotone(c.last(), depth);
    }
}

/// One more level of indirection never makes a sequence cheaper to type.
pub proof fn law_monotone(keys: Seq<char>, depth: nat)
    requires
        all_keys(directional_pad(), keys),
    ensures
        cost(keys, depth + 1) >= cost(keys, depth),
    decreases depth, 0nat, 0nat,
{
    let p = directional_pad();
    let cs = choices(p, keys);
    crate::paths::lemma_pads_wf();
    lemma_dir_keys();
    lemma_choices_shape(p, keys);
    assert forall|q: int, k: int| 0 <= q < cs.len() && 0 <= k < cs[q].len() implies all_keys(
        p,
        #[trigger] cs[q][k],
    ) && cs[q][k].len() >= 1 by {
        lemma_move_is_run(cs[q][k]);
    }
    if depth == 0 {
        assert forall|q: int| 0 <= q < cs.len() implies total(#[trigger] cs[q], 0) >= keys.len() by {
            let c = cs[q];
            assert forall|k: int| 0 <= k < c.len() implies (#[trigger] c[k]).len() >= 1 by {
                assert(cs[q][k].len() >= 1);
            }
            lemma_total_ge_len(c);
        }
        lemma_min_total_lower(cs, 0, keys.len());
    } else {
        let d = (depth - 1) as nat;
        assert forall|q: int| 0 <= q < cs.len() implies total(#[trigger] cs[q], d + 1) >= total(
            cs[q],
            d,
        ) by {
            let c = cs[q];
            assert forall|k: int| 0 <= k < c.len() implies all_keys(p, #[trigger] c[k]) by {
                assert(all_keys(p, cs[q][k]));
            }
            lemma_total_mono(c, d);
        }
        lemma_min_total_mono(cs, d, d + 1);
        assert(d + 1 == depth);
    }
}

/// Asking twice for the cost of one sequence at one depth gives one answer, and
/// the entries that the memo held keep their costs: a memo only ever grows.
pub proof fn law_estimate_repeatable(
    keys: Seq<char>,
    depth: nat,
    first: Option<u64>,
    second: Option<u64>,
    before: Map<(Seq<char>, nat), nat>,
    between: Map<(Seq<char>, nat), nat>,
    after: Map<(Seq<char>, nat), nat>,
)
    requires
        first == fit(cost(keys, depth)),
        second == fit(cost(keys, depth)),
        before.submap_of(between),
        between.submap_of(after),
    ensures
        first == second,
        forall|k: (Seq<char>, nat)| #[trigger]
            before.contains_key(k) ==> after.contains_key(k) && after[k] == before[k],
{
    vstd::map_lib::lemma_submap_of_trans(before, between, after);
    assert forall|k: (Seq<char>, nat)| #[trigger] before.contains_key(k) implies after.contains_key(
        k,
    ) && after[k] == before[k] by {
        assert(before.dom().contains(k));
    }
}

} // verus!
