//! The orchestration: each code's chain length, weighed by its numeric value
//! and summed over a list of codes, with one memo shared by every request.
use vstd::prelude::*;
use crate::code::{Code, chain_cost, digits_value};
use crate::estimate::{Memo, cheapest, fit, fit_add, lemma_dir_keys};
use crate::expand::{choices, expand, lemma_choices_shape};
use crate::keypad::{ACTIVATE, Keypad, directional_pad, numeric_layout, numeric_pad};
use crate::moves::MoveTable;

verus! {

/// The sum over `codes` of each code's numeric value times its chain length
/// at `depth`.
pub open spec fn complexity(codes: Seq<Code>, depth: nat) -> nat
    decreases codes.len(),
{
    if codes.len() == 0 {
        0
    } else {
        complexity(codes.drop_last(), depth) + digits_value(codes.last().keys_view()) * chain_cost(
            codes.last().keys_view(),
            depth,
        )
    }
}

pub open spec fn all_wf(codes: Seq<Code>) -> bool {
    forall|i: int| 0 <= i < codes.len() ==> (#[trigger] codes[i]).wf()
}

/// `v` times a count, absent where the product does not fit.
fn fit_mul(v: u64, c: Option<u64>) -> (r: Option<u64>)
    ensures
        forall|n: nat| #![trigger fit(n)] c == fit(n) ==> r == fit(v as nat * n),
{
    if v == 0 {
        assert forall|n: nat| #![trigger fit(n)] c == fit(n) implies Some(0u64) == fit(v as nat * n) by {
            assert(v * n == 0);
        }
        return Some(0);
    }
    match c {
        None => {
            assert forall|n: nat| #![trigger fit(n)] c == fit(n) implies None::<u64> == fit(
                v as nat * n,
            ) by {
                assert(v * n >= n) by (nonlinear_arith)
                    requires
                        v >= 1,
                ;
            }
            None
        },
        Some(x) => v.checked_mul(x),
    }
}

/// The numeric keypad has the activation key.
proof fn lemma_numeric_activate()
    ensures
        numeric_pad().has_key(ACTIVATE),
{
    assert(numeric_layout()[11] == ACTIVATE);
}

/// The move tables of both keypads and the memo of known costs.
pub struct Chain {
    numeric: MoveTable,
    directional: MoveTable,
    memo: Memo,
}

impl Chain {
    pub closed spec fn wf(&self) -> bool {
        &&& self.numeric.wf()
        &&& self.numeric.pad_view() == numeric_pad()
        &&& self.directional.wf()
        &&& self.directional.pad_view() == directional_pad()
        &&& self.memo.wf()
    }

    /// The costs that the memo holds.
    pub closed spec fn known(&self) -> Map<(Seq<char>, nat), nat> {
        self.memo@
    }

    /// How many lookups in the memo found their key.
    pub closed spec fn hit_count(&self) -> nat {
        self.memo.hit_count()
    }

    /// Both move tables, and an empty memo.
    pub fn new() -> (r: Chain)
        ensures
            r.wf(),
            r.known() == Map::<(Seq<char>, nat), nat>::empty(),
            r.hit_count() == 0,
    {
        Chain {
            numeric: MoveTable::build(Keypad::numeric()),
            directional: MoveTable::build(Keypad::directional()),
            memo: Memo::new(),
        }
    }

    /// How many lookups in the memo found their key.
    pub fn hits(&self) -> (r: u64)
        ensures
            r == self.hit_count(),
    {
        self.memo.hits()
    }

    /// The fewest presses at the top of the chain that type `code` on the
    /// numeric keypad, with `depth` levels of directional keypads between the
    /// operator and the one that steers the numeric keypad; absent where the
    /// count does not fit in a `u64`.
    pub fn chain_length(&mut self, code: &Code, depth: usize) -> (r: Option<u64>)
        requires
            old(self).wf(),
            code.wf(),
        ensures
            final(self).wf(),
            old(self).known().submap_of(final(self).known()),
            r == fit(chain_cost(code.keys_view(), depth as nat)),
    {
        let keys = code.keys();
        let ghost cs = choices(numeric_pad(), keys@);
        proof {
            lemma_numeric_activate();
            lemma_dir_keys();
            lemma_choices_shape(numeric_pad(), keys@);
        }
        let exps = expand(keys, &self.numeric);
        cheapest(&exps, depth, &self.directional, &mut self.memo, Ghost(cs))
    }

    /// The sum over `codes` of each code's numeric value times its chain
    /// length at `depth`; absent where it does not fit in a `u64`.
    pub fn complexity(&mut self, codes: &Vec<Code>, depth: usize) -> (r: Option<u64>)
        requires
            old(self).wf(),
            all_wf(codes@),
        ensures
            final(self).wf(),
            old(self).known().submap_of(final(self).known()),
            r == fit(complexity(codes@, depth as nat)),
    {
        let mut acc: Option<u64> = Some(0);
        let mut i: usize = 0;
        assert(codes@.take(0) =~= Seq::<Code>::empty());
        while i < codes.len()
            invariant
                0 <= i <= codes@.len(),
                all_wf(codes@),
                self.wf(),
                old(self).known().submap_of(self.known()),
                acc == fit(complexity(codes@.take(i as int), depth as nat)),
            decreases codes@.len() - i,
        {
            let code = &codes[i];
            assert(code.wf());
            let ghost mid = self.known();
            let len = self.chain_length(code, depth);
            proof {
                vstd::map_lib::lemma_submap_of_trans(old(self).known(), mid, self.known());
                assert(codes@.take(i + 1).drop_last() =~= codes@.take(i as int));
                assert(codes@.take(i + 1).last() == code);
            }
            let part = fit_mul(code.num_part(), len);
            acc = fit_add(acc, part);
            i = i + 1;
        }
        assert(codes@.take(codes@.len() as int) =~= codes@);
        acc
    }
}

/// The sum over `codes` of each code's numeric value times its chain length at
/// `max_depth`, computed with a fresh memo; absent where it does not fit.
pub fn complexities(codes: &Vec<Code>, max_depth: usize) -> (r: Option<u64>)
    requires
        all_wf(codes@),
    ensures
        r == fit(complexity(codes@, max_depth as nat)),
{
    let mut chain = Chain::new();
    chain.complexity(codes, max_depth)
}

/// The totals at a shallow and at a deep chain depth, computed with one memo
/// that the deep pass takes over from the shallow one.
pub fn complexity_totals(codes: &Vec<Code>, shallow: usize, deep: usize) -> (r: (
    Option<u64>,
    Option<u64>,
))
    requires
        all_wf(codes@),
    ensures
        r.0 == fit(complexity(codes@, shallow as nat)),
        r.1 == fit(complexity(codes@, deep as nat)),
{
    let mut chain = Chain::new();
    let first = chain.complexity(codes, shallow);
    let second = chain.complexity(codes, deep);
    (first, second)
}

} // verus!
