//! Expanding a key sequence into every tied-optimal button sequence that types
//! it, and splitting a button sequence into runs (one press each).
use vstd::prelude::*;
use crate::keypad::{ACTIVATE, PadView};
use crate::moves::{MoveTable, key_moves, lemma_key_moves_shape, move_like, views};

verus! {

/// Every way to extend each partial choice in `prev` by one of the moves `ms`:
/// first all of `prev` extended by the first move, then by the second, and so on.
pub open spec fn branch(prev: Seq<Seq<Seq<char>>>, ms: Seq<Seq<char>>) -> Seq<Seq<Seq<char>>>
    decreases ms.len(),
{
    if ms.len() == 0 {
        Seq::empty()
    } else {
        branch(prev, ms.drop_last()) + push_all(prev, ms.last())
    }
}

/// Each choice of `cs` extended by the move `m`.
pub open spec fn push_all(cs: Seq<Seq<Seq<char>>>, m: Seq<char>) -> Seq<Seq<Seq<char>>> {
    cs.map_values(|c: Seq<Seq<char>>| c.push(m))
}

/// Each choice of `cs` as one button sequence.
pub open spec fn flat_all(cs: Seq<Seq<Seq<char>>>) -> Seq<Seq<char>> {
    cs.map_values(|c: Seq<Seq<char>>| c.flatten())
}

/// The key on which the pointer rests before key `i` of `keys` is pressed.
pub open spec fn prev_key(keys: Seq<char>, i: int) -> char {
    if i == 0 {
        ACTIVATE
    } else {
        keys[i - 1]
    }
}

/// Every choice of one candidate move per key of `keys`, as the list of moves.
pub open spec fn choices(p: PadView, keys: Seq<char>) -> Seq<Seq<Seq<char>>>
    decreases keys.len(),
{
    if keys.len() == 0 {
        seq![Seq::empty()]
    } else {
        branch(
            choices(p, keys.drop_last()),
            key_moves(p, prev_key(keys, keys.len() - 1), keys.last()),
        )
    }
}

/// Every full button sequence that types `keys` on `p`.
pub open spec fn expansions(p: PadView, keys: Seq<char>) -> Seq<Seq<char>> {
    flat_all(choices(p, keys))
}

/// Every key of `keys` is a functional key of `p`.
pub open spec fn all_keys(p: PadView, keys: Seq<char>) -> bool {
    forall|i: int| 0 <= i < keys.len() ==> p.has_key(#[trigger] keys[i])
}

/// A run: a non-empty sequence whose only activation symbol is its last.
pub open spec fn is_run(s: Seq<char>) -> bool {
    &&& s.len() > 0
    &&& s.last() == ACTIVATE
    &&& forall|k: int| 0 <= k < s.len() - 1 ==> s[k] != ACTIVATE
}

/// `rs` cuts `s` into runs.
pub open spec fn splits(rs: Seq<Seq<char>>, s: Seq<char>) -> bool {
    &&& rs.flatten() == s
    &&& forall|i: int| 0 <= i < rs.len() ==> is_run(#[trigger] rs[i])
}

proof fn lemma_flat_all_add(x: Seq<Seq<Seq<char>>>, y: Seq<Seq<Seq<char>>>)
    ensures
        flat_all(x + y) == flat_all(x) + flat_all(y),
{
    assert(flat_all(x + y) =~= flat_all(x) + flat_all(y));
}

/// The length of `branch(prev, ms)`.
proof fn lemma_branch_len(prev: Seq<Seq<Seq<char>>>, ms: Seq<Seq<char>>)
    ensures
        branch(prev, ms).len() == ms.len() * prev.len(),
    decreases ms.len(),
{
    if ms.len() > 0 {
        lemma_branch_len(prev, ms.drop_last());
        assert(ms.len() * prev.len() == (ms.len() - 1) * prev.len() + prev.len())
            by (nonlinear_arith);
    }
}

/// What each entry of `branch(prev, ms)` is made of.
proof fn lemma_branch_entry(prev: Seq<Seq<Seq<char>>>, ms: Seq<Seq<char>>, q: int)
    requires
        0 <= q < branch(prev, ms).len(),
    ensures
        exists|a: int, b: int|
            0 <= a < ms.len() && 0 <= b < prev.len() && branch(prev, ms)[q] == prev[b].push(
                ms[a],
            ),
    decreases ms.len(),
{
    lemma_branch_len(prev, ms);
    lemma_branch_len(prev, ms.drop_last());
    let front = branch(prev, ms.drop_last());
    if q < front.len() {
        lemma_branch_entry(prev, ms.drop_last(), q);
        let (a, b) = choose|a: int, b: int|
            0 <= a < ms.drop_last().len() && 0 <= b < prev.len() && front[q] == prev[b].push(
                ms.drop_last()[a],
            );
        assert(branch(prev, ms)[q] == prev[b].push(ms[a]));
    } else {
        let b = q - front.len();
        assert(branch(prev, ms)[q] == prev[b].push(ms[ms.len() - 1]));
    }
}

/// Every choice holds one move per key, and there is at least one choice.
pub proof fn lemma_choices_shape(p: PadView, keys: Seq<char>)
    requires
        p.wf(),
        p.has_key(ACTIVATE),
        all_keys(p, keys),
    ensures
        choices(p, keys).len() >= 1,
        forall|q: int|
            0 <= q < choices(p, keys).len() ==> (#[trigger] choices(p, keys)[q]).len()
                == keys.len(),
        forall|q: int, k: int|
            0 <= q < choices(p, keys).len() && 0 <= k < keys.len() ==> move_like(
                #[trigger] choices(p, keys)[q][k],
            ),
    decreases keys.len(),
{
    if keys.len() > 0 {
        let front = keys.drop_last();
        assert(all_keys(p, front)) by {
            assert forall|i: int| 0 <= i < front.len() implies p.has_key(#[trigger] front[i]) by {
                assert(front[i] == keys[i]);
            }
        }
        lemma_choices_shape(p, front);
        let prev = choices(p, front);
        let from = prev_key(keys, keys.len() - 1);
        assert(p.has_key(keys.last()));
        if keys.len() > 1 {
            assert(p.has_key(keys[keys.len() - 2]));
        }
        let ms = key_moves(p, from, keys.last());
        lemma_key_moves_shape(p, from, keys.last());
        lemma_branch_len(prev, ms);
        assert(ms.len() * prev.len() >= 1) by (nonlinear_arith)
            requires
                ms.len() >= 1,
                prev.len() >= 1,
        ;
        let cs = choices(p, keys);
        assert forall|q: int| 0 <= q < cs.len() implies (#[trigger] cs[q]).len() == keys.len()
            && forall|k: int| 0 <= k < keys.len() ==> move_like(#[trigger] cs[q][k]) by {
            lemma_branch_entry(prev, ms, q);
            let (a, b) = choose|a: int, b: int|
                0 <= a < ms.len() && 0 <= b < prev.len() && branch(prev, ms)[q] == prev[b].push(
                    ms[a],
                );
            assert forall|k: int| 0 <= k < keys.len() implies move_like(#[trigger] cs[q][k]) by {
                if k < keys.len() - 1 {
                    assert(cs[q][k] == prev[b][k]);
                } else {
                    assert(cs[q][k] == ms[a]);
                }
            }
        }
    }
}

/// Appends `b` to a copy of `a`.
pub(crate) fn concat(a: &Vec<char>, b: &Vec<char>) -> (r: Vec<char>)
    ensures
        r@ == a@ + b@,
{
    let mut r: Vec<char> = Vec::new();
    let mut i: usize = 0;
    while i < a.len()
        invariant
            0 <= i <= a.len(),
            r@ == a@.take(i as int),
        decreases a.len() - i,
    {
        r.push(a[i]);
        i = i + 1;
        assert(r@ =~= a@.take(i as int));
    }
    let mut j: usize = 0;
    while j < b.len()
        invariant
            0 <= j <= b.len(),
            a@.len() == i,
            r@ == a@ + b@.take(j as int),
        decreases b.len() - j,
    {
        r.push(b[j]);
        j = j + 1;
        assert(r@ =~= a@ + b@.take(j as int));
    }
    assert(a@.take(a@.len() as int) =~= a@);
    assert(b@.take(b@.len() as int) =~= b@);
    r
}

/// Every full button sequence that types `keys` on the table's keypad, starting
/// with the pointer on the activation key.
pub fn expand(keys: &Vec<char>, table: &MoveTable) -> (r: Vec<Vec<char>>)
    requires
        table.wf(),
        table.pad_view().has_key(ACTIVATE),
        all_keys(table.pad_view(), keys@),
    ensures
        views(r@) == expansions(table.pad_view(), keys@),
{
    let ghost p = table.pad_view();
    let mut res: Vec<Vec<char>> = vec![Vec::new()];
    assert(keys@.take(0) =~= Seq::<char>::empty());
    assert(views(res@) =~= expansions(p, keys@.take(0)));
    let mut cur = ACTIVATE;
    let mut i: usize = 0;
    while i < keys.len()
        invariant
            0 <= i <= keys.len(),
            table.wf(),
            p == table.pad_view(),
            p.has_key(ACTIVATE),
            all_keys(p, keys@),
            cur == prev_key(keys@, i as int),
            views(res@) == flat_all(choices(p, keys@.take(i as int))),
        decreases keys.len() - i,
    {
        let k = keys[i];
        let ms = table.lookup(cur, k);
        let ghost prev = choices(p, keys@.take(i as int));
        let ghost mv = views(ms@);
        assert(views(res@).len() == res@.len());
        assert(flat_all(prev).len() == prev.len());
        let mut next: Vec<Vec<char>> = Vec::new();
        let mut a: usize = 0;
        assert(mv.take(0) =~= Seq::<Seq<char>>::empty());
        assert(views(next@) =~= flat_all(branch(prev, mv.take(0))));
        while a < ms.len()
            invariant
                0 <= a <= ms.len(),
                mv == views(ms@),
                prev.len() == res@.len(),
                views(res@) == flat_all(prev),
                views(next@) == flat_all(branch(prev, mv.take(a as int))),
            decreases ms.len() - a,
        {
            let mut b: usize = 0;
            assert(prev.take(0) =~= Seq::<Seq<Seq<char>>>::empty());
            assert(views(next@) =~= flat_all(branch(prev, mv.take(a as int))) + flat_all(push_all(prev.take(0), mv[a as int])));
            while b < res.len()
                invariant
                    0 <= a < ms.len(),
                    0 <= b <= res.len(),
                    mv == views(ms@),
                    prev.len() == res@.len(),
                    views(res@) == flat_all(prev),
                    views(next@) == flat_all(branch(prev, mv.take(a as int))) + flat_all(push_all(prev.take(b as int), mv[a as int])),
                decreases res.len() - b,
            {
                let piece = concat(&res[b], &ms[a]);
                let ghost before = views(next@);
                proof {
                    assert(views(res@)[b as int] == res@[b as int]@);
                    assert(flat_all(prev)[b as int] == prev[b as int].flatten());
                    assert(mv[a as int] == ms@[a as int]@);
                    prev[b as int].lemma_flatten_push(mv[a as int]);
                    assert(piece@ == prev[b as int].push(mv[a as int]).flatten());
                }
                next.push(piece);
                b = b + 1;
                assert(views(next@) =~= before.push(piece@));
                assert(prev.take(b as int) =~= prev.take(b - 1).push(prev[b - 1]));
                assert(flat_all(push_all(prev.take(b as int), mv[a as int])) =~= flat_all(
                    push_all(prev.take(b - 1), mv[a as int]),
                ).push(piece@));
                assert(views(next@) =~= flat_all(branch(prev, mv.take(a as int)))
                    + flat_all(push_all(prev.take(b as int), mv[a as int])));
            }
            proof {
                assert(prev.take(res@.len() as int) =~= prev);
                assert(mv.take(a + 1).drop_last() =~= mv.take(a as int));
                lemma_flat_all_add(branch(prev, mv.take(a as int)), push_all(prev, mv[a as int]));
            }
            a = a + 1;
        }
        proof {
            assert(mv.take(ms@.len() as int) =~= mv);
            assert(keys@.take(i + 1).drop_last() =~= keys@.take(i as int));
            assert(keys@.take(i + 1).last() == k);
            assert(prev_key(keys@.take(i + 1), i as int) == prev_key(keys@, i as int));
        }
        res = next;
        cur = k;
        i = i + 1;
    }
    assert(keys@.take(keys@.len() as int) =~= keys@);
    res
}

/// Cuts a button sequence that ends in a press into its runs.
pub fn split_runs(seq: &Vec<char>) -> (r: Vec<Vec<char>>)
    requires
        seq@.len() == 0 || seq@.last() == ACTIVATE,
    ensures
        splits(views(r@), seq@),
{
    let mut out: Vec<Vec<char>> = Vec::new();
    let mut cur: Vec<char> = Vec::new();
    let mut i: usize = 0;
    assert(seq@.take(0) =~= Seq::<char>::empty());
    assert(views(out@) =~= Seq::<Seq<char>>::empty());
    while i < seq.len()
        invariant
            0 <= i <= seq.len(),
            views(out@).flatten() + cur@ == seq@.take(i as int),
            forall|j: int| 0 <= j < out@.len() ==> is_run(#[trigger] views(out@)[j]),
            forall|k: int| 0 <= k < cur@.len() ==> cur@[k] != ACTIVATE,
            i > 0 && seq@[i - 1] == ACTIVATE ==> cur@.len() == 0,
        decreases seq.len() - i,
    {
        let c = seq[i];
        let ghost done = views(out@);
        cur.push(c);
        assert(seq@.take(i + 1) =~= seq@.take(i as int).push(c));
        assert(done.flatten() + cur@ =~= seq@.take(i + 1));
        if c == ACTIVATE {
            proof {
                done.lemma_flatten_push(cur@);
            }
            out.push(cur);
            cur = Vec::new();
            assert(views(out@) =~= done.push(views(out@).last()));
            assert(views(out@).flatten() + cur@ =~= seq@.take(i + 1));
        }
        i = i + 1;
    }
    assert(seq@.take(seq@.len() as int) =~= seq@);
    assert(cur@ =~= Seq::<char>::empty());
    assert(views(out@).flatten() + cur@ =~= views(out@).flatten());
    out
}

/// A sequence cuts into runs in one way only.
pub proof fn lemma_splits_unique(a: Seq<Seq<char>>, b: Seq<Seq<char>>, s: Seq<char>)
    requires
        splits(a, s),
        splits(b, s),
    ensures
        a == b,
    decreases s.len(),
{
    if a.len() == 0 || b.len() == 0 {
        if a.len() > 0 {
            assert(is_run(a[0]));
            assert(a.flatten() == a[0] + a.drop_first().flatten());
        }
        if b.len() > 0 {
            assert(is_run(b[0]));
            assert(b.flatten() == b[0] + b.drop_first().flatten());
        }
        assert(a =~= b);
    } else {
        let (x, y) = (a[0], b[0]);
        assert(is_run(x) && is_run(y));
        assert(s == x + a.drop_first().flatten());
        assert(s == y + b.drop_first().flatten());
        if x.len() < y.len() {
            assert(y[x.len() - 1] == s[x.len() - 1]);
            assert(false);
        }
        if y.len() < x.len() {
            assert(x[y.len() - 1] == s[y.len() - 1]);
            assert(false);
        }
        assert forall|k: int| 0 <= k < x.len() implies x[k] == y[k] by {
            assert(x[k] == s[k]);
            assert(y[k] == s[k]);
        }
        assert(x =~= y);
        let rest = s.subrange(x.len() as int, s.len() as int);
        assert(a.drop_first().flatten() =~= rest);
        assert(b.drop_first().flatten() =~= rest);
        assert forall|i: int| 0 <= i < a.drop_first().len() implies is_run(
            #[trigger] a.drop_first()[i],
        ) by {
            assert(is_run(a[i + 1]));
        }
        assert forall|i: int| 0 <= i < b.drop_first().len() implies is_run(
            #[trigger] b.drop_first()[i],
        ) by {
            assert(is_run(b[i + 1]));
        }
        lemma_splits_unique(a.drop_first(), b.drop_first(), rest);
        assert forall|i: int| 0 <= i < a.len() implies a[i] == b[i] by {
            if i > 0 {
                assert(a[i] == a.drop_first()[i - 1]);
                assert(b[i] == b.drop_first()[i - 1]);
            }
        }
        assert(a =~= b);
    }
}

} // verus!
