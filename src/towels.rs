//! Towel designs: in how many ways a design, a string of stripe colours, is
//! the concatenation of available towel patterns, found with a trie of the
//! patterns.
use vstd::prelude::*;
use crate::estimate::{fit, fit_add};

verus! {

/// The stripe colour with trie index `c`: white, blue, black, red, green.
pub open spec fn letter(c: int) -> u8 {
    if c == 0 {
        'u' as u8
    } else if c == 1 {
        'b' as u8
    } else if c == 2 {
        'w' as u8
    } else if c == 3 {
        'r' as u8
    } else {
        'g' as u8
    }
}

pub open spec fn is_stripe(b: u8) -> bool {
    exists|c: int| 0 <= c < 5 && letter(c) == b
}

pub open spec fn all_stripes(s: Seq<u8>) -> bool {
    forall|i: int| 0 <= i < s.len() ==> is_stripe(#[trigger] s[i])
}

/// `a` is a prefix of `b`.
pub open spec fn is_prefix(a: Seq<u8>, b: Seq<u8>) -> bool {
    a.len() <= b.len() && b.take(a.len() as int) == a
}

/// The number of ways to cut the first `e` stripes of `d` into patterns.
pub open spec fn ways(pats: Seq<Seq<u8>>, d: Seq<u8>, e: int) -> nat
    decreases e, 1int, 0int,
{
    if e <= 0 {
        1
    } else {
        partial(pats, d, e, e)
    }
}

/// The ways to cut the first `e` stripes of `d` whose last piece starts
/// before `s`.
pub open spec fn partial(pats: Seq<Seq<u8>>, d: Seq<u8>, e: int, s: int) -> nat
    decreases e, 0int, s,
{
    if s <= 0 {
        0
    } else {
        partial(pats, d, e, s - 1) + if 0 <= s - 1 < e && pats.contains(d.subrange(s - 1, e)) {
            ways(pats, d, s - 1)
        } else {
            0
        }
    }
}

/// The number of designs of `ds` that can be made at all.
pub open spec fn possible_count(pats: Seq<Seq<u8>>, ds: Seq<Seq<u8>>) -> nat
    decreases ds.len(),
{
    if ds.len() == 0 {
        0
    } else {
        possible_count(pats, ds.drop_last()) + if ways(pats, ds.last(), ds.last().len() as int)
            > 0 {
            1nat
        } else {
            0nat
        }
    }
}

/// The number of ways summed over the designs of `ds`.
pub open spec fn total_ways(pats: Seq<Seq<u8>>, ds: Seq<Seq<u8>>) -> nat
    decreases ds.len(),
{
    if ds.len() == 0 {
        0
    } else {
        total_ways(pats, ds.drop_last()) + ways(pats, ds.last(), ds.last().len() as int)
    }
}

/// The trie index of a stripe colour.
pub fn char_to_index(c: u8) -> (r: usize)
    requires
        is_stripe(c),
    ensures
        r < 5,
        letter(r as int) == c,
{
    if c == 'u' as u8 {
        0
    } else if c == 'b' as u8 {
        1
    } else if c == 'w' as u8 {
        2
    } else if c == 'r' as u8 {
        3
    } else {
        4
    }
}

/// A trie node: its child for each colour (0 for none), and whether the
/// stripes that lead to it make a pattern.
#[derive(Clone, Copy)]
pub struct Node {
    next: [usize; 5],
    valid: bool,
}

impl Node {
    pub closed spec fn children(&self) -> Seq<usize> {
        self.next@
    }

    pub closed spec fn ends_pattern(&self) -> bool {
        self.valid
    }

    /// A node with no child that ends no pattern.
    pub fn new() -> (r: Node)
        ensures
            r.children() == seq![0usize, 0, 0, 0, 0],
            !r.ends_pattern(),
    {
        let r = Node { next: [0, 0, 0, 0, 0], valid: false };
        assert(r.next@ =~= seq![0usize, 0, 0, 0, 0]);
        r
    }
}

/// The trie `nodes`, whose node `i` is reached by the stripes `words[i]`,
/// holds the patterns `pats` and the prefix `extra` of one more.
pub closed spec fn trie_wf(
    nodes: Seq<Node>,
    words: Seq<Seq<u8>>,
    pats: Seq<Seq<u8>>,
    extra: Seq<u8>,
) -> bool {
    &&& nodes.len() == words.len()
    &&& nodes.len() >= 1
    &&& words[0] == Seq::<u8>::empty()
    &&& forall|i: int, c: int|
        0 <= i < nodes.len() && 0 <= c < 5 ==> {
            let j = #[trigger] nodes[i].next@[c];
            j == 0 || (0 < j < nodes.len() && words[j as int] == words[i].push(letter(c)))
        }
    &&& forall|i: int, c: int|
        0 <= i < nodes.len() && 0 <= c < 5 && #[trigger] nodes[i].next@[c] == 0 ==> {
            &&& forall|m: int|
                0 <= m < pats.len() ==> !is_prefix(words[i].push(letter(c)), #[trigger] pats[m])
            &&& !is_prefix(words[i].push(letter(c)), extra)
        }
    &&& forall|i: int| 0 <= i < nodes.len() ==> (#[trigger] nodes[i].valid <==> pats.contains(words[i]))
    &&& forall|i: int, k: int|
        0 <= i < nodes.len() && 0 <= k < nodes.len() && #[trigger] words[i] == #[trigger] words[k]
            ==> i == k
    &&& forall|k: int|
        0 <= k < nodes.len() ==> is_prefix(#[trigger] words[k], extra) || exists|m: int|
            0 <= m < pats.len() && is_prefix(words[k], #[trigger] pats[m])
}

/// Why towels cannot be set up.
#[derive(Debug, Clone, Copy, PartialEq, Eq, Structural)]
pub enum TowelError {
    /// A byte that is no stripe colour.
    UnknownStripe,
    /// A design too long to count the ways for.
    DesignTooLong,
}

/// The available patterns, kept in a trie, and the designs to make.
pub struct Towels {
    patterns: Vec<Node>,
    designs: Vec<Vec<u8>>,
    words: Ghost<Seq<Seq<u8>>>,
    pats: Ghost<Seq<Seq<u8>>>,
}

/// A trie holding no pattern.
fn empty_trie() -> (r: (Vec<Node>, Ghost<Seq<Seq<u8>>>))
    ensures
        trie_wf(r.0@, r.1@, Seq::empty(), Seq::empty()),
{
    let nodes = vec![Node::new()];
    let ghost words = seq![Seq::<u8>::empty()];
    assert(nodes@[0].next@ =~= seq![0usize, 0, 0, 0, 0]);
    assert(words[0] == Seq::<u8>::empty());
    assert(Seq::<u8>::empty().take(0) =~= Seq::<u8>::empty());
    assert(is_prefix(words[0], Seq::<u8>::empty()));
    (nodes, Ghost(words))
}

/// Adds `pattern` to the trie `nodes`, whose words are `words`.
fn insert_pattern(
    nodes: &mut Vec<Node>,
    pattern: &Vec<u8>,
    Ghost(words): Ghost<Seq<Seq<u8>>>,
    Ghost(pats): Ghost<Seq<Seq<u8>>>,
) -> (r: Ghost<Seq<Seq<u8>>>)
    requires
        trie_wf(old(nodes)@, words, pats, Seq::empty()),
        all_stripes(pattern@),
    ensures
        trie_wf(final(nodes)@, r@, pats.push(pattern@), Seq::empty()),
{
    let ghost p = pattern@;
    let ghost mut w = words;
    let mut i: usize = 0;
    let mut t: usize = 0;
    proof {
        assert(p.take(0) =~= Seq::<u8>::empty());
    }
    while t < pattern.len()
        invariant
            0 <= t <= p.len(),
            p == pattern@,
            all_stripes(p),
            trie_wf(nodes@, w, pats, p.take(t as int)),
            i < nodes@.len(),
            w[i as int] == p.take(t as int),
        decreases p.len() - t,
    {
        let c = char_to_index(pattern[t]);
        let j = nodes[i].next[c];
        let ghost next_word = p.take(t + 1);
        assert(next_word == w[i as int].push(letter(c as int))) by {
            assert(p.take(t + 1) =~= p.take(t as int).push(p[t as int]));
        }
        proof {
            assert(nodes@[i as int].next@[c as int] == j);
        }
        if j == 0 {
            let ghost old_nodes = nodes@;
            let ghost old_w = w;
            nodes.push(Node::new());
            let n = nodes.len() - 1;
            let mut node = nodes[i];
            node.next.set(c, n);
            nodes.set(i, node);
            proof {
                w = w.push(next_word);
                lemma_insert_new(old_nodes, nodes@, old_w, w, pats, p, t as int, i as int, c as int);
            }
            i = n;
        } else {
            proof {
                lemma_insert_follow(nodes@, w, pats, p, t as int, i as int, c as int);
            }
            i = j;
        }
        t = t + 1;
    }
    let ghost before = nodes@;
    let mut node = nodes[i];
    node.valid = true;
    nodes.set(i, node);
    proof {
        assert(p.take(p.len() as int) =~= p);
        lemma_insert_finish(before, nodes@, w, pats, p, i as int);
    }
    Ghost(w)
}

proof fn lemma_letter_inj(a: int, b: int)
    requires
        0 <= a < 5,
        0 <= b < 5,
        letter(a) == letter(b),
    ensures
        a == b,
{
}

/// Following an existing child keeps the trie well formed, the pattern's
/// prefix grown by one stripe.
proof fn lemma_insert_follow(
    nodes: Seq<Node>,
    w: Seq<Seq<u8>>,
    pats: Seq<Seq<u8>>,
    p: Seq<u8>,
    t: int,
    i: int,
    c: int,
)
    requires
        trie_wf(nodes, w, pats, p.take(t)),
        0 <= t < p.len(),
        0 <= i < nodes.len(),
        0 <= c < 5,
        w[i] == p.take(t),
        p[t] == letter(c),
        nodes[i].next@[c] != 0,
    ensures
        trie_wf(nodes, w, pats, p.take(t + 1)),
        w[nodes[i].next@[c] as int] == p.take(t + 1),
{
    assert(p.take(t + 1) =~= p.take(t).push(p[t]));
    let e = p.take(t + 1);
    assert forall|a: int, b: int|
        0 <= a < nodes.len() && 0 <= b < 5 && #[trigger] nodes[a].next@[b] == 0 implies !is_prefix(
        w[a].push(letter(b)),
        e,
    ) by {
        let x = w[a].push(letter(b));
        if is_prefix(x, e) {
            if x.len() <= t {
                assert(p.take(t).take(x.len() as int) =~= e.take(x.len() as int));
                assert(is_prefix(x, p.take(t)));
            } else {
                assert(w[a] =~= x.drop_last());
                assert(w[a] =~= p.take(t));
                assert(a == i);
                assert(letter(b) == x.last());
                assert(x.last() == e[t]);
                lemma_letter_inj(b, c);
            }
        }
    }
    assert forall|k: int| 0 <= k < nodes.len() implies is_prefix(#[trigger] w[k], e) || exists|m: int|
        0 <= m < pats.len() && is_prefix(w[k], #[trigger] pats[m]) by {
        if is_prefix(w[k], p.take(t)) {
            assert(e.take(w[k].len() as int) =~= p.take(t).take(w[k].len() as int));
        }
    }
}

/// Adding a new child node keeps the trie well formed, the pattern's prefix
/// grown by one stripe.
proof fn lemma_insert_new(
    old_nodes: Seq<Node>,
    nodes: Seq<Node>,
    old_w: Seq<Seq<u8>>,
    w: Seq<Seq<u8>>,
    pats: Seq<Seq<u8>>,
    p: Seq<u8>,
    t: int,
    i: int,
    c: int,
)
    requires
        trie_wf(old_nodes, old_w, pats, p.take(t)),
        0 <= t < p.len(),
        0 <= i < old_nodes.len(),
        0 <= c < 5,
        old_w[i] == p.take(t),
        p[t] == letter(c),
        old_nodes[i].next@[c] == 0,
        w == old_w.push(p.take(t + 1)),
        nodes.len() == old_nodes.len() + 1,
        old_nodes.len() < usize::MAX,
        nodes[old_nodes.len() as int].next@ == seq![0usize, 0, 0, 0, 0],
        !nodes[old_nodes.len() as int].valid,
        nodes[i].next@ == old_nodes[i].next@.update(c, old_nodes.len() as usize),
        nodes[i].valid == old_nodes[i].valid,
        forall|k: int| 0 <= k < old_nodes.len() && k != i ==> nodes[k] == old_nodes[k],
    ensures
        trie_wf(nodes, w, pats, p.take(t + 1)),
        w[old_nodes.len() as int] == p.take(t + 1),
{
    let n = old_nodes.len() as int;
    let e = p.take(t + 1);
    assert(e =~= p.take(t).push(p[t]));
    assert(forall|k: int| 0 <= k < n ==> #[trigger] w[k] == old_w[k]);
    assert(w[n] == e);
    assert forall|a: int, b: int| 0 <= a < n && 0 <= b < 5 && !(a == i && b == c) implies #[trigger] nodes[a].next@[b]
        == old_nodes[a].next@[b] by {
        if a == i {
            assert(nodes[i].next@[b] == old_nodes[i].next@.update(c, n as usize)[b]);
        }
    }
    assert(nodes[i].next@[c] == old_nodes[i].next@.update(c, n as usize)[c]);
    assert(nodes[i].next@[c] == n);
    assert forall|b: int| 0 <= b < 5 implies #[trigger] nodes[n].next@[b] == 0 by {
        assert(seq![0usize, 0, 0, 0, 0][b] == 0);
    }
    assert(e == old_w[i].push(letter(c)));
    // the new word is no node's word yet, and no pattern starts with it
    assert forall|m: int| 0 <= m < pats.len() implies !is_prefix(e, #[trigger] pats[m]) by {
        assert(old_nodes[i].next@[c] == 0);
    }
    assert forall|k: int| 0 <= k < n implies old_w[k] != e by {
        if old_w[k] == e {
            assert(!is_prefix(e, p.take(t)));
            if !is_prefix(old_w[k], p.take(t)) {
                let m = choose|m: int| 0 <= m < pats.len() && is_prefix(old_w[k], #[trigger] pats[m]);
                assert(!is_prefix(e, pats[m]));
            }
        }
    }
    assert forall|a: int, b: int| 0 <= a < nodes.len() && 0 <= b < 5 implies {
        let j = #[trigger] nodes[a].next@[b];
        j == 0 || (0 < j < nodes.len() && w[j as int] == w[a].push(letter(b)))
    } by {
        if a < n && !(a == i && b == c) {
            assert(nodes[a].next@[b] == old_nodes[a].next@[b]);
            let j = old_nodes[a].next@[b];
            if j != 0 {
                assert(old_w[j as int] == old_w[a].push(letter(b)));
            }
        } else if a < n {
            assert(w[a] == old_w[i]);
        }
    }
    assert forall|a: int, b: int|
        0 <= a < nodes.len() && 0 <= b < 5 && #[trigger] nodes[a].next@[b] == 0 implies {
        &&& forall|m: int|
            0 <= m < pats.len() ==> !is_prefix(w[a].push(letter(b)), #[trigger] pats[m])
        &&& !is_prefix(w[a].push(letter(b)), e)
    } by {
        let x = w[a].push(letter(b));
        if a == n {
            assert(x.len() > e.len());
            assert forall|m: int| 0 <= m < pats.len() implies !is_prefix(x, #[trigger] pats[m]) by {
                if is_prefix(x, pats[m]) {
                    assert(pats[m].take(e.len() as int) =~= x.take(e.len() as int));
                    assert(x.take(e.len() as int) =~= e);
                }
            }
        } else {
            assert(!(a == i && b == c));
            assert(nodes[a].next@[b] == old_nodes[a].next@[b]);
            assert(old_nodes[a].next@[b] == 0);
            assert(x == old_w[a].push(letter(b)));
            if is_prefix(x, e) {
                if x.len() <= t {
                    assert(p.take(t).take(x.len() as int) =~= e.take(x.len() as int));
                    assert(is_prefix(x, p.take(t)));
                } else {
                    assert(w[a] =~= x.drop_last());
                    assert(old_w[a] =~= p.take(t));
                    assert(a == i);
                    assert(x.last() == e[t]);
                    lemma_letter_inj(b, c);
                }
            }
        }
    }
    assert forall|k: int| 0 <= k < nodes.len() implies (#[trigger] nodes[k].valid <==> pats.contains(
        w[k],
    )) by {
        if k == n {
            if pats.contains(e) {
                let m = choose|m: int| 0 <= m < pats.len() && pats[m] == e;
                assert(e.take(e.len() as int) =~= e);
                assert(is_prefix(e, pats[m]));
            }
        }
    }
    assert forall|a: int, k: int|
        0 <= a < nodes.len() && 0 <= k < nodes.len() && #[trigger] w[a] == #[trigger] w[k] implies a
        == k by {
        if a == n && k < n {
            assert(old_w[k] != e);
        }
        if k == n && a < n {
            assert(old_w[a] != e);
        }
    }
    assert forall|k: int| 0 <= k < nodes.len() implies is_prefix(#[trigger] w[k], e) || exists|m: int|
        0 <= m < pats.len() && is_prefix(w[k], #[trigger] pats[m]) by {
        if k == n {
            assert(e.take(e.len() as int) =~= e);
        } else if is_prefix(w[k], p.take(t)) {
            assert(e.take(w[k].len() as int) =~= p.take(t).take(w[k].len() as int));
        }
    }
}

/// Marking the node of a whole pattern turns the pattern's prefix into one
/// more pattern.
proof fn lemma_insert_finish(
    before: Seq<Node>,
    nodes: Seq<Node>,
    w: Seq<Seq<u8>>,
    pats: Seq<Seq<u8>>,
    p: Seq<u8>,
    i: int,
)
    requires
        trie_wf(before, w, pats, p),
        0 <= i < before.len(),
        w[i] == p,
        nodes.len() == before.len(),
        nodes[i].next@ == before[i].next@,
        nodes[i].valid,
        forall|k: int| 0 <= k < before.len() && k != i ==> nodes[k] == before[k],
    ensures
        trie_wf(nodes, w, pats.push(p), Seq::empty()),
{
    let q = pats.push(p);
    assert forall|a: int, b: int| 0 <= a < nodes.len() && 0 <= b < 5 implies {
        let j = #[trigger] nodes[a].next@[b];
        j == 0 || (0 < j < nodes.len() && w[j as int] == w[a].push(letter(b)))
    } by {
        assert(nodes[a].next@ == before[a].next@);
    }
    assert forall|a: int, b: int|
        0 <= a < nodes.len() && 0 <= b < 5 && #[trigger] nodes[a].next@[b] == 0 implies {
        &&& forall|m: int| 0 <= m < q.len() ==> !is_prefix(w[a].push(letter(b)), #[trigger] q[m])
        &&& !is_prefix(w[a].push(letter(b)), Seq::<u8>::empty())
    } by {
        assert(nodes[a].next@ == before[a].next@);
        assert forall|m: int| 0 <= m < q.len() implies !is_prefix(w[a].push(letter(b)), #[trigger] q[m]) by {
            if m < pats.len() {
                assert(q[m] == pats[m]);
            }
        }
    }
    assert forall|k: int| 0 <= k < nodes.len() implies (#[trigger] nodes[k].valid <==> q.contains(
        w[k],
    )) by {
        if k == i {
            assert(q[pats.len() as int] == p);
        } else {
            assert(nodes[k] == before[k]);
            if q.contains(w[k]) {
                let m = choose|m: int| 0 <= m < q.len() && q[m] == w[k];
                if m == pats.len() {
                    assert(w[k] == w[i]);
                } else {
                    assert(pats[m] == w[k]);
                }
            }
            if pats.contains(w[k]) {
                let m = choose|m: int| 0 <= m < pats.len() && pats[m] == w[k];
                assert(q[m] == w[k]);
            }
        }
    }
    assert forall|k: int| 0 <= k < nodes.len() implies is_prefix(#[trigger] w[k], Seq::<u8>::empty())
        || exists|m: int| 0 <= m < q.len() && is_prefix(w[k], #[trigger] q[m]) by {
        if is_prefix(w[k], p) {
            assert(q[pats.len() as int] == p);
        } else {
            let m = choose|m: int| 0 <= m < pats.len() && is_prefix(w[k], #[trigger] pats[m]);
            assert(q[m] == pats[m]);
        }
    }
}

pub open spec fn byte_views(v: Seq<Vec<u8>>) -> Seq<Seq<u8>> {
    v.map_values(|b: Vec<u8>| b@)
}

/// Whether every byte of `s` is a stripe colour.
fn stripes_only(s: &Vec<u8>) -> (r: bool)
    ensures
        r == all_stripes(s@),
{
    let mut i: usize = 0;
    while i < s.len()
        invariant
            0 <= i <= s@.len(),
            forall|k: int| 0 <= k < i ==> is_stripe(#[trigger] s@[k]),
        decreases s@.len() - i,
    {
        let b = s[i];
        if !(b == 'u' as u8 || b == 'b' as u8 || b == 'w' as u8 || b == 'r' as u8 || b == 'g' as u8) {
            assert(!is_stripe(s@[i as int]));
            return false;
        }
        assert(letter(0) == 'u' as u8 && letter(1) == 'b' as u8 && letter(2) == 'w' as u8);
        assert(letter(3) == 'r' as u8 && letter(4) == 'g' as u8);
        i = i + 1;
    }
    true
}

/// The base of the count of ways: the empty prefix is made in one way.
pub open spec fn base(e: int) -> nat {
    if e == 0 {
        1
    } else {
        0
    }
}

impl Towels {
    /// The available patterns, in the order given.
    pub closed spec fn pattern_list(&self) -> Seq<Seq<u8>> {
        self.pats@
    }

    /// The designs, in the order given.
    pub closed spec fn design_list(&self) -> Seq<Seq<u8>> {
        byte_views(self.designs@)
    }

    pub closed spec fn wf(&self) -> bool {
        &&& trie_wf(self.patterns@, self.words@, self.pats@, Seq::empty())
        &&& forall|k: int|
            0 <= k < self.designs@.len() ==> all_stripes(#[trigger] self.designs@[k]@)
                && self.designs@[k]@.len() < usize::MAX
    }

    /// Towels from their patterns and the designs to make; fails where a byte
    /// is no stripe colour, or a design is as long as `usize::MAX`.
    pub fn new(patterns: Vec<Vec<u8>>, designs: Vec<Vec<u8>>) -> (r: Result<Towels, TowelError>)
        ensures
            (exists|k: int| 0 <= k < patterns@.len() && !all_stripes(#[trigger] patterns@[k]@))
                || (exists|k: int| 0 <= k < designs@.len() && !all_stripes(#[trigger] designs@[k]@))
                ==> r == Err::<Towels, TowelError>(TowelError::UnknownStripe),
            r is Ok <==> (forall|k: int|
                0 <= k < patterns@.len() ==> all_stripes(#[trigger] patterns@[k]@)) && (forall|k: int|
                0 <= k < designs@.len() ==> all_stripes(#[trigger] designs@[k]@)
                    && designs@[k]@.len() < usize::MAX),
            r matches Ok(t) ==> t.wf() && t.pattern_list() == byte_views(patterns@)
                && t.design_list() == byte_views(designs@),
    {
        let mut k: usize = 0;
        while k < patterns.len()
            invariant
                0 <= k <= patterns@.len(),
                forall|x: int| 0 <= x < k ==> all_stripes(#[trigger] patterns@[x]@),
            decreases patterns@.len() - k,
        {
            if !stripes_only(&patterns[k]) {
                return Err(TowelError::UnknownStripe);
            }
            k = k + 1;
        }
        let mut k: usize = 0;
        while k < designs.len()
            invariant
                0 <= k <= designs@.len(),
                forall|x: int| 0 <= x < patterns@.len() ==> all_stripes(#[trigger] patterns@[x]@),
                forall|x: int| 0 <= x < k ==> all_stripes(#[trigger] designs@[x]@),
            decreases designs@.len() - k,
        {
            if !stripes_only(&designs[k]) {
                return Err(TowelError::UnknownStripe);
            }
            k = k + 1;
        }
        let mut k: usize = 0;
        while k < designs.len()
            invariant
                0 <= k <= designs@.len(),
                forall|x: int| 0 <= x < patterns@.len() ==> all_stripes(#[trigger] patterns@[x]@),
                forall|x: int| 0 <= x < designs@.len() ==> all_stripes(#[trigger] designs@[x]@),
                forall|x: int| 0 <= x < k ==> (#[trigger] designs@[x]@).len() < usize::MAX,
            decreases designs@.len() - k,
        {
            if designs[k].len() == usize::MAX {
                return Err(TowelError::DesignTooLong);
            }
            k = k + 1;
        }
        let (mut nodes, Ghost(w0)) = empty_trie();
        let ghost mut w = w0;
        let ghost pv = byte_views(patterns@);
        let mut k: usize = 0;
        assert(pv.take(0) =~= Seq::<Seq<u8>>::empty());
        while k < patterns.len()
            invariant
                0 <= k <= patterns@.len(),
                pv == byte_views(patterns@),
                forall|x: int| 0 <= x < patterns@.len() ==> all_stripes(#[trigger] patterns@[x]@),
                trie_wf(nodes@, w, pv.take(k as int), Seq::empty()),
            decreases patterns@.len() - k,
        {
            let Ghost(w1) = insert_pattern(&mut nodes, &patterns[k], Ghost(w), Ghost(pv.take(k as int)));
            proof {
                w = w1;
                assert(pv.take(k + 1) =~= pv.take(k as int).push(patterns@[k as int]@));
            }
            k = k + 1;
        }
        assert(pv.take(patterns@.len() as int) =~= pv);
        Ok(Towels { patterns: nodes, designs, words: Ghost(w), pats: Ghost(pv) })
    }

    /// The number of ways to make `design` from the patterns, absent where it
    /// does not fit in a `u64`.
    fn count_ways(&self, design: &Vec<u8>) -> (r: Option<u64>)
        requires
            self.wf(),
            all_stripes(design@),
            design@.len() < usize::MAX,
        ensures
            r == fit(ways(self.pats@, design@, design@.len() as int)),
    {
        let ghost d = design@;
        let ghost pats = self.pats@;
        let ghost words = self.words@;
        let n = design.len();
        let mut vw: Vec<Option<u64>> = Vec::new();
        vw.push(Some(1));
        let mut k: usize = 0;
        while k < n
            invariant
                0 <= k <= n,
                vw@.len() == k + 1,
                vw@[0] == Some(1u64),
                forall|e: int| 1 <= e <= k ==> #[trigger] vw@[e] == Some(0u64),
            decreases n - k,
        {
            vw.push(Some(0));
            k = k + 1;
        }
        assert forall|e: int| 0 <= e <= n implies #[trigger] vw@[e] == fit(
            base(e) + partial(pats, d, e, 0),
        ) by {}
        let mut s: usize = 0;
        while s < n
            invariant
                0 <= s <= n,
                n == d.len(),
                d == design@,
                pats == self.pats@,
                words == self.words@,
                self.wf(),
                all_stripes(d),
                vw@.len() == n + 1,
                forall|e: int| 0 <= e <= n ==> #[trigger] vw@[e] == fit(base(e) + partial(pats, d, e, s as int)),
            decreases n - s,
        {
            let ws = vw[s];
            proof {
                assert(vw@[s as int] == fit(base(s as int) + partial(pats, d, s as int, s as int)));
                assert(base(s as int) + partial(pats, d, s as int, s as int) == ways(pats, d, s as int));
            }
            let skip = match ws {
                Some(x) => x == 0,
                None => false,
            };
            let mut end: usize = s;
            let mut alive = !skip;
            let mut i: usize = 0;
            assert(d.subrange(s as int, s as int) =~= Seq::<u8>::empty());
            while alive && end < n
                invariant
                    s <= end <= n,
                    n == d.len(),
                    d == design@,
                    pats == self.pats@,
                    words == self.words@,
                    self.wf(),
                    all_stripes(d),
                    vw@.len() == n + 1,
                    ws == fit(ways(pats, d, s as int)),
                    skip ==> ways(pats, d, s as int) == 0,
                    alive ==> i < self.patterns@.len() && words[i as int] == d.subrange(s as int, end as int),
                    !alive && !skip ==> end < n && forall|m: int|
                        0 <= m < pats.len() ==> !is_prefix(d.subrange(s as int, end + 1), #[trigger] pats[m]),
                    forall|e: int| 0 <= e <= n ==> #[trigger] vw@[e] == fit(
                        base(e) + partial(pats, d, e, s as int) + if s < e <= end && pats.contains(
                            d.subrange(s as int, e),
                        ) {
                            ways(pats, d, s as int)
                        } else {
                            0
                        },
                    ),
                decreases (n - end) + if alive {
                    1int
                } else {
                    0int
                },
            {
                let c = char_to_index(design[end]);
                let j = self.patterns[i].next[c];
                proof {
                    assert(d.subrange(s as int, end + 1) =~= d.subrange(s as int, end as int).push(
                        d[end as int],
                    ));
                    assert(self.patterns@[i as int].next@[c as int] == j);
                }
                if j == 0 {
                    alive = false;
                } else {
                    i = j;
                    let valid = self.patterns[i].valid;
                    assert(valid == pats.contains(words[i as int]));
                    if valid {
                        let cur = vw[end + 1];
                        let sum = fit_add(cur, ws);
                        vw.set(end + 1, sum);
                    }
                    end = end + 1;
                    assert forall|e: int| 0 <= e <= n implies #[trigger] vw@[e] == fit(
                        base(e) + partial(pats, d, e, s as int) + if s < e <= end && pats.contains(
                            d.subrange(s as int, e),
                        ) {
                            ways(pats, d, s as int)
                        } else {
                            0
                        },
                    ) by {}
                }
            }
            proof {
                assert forall|e: int| 0 <= e <= n implies #[trigger] vw@[e] == fit(
                    base(e) + partial(pats, d, e, s + 1),
                ) by {
                    assert(partial(pats, d, e, s + 1) == partial(pats, d, e, s as int) + if 0 <= s < e
                        && pats.contains(d.subrange(s as int, e)) {
                        ways(pats, d, s as int)
                    } else {
                        0
                    });
                    if !skip && end < e && s < e && pats.contains(d.subrange(s as int, e)) {
                        let m = choose|m: int| 0 <= m < pats.len() && pats[m] == d.subrange(s as int, e);
                        assert(d.subrange(s as int, e).take(end + 1 - s) =~= d.subrange(s as int, end + 1));
                        assert(is_prefix(d.subrange(s as int, end + 1), pats[m]));
                    }
                }
            }
            s = s + 1;
        }
        proof {
            assert(vw@[n as int] == fit(base(n as int) + partial(pats, d, n as int, n as int)));
            assert(base(n as int) + partial(pats, d, n as int, n as int) == ways(pats, d, n as int));
        }
        vw[n]
    }

    /// How many designs can be made, and the number of ways to make them
    /// summed over all designs (absent where it does not fit in a `u64`).
    pub fn walk_trie(&self) -> (r: (usize, Option<u64>))
        requires
            self.wf(),
        ensures
            r.0 == possible_count(self.pattern_list(), self.design_list()),
            r.1 == fit(total_ways(self.pattern_list(), self.design_list())),
    {
        let ghost ds = self.design_list();
        let ghost pats = self.pats@;
        let mut part1: usize = 0;
        let mut part2: Option<u64> = Some(0);
        let mut k: usize = 0;
        assert(ds.take(0) =~= Seq::<Seq<u8>>::empty());
        while k < self.designs.len()
            invariant
                0 <= k <= self.designs@.len(),
                ds == self.design_list(),
                ds.len() == self.designs@.len(),
                pats == self.pats@,
                self.wf(),
                part1 <= k,
                part1 == possible_count(pats, ds.take(k as int)),
                part2 == fit(total_ways(pats, ds.take(k as int))),
            decreases self.designs@.len() - k,
        {
            let design = &self.designs[k];
            proof {
                assert(ds[k as int] == design@);
                assert(ds.take(k + 1).drop_last() =~= ds.take(k as int));
                assert(ds.take(k + 1).last() == design@);
            }
            let w = self.count_ways(design);
            let possible = match w {
                Some(x) => x > 0,
                None => true,
            };
            if possible {
                part1 = part1 + 1;
            }
            part2 = fit_add(part2, w);
            k = k + 1;
        }
        assert(ds.take(ds.len() as int) =~= ds);
        (part1, part2)
    }
}

} // verus!
