//! Stitching a bag of segments between vertex ids into chains.

use vstd::prelude::*;

verus! {

/// A pair of indices: a segment between two vertex ids, or a cell edge between two corners.
pub type Edge = (usize, usize);

/// Some segment of `edges` joins `a` and `b`, in either direction.
pub open spec fn is_segment(edges: Seq<Edge>, a: usize, b: usize) -> bool {
    exists|j: int| 0 <= j < edges.len() && (edges[j] == (a, b) || edges[j] == (b, a))
}

/// `chain` is a path of at least two distinct ids, each consecutive pair joined by a segment.
pub open spec fn is_path(edges: Seq<Edge>, chain: Seq<usize>) -> bool {
    &&& chain.len() >= 2
    &&& chain.no_duplicates()
    &&& forall|i: int| 0 <= i < chain.len() - 1 ==> is_segment(edges, #[trigger] chain[i], chain[i + 1])
}

/// Segment `k` joins the fresh ids `2k` and `2k + 1`: no two segments share a vertex.
pub open spec fn pairwise_fresh(edges: Seq<Edge>) -> bool {
    forall|k: int| 0 <= k < edges.len() ==> #[trigger] edges[k].0 == 2 * k && edges[k].1 == 2 * k + 1
}

/// Every id is below `usize::MAX` and no segment joins an id to itself.
pub open spec fn segments_ok(edges: Seq<Edge>) -> bool {
    forall|j: int|
        0 <= j < edges.len() ==> #[trigger] edges[j].0 != edges[j].1 && edges[j].0 < usize::MAX
            && edges[j].1 < usize::MAX
}

/// The adjacency lists, each as a sequence of ids.
pub open spec fn lists(s: Seq<Vec<usize>>) -> Seq<Seq<usize>> {
    s.map_values(|v: Vec<usize>| v@)
}

/// The total length of the lists.
pub open spec fn total_len(s: Seq<Seq<usize>>) -> nat
    decreases s.len(),
{
    if s.len() == 0 {
        0
    } else {
        total_len(s.drop_last()) + s.last().len()
    }
}

/// `list` without any occurrence of `x`, the rest in order.
pub open spec fn remove_all(list: Seq<usize>, x: usize) -> Seq<usize>
    decreases list.len(),
{
    if list.len() == 0 {
        seq![]
    } else {
        let r = remove_all(list.drop_last(), x);
        if list.last() == x {
            r
        } else {
            r.push(list.last())
        }
    }
}

/// The highest id named by the first `i` segments (0 when there are none).
pub open spec fn highest_id(edges: Seq<Edge>, i: int) -> usize
    decreases i,
{
    if i <= 0 {
        0
    } else {
        let t = highest_id(edges, i - 1);
        let t1 = if edges[i - 1].0 > t {
            edges[i - 1].0
        } else {
            t
        };
        if edges[i - 1].1 > t1 {
            edges[i - 1].1
        } else {
            t1
        }
    }
}

/// The `n` adjacency lists after the first `i` segments are added, in order: segment `(a, b)`
/// appends `b` to the list of `a`, then `a` to the list of `b`.
pub open spec fn adjacency(edges: Seq<Edge>, i: int, n: nat) -> Seq<Seq<usize>>
    decreases i,
{
    if i <= 0 {
        Seq::new(n, |v: int| Seq::<usize>::empty())
    } else {
        let r = adjacency(edges, i - 1, n);
        let (a, b) = edges[i - 1];
        let r1 = r.update(a as int, r[a as int].push(b));
        r1.update(b as int, r1[b as int].push(a))
    }
}

/// The least id from `i` on whose list is not empty.
pub open spec fn first_nonempty_from(res: Seq<Seq<usize>>, i: int) -> Option<usize>
    decreases res.len() - i,
{
    if i < 0 || i >= res.len() {
        None
    } else if res[i].len() > 0 {
        Some(i as usize)
    } else {
        first_nonempty_from(res, i + 1)
    }
}

/// The first candidate from position `i` on that is not in the chain.
pub open spec fn first_outside_from(cands: Seq<usize>, chain: Seq<usize>, i: int) -> Option<usize>
    decreases cands.len() - i,
{
    if i < 0 || i >= cands.len() {
        None
    } else if !chain.contains(cands[i]) {
        Some(cands[i])
    } else {
        first_outside_from(cands, chain, i + 1)
    }
}

/// The lists with the link between `a` and `b` consumed: `b` leaves the list of `a`, then `a`
/// leaves the list of `b`.
pub open spec fn consume(res: Seq<Seq<usize>>, a: usize, b: usize) -> Seq<Seq<usize>> {
    let r1 = res.update(a as int, remove_all(res[a as int], b));
    r1.update(b as int, remove_all(r1[b as int], a))
}

/// At most `fuel` forward steps: while the last id `a` has a link left, the first id of its
/// list outside the chain is consumed and appended.
pub open spec fn extend_forward(res: Seq<Seq<usize>>, chain: Seq<usize>, fuel: nat) -> (Seq<Seq<usize>>, Seq<usize>)
    decreases fuel,
{
    if fuel == 0 || chain.len() == 0 || chain.last() >= res.len() || res[chain.last() as int].len() == 0 {
        (res, chain)
    } else {
        let a = chain.last();
        match first_outside_from(res[a as int], chain, 0) {
            None => (res, chain),
            Some(b) => extend_forward(consume(res, a, b), chain.push(b), (fuel - 1) as nat),
        }
    }
}

/// At most `fuel` backward steps, the same from the first id, inserting at the start.
pub open spec fn extend_backward(res: Seq<Seq<usize>>, chain: Seq<usize>, fuel: nat) -> (Seq<Seq<usize>>, Seq<usize>)
    decreases fuel,
{
    if fuel == 0 || chain.len() == 0 || chain[0] >= res.len() || res[chain[0] as int].len() == 0 {
        (res, chain)
    } else {
        let a = chain[0];
        match first_outside_from(res[a as int], chain, 0) {
            None => (res, chain),
            Some(b) => extend_backward(consume(res, a, b), seq![b] + chain, (fuel - 1) as nat),
        }
    }
}

/// At most `fuel` chains more: each starts at the least id with a link left, is extended
/// forward and then backward, and is appended to `chains`.
pub open spec fn stitch(res: Seq<Seq<usize>>, chains: Seq<Seq<usize>>, fuel: nat) -> Seq<Seq<usize>>
    decreases fuel,
{
    if fuel == 0 {
        chains
    } else {
        match first_nonempty_from(res, 0) {
            None => chains,
            Some(v) => {
                let f = total_len(res) + 1;
                let fw = extend_forward(res, seq![v], f);
                let bw = extend_backward(fw.0, fw.1, f);
                stitch(bw.0, chains.push(bw.1), (fuel - 1) as nat)
            },
        }
    }
}

/// The chains that stitching makes of `edges`: adjacency lists over ids `0..=highest`, in the
/// order the segments list them, stitched until no link is left.
pub open spec fn chains_of(edges: Seq<Edge>) -> Seq<Seq<usize>> {
    if edges.len() == 0 {
        seq![]
    } else {
        let res = adjacency(edges, edges.len() as int, (highest_id(edges, edges.len() as int) + 1) as nat);
        stitch(res, seq![], total_len(res) + 1)
    }
}

proof fn lemma_total_lists(s: Seq<Vec<usize>>)
    ensures
        total_links(s) == total_len(lists(s)),
    decreases s.len(),
{
    if s.len() > 0 {
        lemma_total_lists(s.drop_last());
        assert(lists(s).drop_last() =~= lists(s.drop_last()));
    }
}

/// The total number of links held in the adjacency lists.
spec fn total_links(s: Seq<Vec<usize>>) -> nat
    decreases s.len(),
{
    if s.len() == 0 {
        0
    } else {
        total_links(s.drop_last()) + s.last()@.len()
    }
}

proof fn lemma_total_links_update(s: Seq<Vec<usize>>, i: int, v: Vec<usize>)
    requires
        0 <= i < s.len(),
    ensures
        total_links(s.update(i, v)) + s[i]@.len() == total_links(s) + v@.len(),
    decreases s.len(),
{
    let t = s.update(i, v);
    if i == s.len() - 1 {
        assert(t.drop_last() =~= s.drop_last());
    } else {
        lemma_total_links_update(s.drop_last(), i, v);
        assert(t.drop_last() =~= s.drop_last().update(i, v));
    }
}

/// In the adjacency lists of fresh segments with the first `k` consumed, what `v` still links to.
spec fn fresh_links(k: int, v: int) -> Seq<usize> {
    if v < 2 * k {
        seq![]
    } else if v % 2 == 0 {
        seq![(v + 1) as usize]
    } else {
        seq![(v - 1) as usize]
    }
}

/// The least id whose adjacency list is not empty.
fn next_non_empty(residual: &Vec<Vec<usize>>) -> (r: Option<usize>)
    ensures
        match r {
            Some(i) => i < residual.len() && residual@[i as int]@.len() > 0 && forall|j: int|
                0 <= j < i ==> #[trigger] residual@[j]@.len() == 0,
            None => forall|j: int| 0 <= j < residual.len() ==> #[trigger] residual@[j]@.len() == 0,
        },
        r == first_nonempty_from(lists(residual@), 0),
{
    let mut i: usize = 0;
    while i < residual.len()
        invariant
            i <= residual.len(),
            first_nonempty_from(lists(residual@), 0) == first_nonempty_from(lists(residual@), i as int),
            forall|j: int| 0 <= j < i ==> #[trigger] residual@[j]@.len() == 0,
        decreases residual.len() - i,
    {
        if !residual[i].is_empty() {
            return Some(i);
        }
        i += 1;
    }
    None
}

/// The id itself, when it still has a link left.
fn continuation(residual: &Vec<Vec<usize>>, vertex: Option<&usize>) -> (r: Option<usize>)
    requires
        match vertex {
            Some(v) => *v < residual.len(),
            None => true,
        },
    ensures
        r == match vertex {
            Some(v) => if residual@[*v as int]@.len() > 0 {
                Some(*v)
            } else {
                None
            },
            None => None,
        },
{
    match vertex {
        Some(number) => if !residual[*number].is_empty() {
            Some(*number)
        } else {
            None
        },
        None => None,
    }
}

fn holds(chain: &Vec<usize>, x: usize) -> (r: bool)
    ensures
        r == chain@.contains(x),
{
    let mut i: usize = 0;
    while i < chain.len()
        invariant
            i <= chain.len(),
            forall|j: int| 0 <= j < i ==> chain@[j] != x,
        decreases chain.len() - i,
    {
        if chain[i] == x {
            return true;
        }
        i += 1;
    }
    false
}

/// The first candidate that is not yet a member of the chain.
fn first_not_in(candidates: &Vec<usize>, chain: &Vec<usize>) -> (r: Option<usize>)
    ensures
        match r {
            Some(b) => candidates@.contains(b) && !chain@.contains(b),
            None => forall|i: int| 0 <= i < candidates.len() ==> chain@.contains(#[trigger] candidates@[i]),
        },
        r == first_outside_from(candidates@, chain@, 0),
{
    let mut i: usize = 0;
    while i < candidates.len()
        invariant
            i <= candidates.len(),
            first_outside_from(candidates@, chain@, 0) == first_outside_from(candidates@, chain@, i as int),
            forall|j: int| 0 <= j < i ==> chain@.contains(#[trigger] candidates@[j]),
        decreases candidates.len() - i,
    {
        if !holds(chain, candidates[i]) {
            return Some(candidates[i]);
        }
        i += 1;
    }
    None
}

/// The list without any occurrence of `x`.
fn without(list: &Vec<usize>, x: usize) -> (r: Vec<usize>)
    ensures
        forall|y: usize| r@.contains(y) <==> (list@.contains(y) && y != x),
        r@.len() <= list@.len(),
        list@.contains(x) ==> r@.len() < list@.len(),
        r@ == remove_all(list@, x),
{
    let mut r: Vec<usize> = Vec::new();
    let mut i: usize = 0;
    while i < list.len()
        invariant
            i <= list.len(),
            r@.len() <= i,
            forall|y: usize| r@.contains(y) <==> (list@.subrange(0, i as int).contains(y) && y != x),
            list@.subrange(0, i as int).contains(x) ==> r@.len() < i,
            r@ == remove_all(list@.subrange(0, i as int), x),
        decreases list.len() - i,
    {
        let y = list[i];
        let ghost s0 = list@.subrange(0, i as int);
        let ghost s1 = list@.subrange(0, i + 1);
        let ghost r_before = r@;
        proof {
            assert(s1.drop_last() =~= s0);
            assert(s1.last() == y);
            assert(s1 =~= s0.push(y));
            assert forall|z: usize| s1.contains(z) <==> (s0.contains(z) || z == y) by {
                if s1.contains(z) {
                    let j = choose|j: int| 0 <= j < s1.len() && s1[j] == z;
                    if j < s0.len() {
                        assert(s0[j] == z);
                    }
                }
                if s0.contains(z) {
                    let j = choose|j: int| 0 <= j < s0.len() && s0[j] == z;
                    assert(s1[j] == z);
                }
                if z == y {
                    assert(s1[i as int] == z);
                }
            }
        }
        if y != x {
            let ghost r0 = r@;
            r.push(y);
            proof {
                assert forall|z: usize| r@.contains(z) <==> (r0.contains(z) || z == y) by {
                    if r@.contains(z) {
                        let j = choose|j: int| 0 <= j < r@.len() && r@[j] == z;
                        if j < r0.len() {
                            assert(r0[j] == z);
                        }
                    }
                    if r0.contains(z) {
                        let j = choose|j: int| 0 <= j < r0.len() && r0[j] == z;
                        assert(r@[j] == z);
                    }
                    if z == y {
                        assert(r@[r0.len() as int] == z);
                    }
                }
            }
        }
        i += 1;
        assert(s1 == list@.subrange(0, i as int));
        assert forall|z: usize| r@.contains(z) <==> (list@.subrange(0, i as int).contains(z) && z != x) by {
            assert(r_before.contains(z) <==> (s0.contains(z) && z != x));
            assert(s1.contains(z) <==> (s0.contains(z) || z == y));
            if y != x {
                assert(r@.contains(z) <==> (r_before.contains(z) || z == y));
            } else {
                assert(r@ == r_before);
            }
        }
    }
    assert(list@.subrange(0, list.len() as int) =~= list@);
    r
}

/// Consecutive ids of `chain` are `a` and `b`, in either order.
pub open spec fn has_link(chain: Seq<usize>, a: usize, b: usize) -> bool {
    exists|i: int|
        0 <= i < chain.len() - 1 && ((#[trigger] chain[i] == a && chain[i + 1] == b) || (chain[i] == b
            && chain[i + 1] == a))
}

/// Some chain has `a` and `b` as consecutive ids.
pub open spec fn some_chain_has_link(chains: Seq<Vec<usize>>, a: usize, b: usize) -> bool {
    exists|c: int| 0 <= c < chains.len() && has_link(#[trigger] chains[c]@, a, b)
}

/// Both adjacency lists still hold the link between `a` and `b`.
spec fn pending(residual: Seq<Vec<usize>>, a: usize, b: usize) -> bool {
    &&& a < residual.len()
    &&& b < residual.len()
    &&& residual[a as int]@.contains(b)
    &&& residual[b as int]@.contains(a)
}

proof fn lemma_has_link_push(chain: Seq<usize>, x: usize, a: usize, b: usize)
    requires
        has_link(chain, a, b),
    ensures
        has_link(chain.push(x), a, b),
{
    let i = choose|i: int|
        0 <= i < chain.len() - 1 && ((#[trigger] chain[i] == a && chain[i + 1] == b) || (chain[i] == b
            && chain[i + 1] == a));
    assert(chain.push(x)[i] == chain[i]);
    assert(chain.push(x)[i + 1] == chain[i + 1]);
}

proof fn lemma_has_link_prepend(chain: Seq<usize>, x: usize, a: usize, b: usize)
    requires
        has_link(chain, a, b),
    ensures
        has_link(seq![x] + chain, a, b),
{
    let i = choose|i: int|
        0 <= i < chain.len() - 1 && ((#[trigger] chain[i] == a && chain[i + 1] == b) || (chain[i] == b
            && chain[i + 1] == a));
    let c = seq![x] + chain;
    assert(c[i + 1] == chain[i]);
    assert(c[i + 2] == chain[i + 1]);
}

proof fn lemma_some_chain_push(chains: Seq<Vec<usize>>, chain: Vec<usize>, a: usize, b: usize)
    requires
        some_chain_has_link(chains, a, b) || has_link(chain@, a, b),
    ensures
        some_chain_has_link(chains.push(chain), a, b),
{
    let s = chains.push(chain);
    if has_link(chain@, a, b) {
        assert(s[chains.len() as int] == chain);
    } else {
        let c = choose|c: int| 0 <= c < chains.len() && has_link(#[trigger] chains[c]@, a, b);
        assert(s[c] == chains[c]);
    }
}

/// Links of the adjacency lists: in range, never to the id itself, and each along a segment.
spec fn links_ok(edges: Seq<Edge>, residual: Seq<Vec<usize>>) -> bool {
    forall|v: int, x: usize|
        0 <= v < residual.len() && #[trigger] residual[v]@.contains(x) ==> x < residual.len() && x
            != v && is_segment(edges, v as usize, x)
}

/// The chain so far: in range, without repeats, each consecutive pair along a segment.
spec fn partial_path(edges: Seq<Edge>, chain: Seq<usize>, n: nat) -> bool {
    &&& chain.len() >= 1
    &&& chain.no_duplicates()
    &&& forall|i: int| 0 <= i < chain.len() ==> #[trigger] chain[i] < n
    &&& forall|i: int| 0 <= i < chain.len() - 1 ==> is_segment(edges, #[trigger] chain[i], chain[i + 1])
}

/// The adjacency lists of fresh segments, the first `k` of them consumed.
spec fn fresh_state(residual: Seq<Vec<usize>>, k: int) -> bool {
    forall|v: int| 0 <= v < residual.len() ==> #[trigger] residual[v]@ == fresh_links(k, v)
}

/// Consumes the link between `a` and `b` from both adjacency lists.
fn unlink(residual: &mut Vec<Vec<usize>>, a: usize, b: usize, Ghost(edges): Ghost<Seq<Edge>>)
    requires
        a < old(residual).len(),
        b < old(residual).len(),
        a != b,
        old(residual)@[a as int]@.contains(b),
        links_ok(edges, old(residual)@),
    ensures
        final(residual).len() == old(residual).len(),
        links_ok(edges, final(residual)@),
        total_links(final(residual)@) < total_links(old(residual)@),
        forall|v: int|
            0 <= v < old(residual).len() && v != a && v != b ==> #[trigger] final(residual)@[v] == old(
                residual,
            )@[v],
        forall|x: usize| #[trigger] final(residual)@[a as int]@.contains(x) <==> (old(residual)@[a as int]@.contains(x) && x != b),
        forall|x: usize| #[trigger] final(residual)@[b as int]@.contains(x) <==> (old(residual)@[b as int]@.contains(x) && x != a),
        lists(final(residual)@) == consume(lists(old(residual)@), a, b),
{
    let ghost r0 = residual@;
    let ra = without(&residual[a], b);
    proof {
        lemma_total_links_update(residual@, a as int, ra);
    }
    residual.set(a, ra);
    let ghost r1 = residual@;
    let rb = without(&residual[b], a);
    proof {
        lemma_total_links_update(residual@, b as int, rb);
    }
    residual.set(b, rb);
    proof {
        assert(lists(r1) =~= lists(r0).update(a as int, remove_all(r0[a as int]@, b)));
        assert(lists(residual@) =~= consume(lists(r0), a, b));
        assert forall|v: int, x: usize|
            0 <= v < residual@.len() && #[trigger] residual@[v]@.contains(x) implies x < residual@.len() && x
                != v && is_segment(edges, v as usize, x) by {
            if v == b {
                assert(r1[v]@.contains(x));
            } else if v == a {
                assert(r0[v]@.contains(x));
            } else {
                assert(r0[v]@.contains(x));
            }
        }
    }
}

/// Reassembles a bag of segments into chains: each chain starts at the least id that still has
/// a segment, is extended forward from its last id and then backward from its first id, always
/// along the first unused segment to an id outside the chain, consuming every segment it walks.
/// The result is exactly `chains_of(edges)`; besides, every chain is a path of distinct ids
/// along segments, and every segment joins consecutive ids of some chain.
pub fn find_chains(edges: &Vec<Edge>) -> (r: Vec<Vec<usize>>)
    requires
        segments_ok(edges@),
    ensures
        forall|i: int| 0 <= i < r.len() ==> is_path(edges@, #[trigger] r@[i]@),
        forall|j: int|
            0 <= j < edges.len() ==> some_chain_has_link(r@, (#[trigger] edges@[j]).0, edges@[j].1),
        lists(r@) == chains_of(edges@),
        pairwise_fresh(edges@) ==> r.len() == edges.len() && forall|k: int|
            0 <= k < r.len() ==> #[trigger] r@[k]@ == seq![(2 * k) as usize, (2 * k + 1) as usize],
{
    let ghost fresh = pairwise_fresh(edges@);
    let ghost n = edges@.len();
    if edges.len() == 0 {
        return Vec::new();
    }
    // the highest id named by a segment
    let mut top: usize = 0;
    let mut i: usize = 0;
    while i < edges.len()
        invariant
            i <= edges.len(),
            segments_ok(edges@),
            forall|j: int| 0 <= j < i ==> (#[trigger] edges@[j]).0 <= top && edges@[j].1 <= top,
            top < usize::MAX,
            fresh == pairwise_fresh(edges@),
            i == 0 ==> top == 0,
            top == highest_id(edges@, i as int),
            fresh && i > 0 ==> top == 2 * i - 1,
        decreases edges.len() - i,
    {
        let (a, b) = edges[i];
        proof {
            assert(edges@[i as int].0 != edges@[i as int].1);
            if fresh {
                assert(edges@[i as int].0 == 2 * i);
            }
        }
        if a > top {
            top = a;
        }
        if b > top {
            top = b;
        }
        i += 1;
    }
    // the adjacency lists: for each id, the ids that it still has a segment to
    let mut residual: Vec<Vec<usize>> = Vec::new();
    while residual.len() <= top
        invariant
            residual.len() <= top + 1,
            top < usize::MAX,
            forall|v: int| 0 <= v < residual.len() ==> (#[trigger] residual@[v])@.len() == 0,
        decreases top + 1 - residual.len(),
    {
        residual.push(Vec::new());
    }
    proof {
        assert forall|v: int| 0 <= v < residual.len() implies #[trigger] lists(residual@)[v] == Seq::<usize>::empty() by {
            assert(residual@[v]@ =~= Seq::<usize>::empty());
        }
        assert(lists(residual@) =~= adjacency(edges@, 0, (top + 1) as nat));
    }
    let mut i: usize = 0;
    while i < edges.len()
        invariant
            i <= edges.len(),
            segments_ok(edges@),
            residual.len() == top + 1,
            forall|j: int| 0 <= j < edges.len() ==> (#[trigger] edges@[j]).0 <= top && edges@[j].1 <= top,
            links_ok(edges@, residual@),
            fresh == pairwise_fresh(edges@),
            n == edges.len(),
            fresh ==> top == 2 * n - 1,
            forall|j: int| 0 <= j < i ==> pending(residual@, (#[trigger] edges@[j]).0, edges@[j].1),
            lists(residual@) == adjacency(edges@, i as int, (top + 1) as nat),
            top == highest_id(edges@, edges.len() as int),
            fresh ==> forall|v: int|
                0 <= v < residual.len() ==> #[trigger] residual@[v]@ == (if v < 2 * i {
                    fresh_links(0, v)
                } else {
                    seq![]
                }),
        decreases edges.len() - i,
    {
        let (a, b) = edges[i];
        let ghost r0 = residual@;
        let mut la: Vec<usize> = Vec::new();
        residual.set_and_swap(a, &mut la);
        la.push(b);
        residual.set(a, la);
        let mut lb: Vec<usize> = Vec::new();
        residual.set_and_swap(b, &mut lb);
        lb.push(a);
        residual.set(b, lb);
        proof {
            let ra = lists(r0);
            let ra1 = ra.update(a as int, ra[a as int].push(b));
            assert(edges@[i as int] == (a, b));
            assert(lists(residual@) =~= ra1.update(b as int, ra1[b as int].push(a)));
            assert(edges@[i as int].0 != edges@[i as int].1);
            assert forall|v: int, x: usize|
                0 <= v < residual@.len() && #[trigger] residual@[v]@.contains(x) implies x < residual@.len()
                    && x != v && is_segment(edges@, v as usize, x) by {
                if v == a as int && x == b {
                    assert(edges@[i as int] == (a, b));
                } else if v == b as int && x == a {
                    assert(edges@[i as int] == (a, b));
                } else if v == a as int {
                    assert(residual@[v]@ == r0[v]@.push(b));
                    let j = choose|j: int| 0 <= j < residual@[v]@.len() && residual@[v]@[j] == x;
                    assert(r0[v]@[j] == x);
                    assert(r0[v]@.contains(x));
                } else if v == b as int {
                    assert(residual@[v]@ == r0[v]@.push(a));
                    let j = choose|j: int| 0 <= j < residual@[v]@.len() && residual@[v]@[j] == x;
                    assert(r0[v]@[j] == x);
                    assert(r0[v]@.contains(x));
                } else {
                    assert(r0[v]@.contains(x));
                }
            }
            assert forall|j: int| 0 <= j < i + 1 implies pending(residual@, (#[trigger] edges@[j]).0, edges@[j].1) by {
                let (p, q) = edges@[j];
                assert(residual@[a as int]@ == r0[a as int]@.push(b));
                assert(residual@[b as int]@ == r0[b as int]@.push(a));
                assert(residual@[a as int]@[r0[a as int]@.len() as int] == b);
                assert(residual@[b as int]@[r0[b as int]@.len() as int] == a);
                if j < i {
                    assert(pending(r0, p, q));
                    let k1 = choose|k1: int| 0 <= k1 < r0[p as int]@.len() && r0[p as int]@[k1] == q;
                    let k2 = choose|k2: int| 0 <= k2 < r0[q as int]@.len() && r0[q as int]@[k2] == p;
                    if p == a {
                        assert(residual@[p as int]@[k1] == q);
                    } else if p == b {
                        assert(residual@[p as int]@[k1] == q);
                    } else {
                        assert(residual@[p as int] == r0[p as int]);
                    }
                    if q == a {
                        assert(residual@[q as int]@[k2] == p);
                    } else if q == b {
                        assert(residual@[q as int]@[k2] == p);
                    } else {
                        assert(residual@[q as int] == r0[q as int]);
                    }
                } else {
                    assert(residual@[a as int]@.contains(b));
                    assert(residual@[b as int]@.contains(a));
                }
            }
            if fresh {
                assert(edges@[i as int].0 == 2 * i);
                assert forall|v: int| 0 <= v < residual.len() implies #[trigger] residual@[v]@ == (if v < 2 * (
                i + 1) {
                    fresh_links(0, v)
                } else {
                    seq![]
                }) by {
                    if v == a {
                        assert(residual@[v]@ =~= seq![b]);
                    } else if v == b {
                        assert(residual@[v]@ =~= seq![a]);
                    } else {
                        assert(residual@[v] == r0[v]);
                    }
                }
            }
        }
        i += 1;
    }
    let mut chains: Vec<Vec<usize>> = Vec::new();
    let ghost mut fo: nat = (total_links(residual@) + 1) as nat;
    proof {
        lemma_total_lists(residual@);
        assert(lists(chains@) =~= seq![]);
        if fresh {
            assert forall|v: int| 0 <= v < residual.len() implies #[trigger] residual@[v]@ == fresh_links(chains.len() as int, v) by {
                assert(v < 2 * n);
            }
        }
    }
    // keep taking chains until every segment is consumed
    loop
        invariant
            residual.len() == top + 1,
            links_ok(edges@, residual@),
            forall|c: int| 0 <= c < chains.len() ==> is_path(edges@, #[trigger] chains@[c]@),
            fresh == pairwise_fresh(edges@),
            n == edges.len(),
            fresh ==> top == 2 * n - 1,
            fresh ==> chains.len() <= n,
            fresh ==> forall|c: int|
                0 <= c < chains.len() ==> #[trigger] chains@[c]@ == seq![(2 * c) as usize, (2 * c + 1) as usize],
            fresh ==> fresh_state(residual@, chains.len() as int),
            forall|j: int|
                0 <= j < n ==> pending(residual@, (#[trigger] edges@[j]).0, edges@[j].1) || some_chain_has_link(
                    chains@,
                    edges@[j].0,
                    edges@[j].1,
                ),
            stitch(lists(residual@), lists(chains@), fo) == chains_of(edges@),
            fo >= total_links(residual@) + 1,
        ensures
            lists(chains@) == chains_of(edges@),
            forall|c: int| 0 <= c < chains.len() ==> is_path(edges@, #[trigger] chains@[c]@),
            forall|j: int|
                0 <= j < n ==> some_chain_has_link(chains@, (#[trigger] edges@[j]).0, edges@[j].1),
            fresh ==> chains.len() == n && forall|c: int|
                0 <= c < chains.len() ==> #[trigger] chains@[c]@ == seq![(2 * c) as usize, (2 * c + 1) as usize],
        decreases total_links(residual@),
    {
        let vertex = match next_non_empty(&residual) {
            Some(v) => v,
            None => {
                proof {
                    assert forall|j: int| 0 <= j < n implies some_chain_has_link(chains@, (#[trigger] edges@[j]).0, edges@[j].1) by {
                        let p = edges@[j].0;
                        if pending(residual@, p, edges@[j].1) {
                            assert(residual@[p as int]@.len() == 0);
                        }
                    }
                    if fresh && chains.len() < n {
                        let k = chains.len() as int;
                        assert(residual@[2 * k]@ == fresh_links(k, 2 * k));
                    }
                }
                break;
            },
        };
        let ghost start_total = total_links(residual@);
        let ghost res0 = lists(residual@);
        let ghost f: nat = total_len(res0) + 1;
        let ghost mut ff: nat = f;
        proof {
            lemma_total_lists(residual@);
        }
        let ghost k = chains.len() as int;
        proof {
            if fresh {
                if k >= n {
                    assert(residual@[vertex as int]@ == fresh_links(k, vertex as int));
                }
                if vertex as int != 2 * k {
                    if vertex < 2 * k {
                        assert(residual@[vertex as int]@ == fresh_links(k, vertex as int));
                    } else {
                        assert(residual@[2 * k]@ == fresh_links(k, 2 * k));
                    }
                }
            }
        }
        let mut chain: Vec<usize> = vec![vertex];
        assert(chain@ =~= seq![vertex]);
        // search forwards, from the last id of the chain
        loop
            invariant
                residual.len() == top + 1,
                links_ok(edges@, residual@),
                partial_path(edges@, chain@, residual.len() as nat),
                chain@[0] == vertex,
                chain.len() >= 2 || residual@[vertex as int]@.len() > 0,
                extend_forward(lists(residual@), chain@, ff) == extend_forward(res0, seq![vertex], f),
                ff >= total_links(residual@) + 1,
                total_links(residual@) + chain.len() <= start_total + 1,
                forall|j: int|
                    0 <= j < edges.len() ==> pending(residual@, (#[trigger] edges@[j]).0, edges@[j].1)
                        || some_chain_has_link(chains@, edges@[j].0, edges@[j].1) || has_link(
                        chain@,
                        edges@[j].0,
                        edges@[j].1,
                    ),
                fresh ==> k < n && vertex == 2 * k,
                fresh == pairwise_fresh(edges@),
                n == edges.len(),
                fresh ==> (chain.len() == 1 && fresh_state(residual@, k)) || (chain@ == seq![
                    vertex,
                    (vertex + 1) as usize,
                ] && fresh_state(residual@, k + 1)),
            ensures
                residual.len() == top + 1,
                links_ok(edges@, residual@),
                partial_path(edges@, chain@, residual.len() as nat),
                chain.len() >= 2,
                (lists(residual@), chain@) == extend_forward(res0, seq![vertex], f),
                total_links(residual@) + chain.len() <= start_total + 1,
                forall|j: int|
                    0 <= j < edges.len() ==> pending(residual@, (#[trigger] edges@[j]).0, edges@[j].1)
                        || some_chain_has_link(chains@, edges@[j].0, edges@[j].1) || has_link(
                        chain@,
                        edges@[j].0,
                        edges@[j].1,
                    ),
                fresh ==> chain@ == seq![vertex, (vertex + 1) as usize] && fresh_state(residual@, k + 1),
            decreases total_links(residual@),
        {
            let a = match continuation(&residual, chain.last()) {
                Some(a) => a,
                None => {
                    proof {
                        if chain.len() < 2 {
                            assert(chain@.last() == vertex);
                        }
                    }
                    break;
                },
            };
            let b = match first_not_in(&residual[a], &chain) {
                Some(b) => b,
                None => {
                    proof {
                        if chain.len() < 2 {
                            let x = residual@[a as int]@[0];
                            assert(residual@[a as int]@.contains(x));
                            assert(chain@ =~= seq![vertex]);
                        }
                    }
                    break;
                },
            };
            let ghost c0 = chain@;
            let ghost r0 = residual@;
            proof {
                if fresh && chain.len() >= 2 {
                    assert(r0[a as int]@ == fresh_links(k + 1, a as int));
                }
            }
            proof {
                assert(a == c0.last());
                assert(lists(r0)[a as int] == r0[a as int]@);
            }
            unlink(&mut residual, a, b, Ghost(edges@));
            chain.push(b);
            proof {
                ff = (ff - 1) as nat;
                assert(chain@ == c0.push(b));
                assert(a == c0.last());
                assert forall|j: int| 0 <= j < edges.len() implies pending(residual@, (#[trigger] edges@[j]).0, edges@[j].1)
                    || some_chain_has_link(chains@, edges@[j].0, edges@[j].1) || has_link(chain@, edges@[j].0, edges@[j].1) by {
                    let (p, q) = edges@[j];
                    if has_link(c0, p, q) {
                        lemma_has_link_push(c0, b, p, q);
                    } else if pending(r0, p, q) {
                        if (p == a && q == b) || (p == b && q == a) {
                            let i = c0.len() - 1;
                            assert(chain@[i] == a && chain@[i + 1] == b);
                        } else {
                            assert(residual@[p as int]@.contains(q));
                            assert(residual@[q as int]@.contains(p));
                        }
                    }
                }
                assert forall|i: int| 0 <= i < chain.len() - 1 implies is_segment(edges@, #[trigger] chain@[i], chain@[i + 1]) by {
                    if i == chain.len() - 2 {
                        assert(r0[a as int]@.contains(b));
                    } else {
                        assert(c0[i] == chain@[i]);
                    }
                }
                assert forall|i: int| 0 <= i < chain.len() implies #[trigger] chain@[i] < residual.len() by {
                    if i < c0.len() {
                        assert(c0[i] == chain@[i]);
                    }
                }
                assert(chain@.no_duplicates()) by {
                    assert forall|i: int, j: int| 0 <= i < j < chain.len() implies chain@[i] != chain@[j] by {
                        if j == chain.len() - 1 {
                            assert(c0.contains(c0[i]));
                        } else {
                            assert(c0[i] != c0[j]);
                        }
                    }
                }
                if fresh {
                    assert(r0[a as int]@ == fresh_links(k, a as int));
                    assert(r0[a as int]@ =~= seq![(vertex + 1) as usize]);
                    assert(r0[a as int]@.contains(b));
                    assert(b == vertex + 1);
                    assert(r0[b as int]@ == fresh_links(k, b as int));
                    assert forall|v: int| 0 <= v < residual.len() implies #[trigger] residual@[v]@ == fresh_links(k + 1, v) by {
                        if v == a as int || v == b as int {
                            if residual@[v]@.len() > 0 {
                                assert(residual@[v]@.contains(residual@[v]@[0]));
                            }
                            assert(residual@[v]@ =~= seq![]);
                        } else {
                            assert(r0[v]@ == fresh_links(k, v));
                        }
                    }
                    assert(chain@ =~= seq![vertex, (vertex + 1) as usize]);
                }
            }
        }
        let ghost res1 = lists(residual@);
        let ghost chain1 = chain@;
        let ghost mut fb: nat = f;
        // search backwards, from the first id of the chain
        loop
            invariant
                extend_backward(lists(residual@), chain@, fb) == extend_backward(res1, chain1, f),
                fb >= total_links(residual@) + 1,
                residual.len() == top + 1,
                links_ok(edges@, residual@),
                partial_path(edges@, chain@, residual.len() as nat),
                chain.len() >= 2,
                total_links(residual@) + chain.len() <= start_total + 1,
                forall|j: int|
                    0 <= j < edges.len() ==> pending(residual@, (#[trigger] edges@[j]).0, edges@[j].1)
                        || some_chain_has_link(chains@, edges@[j].0, edges@[j].1) || has_link(
                        chain@,
                        edges@[j].0,
                        edges@[j].1,
                    ),
                fresh ==> k < n && vertex == 2 * k,
                fresh == pairwise_fresh(edges@),
                n == edges.len(),
                fresh ==> chain@ == seq![vertex, (vertex + 1) as usize] && fresh_state(residual@, k + 1),
            ensures
                residual.len() == top + 1,
                links_ok(edges@, residual@),
                partial_path(edges@, chain@, residual.len() as nat),
                chain.len() >= 2,
                (lists(residual@), chain@) == extend_backward(res1, chain1, f),
                total_links(residual@) + chain.len() <= start_total + 1,
                forall|j: int|
                    0 <= j < edges.len() ==> pending(residual@, (#[trigger] edges@[j]).0, edges@[j].1)
                        || some_chain_has_link(chains@, edges@[j].0, edges@[j].1) || has_link(
                        chain@,
                        edges@[j].0,
                        edges@[j].1,
                    ),
                fresh ==> chain@ == seq![vertex, (vertex + 1) as usize] && fresh_state(residual@, k + 1),
            decreases total_links(residual@),
        {
            let a = match continuation(&residual, chain.first()) {
                Some(a) => a,
                None => break,
            };
            proof {
                if fresh {
                    assert(residual@[a as int]@ == fresh_links(k + 1, a as int));
                }
            }
            let b = match first_not_in(&residual[a], &chain) {
                Some(b) => b,
                None => break,
            };
            let ghost c0 = chain@;
            let ghost r0 = residual@;
            proof {
                assert(a == c0[0]);
                assert(lists(r0)[a as int] == r0[a as int]@);
            }
            unlink(&mut residual, a, b, Ghost(edges@));
            chain.insert(0, b);
            proof {
                fb = (fb - 1) as nat;
                assert(chain@ == seq![b] + c0);
                assert(a == c0[0]);
                assert forall|j: int| 0 <= j < edges.len() implies pending(residual@, (#[trigger] edges@[j]).0, edges@[j].1)
                    || some_chain_has_link(chains@, edges@[j].0, edges@[j].1) || has_link(chain@, edges@[j].0, edges@[j].1) by {
                    let (p, q) = edges@[j];
                    if has_link(c0, p, q) {
                        lemma_has_link_prepend(c0, b, p, q);
                    } else if pending(r0, p, q) {
                        if (p == a && q == b) || (p == b && q == a) {
                            assert(chain@[0] == b && chain@[1] == a);
                        } else {
                            assert(residual@[p as int]@.contains(q));
                            assert(residual@[q as int]@.contains(p));
                        }
                    }
                }
                assert forall|i: int| 0 <= i < chain.len() - 1 implies is_segment(edges@, #[trigger] chain@[i], chain@[i + 1]) by {
                    if i == 0 {
                        assert(r0[a as int]@.contains(b));
                        let j = choose|j: int| 0 <= j < edges@.len() && (edges@[j] == (a, b) || edges@[j] == (b, a));
                        assert(edges@[j] == (b, a) || edges@[j] == (a, b));
                    } else {
                        assert(c0[i - 1] == chain@[i]);
                        assert(c0[i] == chain@[i + 1]);
                        assert(is_segment(edges@, c0[i - 1], c0[(i - 1) + 1]));
                    }
                }
                assert forall|i: int| 0 <= i < chain.len() implies #[trigger] chain@[i] < residual.len() by {
                    if i > 0 {
                        assert(c0[i - 1] == chain@[i]);
                    }
                }
                assert(chain@.no_duplicates()) by {
                    assert forall|i: int, j: int| 0 <= i < j < chain.len() implies chain@[i] != chain@[j] by {
                        if i == 0 {
                            assert(c0.contains(c0[j - 1]));
                        } else {
                            assert(c0[i - 1] != c0[j - 1]);
                        }
                    }
                }
            }
        }
        proof {
            assert(is_path(edges@, chain@));
        }
        let ghost ch0 = chains@;
        chains.push(chain);
        proof {
            assert(chains@ == ch0.push(chain));
            assert(lists(chains@) =~= lists(ch0).push(chain@));
            fo = (fo - 1) as nat;
            assert forall|j: int| 0 <= j < n implies pending(residual@, (#[trigger] edges@[j]).0, edges@[j].1)
                || some_chain_has_link(chains@, edges@[j].0, edges@[j].1) by {
                if !pending(residual@, edges@[j].0, edges@[j].1) {
                    lemma_some_chain_push(ch0, chain, edges@[j].0, edges@[j].1);
                }
            }
            assert forall|c: int| 0 <= c < chains.len() implies is_path(edges@, #[trigger] chains@[c]@) by {
                if c < k {
                    assert(chains@[c] == ch0[c]);
                }
            }
            if fresh {
                assert forall|c: int| 0 <= c < chains.len() implies #[trigger] chains@[c]@ == seq![
                    (2 * c) as usize,
                    (2 * c + 1) as usize,
                ] by {
                    if c < k {
                        assert(chains@[c] == ch0[c]);
                    }
                }
            }
        }
    }
    chains
}

} // verus!
