//! How dominators relate to each other.
use crate::analysis::closure;
use crate::analysis::loops;
use crate::ir::function::SsaView;
use crate::seqs;
use crate::target::Target;
use vstd::prelude::*;

verus! {

impl<T: Target> SsaView<T> {
    /// A way that control can take from the entry.
    pub open spec fn is_way(self, way: Seq<usize>) -> bool {
        closure::is_walk(self.blocks.len(), seq![0usize], self.edges(), way)
    }

    /// Control can reach block `b` from the entry.
    pub open spec fn is_reached(self, b: usize) -> bool {
        closure::reached(self.blocks.len(), seq![0usize], self.edges(), b)
    }
}

/// A block that every way to `b` passes dominates `b`.
pub proof fn passed_blocks_dominate<T: Target>(ssa: SsaView<T>, d: usize, b: usize)
    requires
        ssa.is_reached(b),
        forall|way: Seq<usize>| #[trigger] ssa.is_way(way) && way.last() == b ==> way.contains(d),
    ensures
        ssa.dominates(d, b),
{
    let n = ssa.blocks.len();
    let all = ssa.edges();
    let edges = loops::avoiding(all, d);
    if closure::reached(n, loops::entry_but(d), edges, b) {
        let way = choose|way: Seq<usize>| #[trigger]
            closure::is_walk(n, loops::entry_but(d), edges, way) && way.last() == b;
        lemma_avoiding_way(ssa, d, way);
        assert(way.contains(d));
    }
}

proof fn lemma_avoiding_way<T: Target>(ssa: SsaView<T>, d: usize, way: Seq<usize>)
    requires
        closure::is_walk(
            ssa.blocks.len(),
            loops::entry_but(d),
            loops::avoiding(ssa.edges(), d),
            way,
        ),
    ensures
        ssa.is_way(way),
        !way.contains(d),
{
    let all = ssa.edges();
    let edges = loops::avoiding(all, d);
    assert(way[0] == 0 && d != 0) by {
        let k = choose|k: int| 0 <= k < loops::entry_but(d).len() && loops::entry_but(d)[k] == way[0];
    }
    assert(seq![0usize][0] == way[0]);
    assert(seq![0usize].contains(way[0]));
    assert forall|i: int, j: int| 0 <= i < way.len() && j == i + 1 && j < way.len() implies all.contains(
        (#[trigger] way[i], #[trigger] way[j]),
    ) && way[j] != d by {
        let e = (way[i], way[j]);
        assert(edges.contains(e));
        loops::lemma_avoiding(all, d, all.len(), e);
        let k = seqs::lemma_flat_source(loops::edge_avoiding(all, d), all.len(), e);
        assert((loops::edge_avoiding(all, d))(k).contains(e));
        assert(all[k] == e);
    }
    if way.contains(d) {
        let k = choose|k: int| 0 <= k < way.len() && way[k] == d;
        if k > 0 {
            let i = k - 1;
            assert(all.contains((way[i], way[k])) && way[k] != d);
        }
    }
}

/// Where a block does not dominate one that control reaches, some way there avoids it.
proof fn lemma_way_around<T: Target>(ssa: SsaView<T>, d: usize, b: usize) -> (way: Seq<usize>)
    requires
        ssa.is_reached(b),
        !ssa.dominates(d, b),
    ensures
        ssa.is_way(way),
        way.last() == b,
        !way.contains(d),
{
    let n = ssa.blocks.len();
    let edges = loops::avoiding(ssa.edges(), d);
    let way = choose|way: Seq<usize>| #[trigger]
        closure::is_walk(n, loops::entry_but(d), edges, way) && way.last() == b;
    lemma_avoiding_way(ssa, d, way);
    way
}

/// The beginning of a way is a way.
pub proof fn way_begins<T: Target>(ssa: SsaView<T>, way: Seq<usize>, k: int)
    requires
        ssa.is_way(way),
        0 < k <= way.len(),
    ensures
        ssa.is_way(way.take(k)),
        way.take(k).last() == way[k - 1],
        ssa.is_reached(way[k - 1]),
{
    let part = way.take(k);
    assert(part[0] == way[0]);
    assert forall|i: int| 0 <= i < part.len() implies (#[trigger] part[i]) < ssa.blocks.len() by {
        assert(part[i] == way[i]);
    }
    assert forall|i: int, j: int|
        0 <= i < part.len() && j == i + 1 && j < part.len() implies ssa.edges().contains(
        (#[trigger] part[i], #[trigger] part[j]),
    ) by {
        assert(part[i] == way[i] && part[j] == way[j]);
    }
    assert(ssa.is_way(part));
    assert(closure::is_walk(ssa.blocks.len(), seq![0usize], ssa.edges(), part));
}

/// A block that dominates another, and the block itself, are reached.
pub proof fn dominators_are_reached<T: Target>(ssa: SsaView<T>, d: usize, b: usize)
    requires
        ssa.dominates(d, b),
    ensures
        ssa.is_reached(d),
        ssa.is_reached(b),
        d < ssa.blocks.len(),
        b < ssa.blocks.len(),
{
    let way = choose|way: Seq<usize>| #[trigger]
        closure::is_walk(ssa.blocks.len(), seq![0usize], ssa.edges(), way) && way.last() == b;
    loops::dominators_are_passed(ssa, d, b, way);
    let k = choose|k: int| 0 <= k < way.len() && way[k] == d;
    way_begins(ssa, way, k + 1);
    assert(way[way.len() - 1] < ssa.blocks.len());
}

/// Dominance is transitive.
pub proof fn dominance_is_transitive<T: Target>(ssa: SsaView<T>, a: usize, b: usize, c: usize)
    requires
        ssa.dominates(a, b),
        ssa.dominates(b, c),
    ensures
        ssa.dominates(a, c),
{
    assert forall|way: Seq<usize>| #[trigger] ssa.is_way(way) && way.last() == c implies way.contains(
        a,
    ) by {
        loops::dominators_are_passed(ssa, b, c, way);
        let k = choose|k: int| 0 <= k < way.len() && way[k] == b;
        way_begins(ssa, way, k + 1);
        let part = way.take(k + 1);
        loops::dominators_are_passed(ssa, a, b, part);
        let j = choose|j: int| 0 <= j < part.len() && part[j] == a;
        assert(way[j] == a);
    }
    passed_blocks_dominate(ssa, a, c);
}

proof fn lemma_same_block<T: Target>(ssa: SsaView<T>, a: usize, b: usize, way: Seq<usize>)
    requires
        ssa.dominates(a, b),
        ssa.dominates(b, a),
        ssa.is_way(way),
        way.last() == a,
    ensures
        a == b,
    decreases way.len(),
{
    loops::dominators_are_passed(ssa, b, a, way);
    let k = choose|k: int| 0 <= k < way.len() && way[k] == b;
    way_begins(ssa, way, k + 1);
    let part = way.take(k + 1);
    loops::dominators_are_passed(ssa, a, b, part);
    let j = choose|j: int| 0 <= j < part.len() && part[j] == a;
    assert(way[j] == a);
    if j < k {
        way_begins(ssa, way, j + 1);
        lemma_same_block(ssa, a, b, way.take(j + 1));
    }
}

/// Blocks that dominate each other are one.
pub proof fn dominance_is_antisymmetric<T: Target>(ssa: SsaView<T>, a: usize, b: usize)
    requires
        ssa.dominates(a, b),
        ssa.dominates(b, a),
    ensures
        a == b,
{
    let way = choose|way: Seq<usize>| #[trigger]
        closure::is_walk(ssa.blocks.len(), seq![0usize], ssa.edges(), way) && way.last() == a;
    assert(ssa.is_way(way));
    lemma_same_block(ssa, a, b, way);
}

proof fn lemma_last_index(s: Seq<usize>, x: usize, n: nat) -> (k: int)
    requires
        n <= s.len(),
        s.take(n as int).contains(x),
    ensures
        0 <= k < n,
        s[k] == x,
        forall|j: int| k < j < n ==> #[trigger] s[j] != x,
    decreases n,
{
    if n > 0 && s[n - 1] == x {
        n - 1
    } else {
        let part = s.take(n as int);
        let i = choose|i: int| 0 <= i < part.len() && part[i] == x;
        assert(s[i] == x);
        assert(s.take(n - 1)[i] == x);
        lemma_last_index(s, x, (n - 1) as nat)
    }
}

proof fn lemma_joined_ways<T: Target>(ssa: SsaView<T>, first: Seq<usize>, second: Seq<usize>, k: int)
    requires
        ssa.is_way(first),
        ssa.is_way(second),
        0 <= k < second.len(),
        first.last() == second[k],
    ensures
        ssa.is_way(first + second.skip(k + 1)),
        (first + second.skip(k + 1)).last() == second.last(),
{
    let tail = second.skip(k + 1);
    let all = first + tail;
    let n = ssa.blocks.len();
    assert(all[0] == first[0]);
    assert forall|i: int| 0 <= i < all.len() implies (#[trigger] all[i]) < n by {
        if i < first.len() {
            assert(all[i] == first[i]);
        } else {
            assert(all[i] == second[k + 1 + (i - first.len())]);
        }
    }
    assert forall|i: int, j: int| 0 <= i < all.len() && j == i + 1 && j < all.len() implies ssa.edges().contains(
        (#[trigger] all[i], #[trigger] all[j]),
    ) by {
        if j < first.len() {
            assert(all[i] == first[i] && all[j] == first[j]);
        } else if i < first.len() {
            assert(all[i] == first.last());
            assert(all[i] == second[k] && all[j] == second[k + 1]);
        } else {
            assert(all[i] == second[k + 1 + (i - first.len())]);
            assert(all[j] == second[k + 1 + (j - first.len())]);
        }
    }
    if tail.len() == 0 {
        assert(all =~= first);
        assert(k == second.len() - 1);
    } else {
        assert(all.last() == tail.last());
    }
}

proof fn lemma_around_later<T: Target>(
    ssa: SsaView<T>,
    d: usize,
    e: usize,
    b: usize,
    way: Seq<usize>,
    i: int,
)
    requires
        ssa.dominates(e, b),
        ssa.is_way(way),
        way.last() == b,
        0 <= i < way.len(),
        way[i] == d,
        forall|k: int| i < k < way.len() ==> #[trigger] way[k] != e,
        ssa.is_reached(d),
    ensures
        ssa.dominates(e, d),
{
    if !ssa.dominates(e, d) {
        let round = lemma_way_around(ssa, e, d);
        lemma_joined_ways(ssa, round, way, i);
        let all = round + way.skip(i + 1);
        loops::dominators_are_passed(ssa, e, b, all);
        let k = choose|k: int| 0 <= k < all.len() && all[k] == e;
        if k < round.len() {
            assert(round[k] == e);
        } else {
            assert(way[i + 1 + (k - round.len())] == e);
        }
    }
}

/// Of two blocks that dominate a third, one dominates the other.
pub proof fn dominators_form_a_chain<T: Target>(ssa: SsaView<T>, d: usize, e: usize, b: usize)
    requires
        ssa.dominates(d, b),
        ssa.dominates(e, b),
    ensures
        ssa.dominates(d, e) || ssa.dominates(e, d),
{
    if !ssa.dominates(d, e) && !ssa.dominates(e, d) {
        dominators_are_reached(ssa, d, b);
        dominators_are_reached(ssa, e, b);
        let way = choose|way: Seq<usize>| #[trigger]
            closure::is_walk(ssa.blocks.len(), seq![0usize], ssa.edges(), way) && way.last() == b;
        assert(ssa.is_way(way));
        loops::dominators_are_passed(ssa, d, b, way);
        loops::dominators_are_passed(ssa, e, b, way);
        assert(way.take(way.len() as int) =~= way);
        let i = lemma_last_index(way, d, way.len());
        let j = lemma_last_index(way, e, way.len());
        if i > j {
            lemma_around_later(ssa, d, e, b, way, i);
        } else if j > i {
            lemma_around_later(ssa, e, d, b, way, j);
        } else {
            assert(d == e);
            loops::dominates_itself(ssa, d);
        }
    }
}

/// A predecessor of a block is where an edge to it comes from.
pub proof fn predecessors_have_edges<T: Target>(ssa: SsaView<T>, b: usize, p: usize)
    requires
        ssa.predecessors(b).contains(p),
        ssa.blocks.len() <= usize::MAX,
    ensures
        p < ssa.blocks.len(),
        ssa.edges().contains((p, b)),
{
    let n = ssa.blocks.len();
    let a = seqs::lemma_flat_source(ssa.enters(b), n, p);
    assert((ssa.enters(b))(a).contains(p));
    assert(a == p);
    let successors = ssa.blocks[a].successors();
    let k = choose|k: int| 0 <= k < successors.len() && successors[k] == b;
    assert((ssa.edges_from())(a)[k] == (p, b));
    assert((ssa.edges_from())(a).contains((p, b)));
    seqs::lemma_flat_contains(ssa.edges_from(), n, a, (p, b));
}

/// An edge comes from a predecessor.
pub proof fn edges_have_predecessors<T: Target>(ssa: SsaView<T>, b: usize, p: usize)
    requires
        ssa.edges().contains((p, b)),
        ssa.blocks.len() <= usize::MAX,
    ensures
        ssa.predecessors(b).contains(p),
{
    let n = ssa.blocks.len();
    let a = seqs::lemma_flat_source(ssa.edges_from(), n, (p, b));
    let successors = ssa.blocks[a].successors();
    let from = (ssa.edges_from())(a);
    let k = choose|k: int| 0 <= k < from.len() && from[k] == (p, b);
    assert(successors[k] == b && a as usize == p);
    assert(successors.contains(b));
    assert((ssa.enters(b))(a) == seq![p]);
    assert(seq![p][0] == p);
    seqs::lemma_flat_contains(ssa.enters(b), n, a, p);
}

/// What dominates a block, other than itself, dominates every block that control comes from.
pub proof fn dominators_cover_predecessors<T: Target>(ssa: SsaView<T>, d: usize, b: usize, p: usize)
    requires
        ssa.dominates(d, b),
        d != b,
        ssa.predecessors(b).contains(p),
        ssa.is_reached(p),
        ssa.blocks.len() <= usize::MAX,
    ensures
        ssa.dominates(d, p),
{
    predecessors_have_edges(ssa, b, p);
    dominators_are_reached(ssa, d, b);
    assert forall|way: Seq<usize>| #[trigger] ssa.is_way(way) && way.last() == p implies way.contains(
        d,
    ) by {
        let longer = way.push(b);
        assert forall|i: int| 0 <= i < longer.len() implies (#[trigger] longer[i])
            < ssa.blocks.len() by {
            if i < way.len() {
                assert(longer[i] == way[i]);
            }
        }
        assert forall|i: int, j: int|
            0 <= i < longer.len() && j == i + 1 && j < longer.len() implies ssa.edges().contains(
            (#[trigger] longer[i], #[trigger] longer[j]),
        ) by {
            if j < way.len() {
                assert(longer[i] == way[i] && longer[j] == way[j]);
            } else {
                assert(longer[i] == way.last() && longer[j] == b);
            }
        }
        assert(longer[0] == way[0]);
        assert(ssa.is_way(longer));
        loops::dominators_are_passed(ssa, d, b, longer);
        let k = choose|k: int| 0 <= k < longer.len() && longer[k] == d;
        assert(way[k] == d);
    }
    passed_blocks_dominate(ssa, d, p);
}

} // verus!
