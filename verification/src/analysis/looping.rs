//! What belongs to a loop, and how control comes into it.
use crate::analysis::closure;
use crate::analysis::loops;
use crate::ir::function::SsaView;
use crate::seqs;
use crate::target::Target;
use vstd::prelude::*;

verus! {

proof fn lemma_edge<T: Target>(ssa: SsaView<T>, a: usize, b: usize)
    requires
        ssa.blocks.len() <= usize::MAX,
    ensures
        ssa.edges().contains((a, b)) <==> a < ssa.blocks.len()
            && ssa.blocks[a as int].successors().contains(b),
{
    let n = ssa.blocks.len();
    if ssa.edges().contains((a, b)) {
        let c = seqs::lemma_flat_source(ssa.edges_from(), n, (a, b));
        let piece = (ssa.edges_from())(c);
        let k = choose|k: int| 0 <= k < piece.len() && piece[k] == (a, b);
        assert(ssa.blocks[c].successors()[k] == b);
    }
    if a < n && ssa.blocks[a as int].successors().contains(b) {
        let next = ssa.blocks[a as int].successors();
        let k = choose|k: int| 0 <= k < next.len() && next[k] == b;
        let piece = (ssa.edges_from())(a as int);
        assert(piece[k] == (a, b));
        seqs::lemma_flat_contains(ssa.edges_from(), n, a as int, (a, b));
    }
}

proof fn lemma_avoids(edges: Seq<(usize, usize)>, x: usize, e: (usize, usize))
    ensures
        loops::avoiding(edges, x).contains(e) <==> edges.contains(e) && e.0 != x && e.1 != x,
{
    let f = loops::edge_avoiding(edges, x);
    if loops::avoiding(edges, x).contains(e) {
        let k = seqs::lemma_flat_source(f, edges.len(), e);
        let piece = f(k);
        let j = choose|j: int| 0 <= j < piece.len() && piece[j] == e;
        assert(edges[k] == e);
    }
    if edges.contains(e) && e.0 != x && e.1 != x {
        let k = choose|k: int| 0 <= k < edges.len() && edges[k] == e;
        assert(f(k)[0] == e);
        seqs::lemma_flat_contains(f, edges.len(), k, e);
    }
}

proof fn lemma_turned(edges: Seq<(usize, usize)>, a: usize, b: usize)
    ensures
        loops::turned(edges).contains((a, b)) <==> edges.contains((b, a)),
{
    let back = loops::turned(edges);
    if back.contains((a, b)) {
        let k = choose|k: int| 0 <= k < back.len() && back[k] == (a, b);
        assert(edges[k] == (b, a));
    }
    if edges.contains((b, a)) {
        let k = choose|k: int| 0 <= k < edges.len() && edges[k] == (b, a);
        assert(back[k] == (a, b));
    }
}

/// A block closes a loop exactly where it continues at the header and every way from the entry to it
/// passes the header. It belongs to the loop, and so does the header.
pub proof fn latches_go_back<T: Target>(ssa: SsaView<T>, h: usize, l: usize)
    requires
        h < ssa.blocks.len() <= usize::MAX,
    ensures
        ssa.latches(h).contains(l) <==> l < ssa.blocks.len()
            && ssa.blocks[l as int].successors().contains(h) && ssa.dominates(h, l),
        ssa.latches(h).contains(l) ==> ssa.loop_body(h)[l as int],
        ssa.loop_body(h)[h as int],
        ssa.loop_body(h).len() == ssa.blocks.len(),
{
    let n = ssa.blocks.len();
    if ssa.latches(h).contains(l) {
        let k = seqs::lemma_flat_source(ssa.latch_at(h), n, l);
        let piece = (ssa.latch_at(h))(k);
        let j = choose|j: int| 0 <= j < piece.len() && piece[j] == l;
        assert(k == l);
        closure::roots_are_reached(
            n,
            ssa.latches(h),
            loops::avoiding(loops::turned(ssa.edges()), h),
            l,
        );
    }
    if l < n && ssa.blocks[l as int].successors().contains(h) && ssa.dominates(h, l) {
        assert((ssa.latch_at(h))(l as int)[0] == l);
        seqs::lemma_flat_contains(ssa.latch_at(h), n, l as int, l);
    }
}

/// Control comes into a loop only at its header: what leads to another block of the loop belongs to
/// the loop.
pub proof fn loops_are_entered_at_the_header<T: Target>(ssa: SsaView<T>, h: usize, a: usize, b: usize)
    requires
        h < ssa.blocks.len() <= usize::MAX,
        a < ssa.blocks.len(),
        b < ssa.blocks.len(),
        b != h,
        ssa.loop_body(h)[b as int],
        ssa.blocks[a as int].successors().contains(b),
    ensures
        ssa.loop_body(h)[a as int],
{
    let n = ssa.blocks.len();
    let back = loops::turned(ssa.edges());
    if a != h {
        lemma_edge(ssa, a, b);
        lemma_turned(ssa.edges(), b, a);
        lemma_avoids(back, h, (b, a));
        closure::reached_is_closed(n, ssa.latches(h), loops::avoiding(back, h), b, a);
    }
}

/// Every way from the entry to a block of a loop passes the header.
pub proof fn headers_dominate_their_loops<T: Target>(ssa: SsaView<T>, h: usize, b: usize)
    requires
        h < ssa.blocks.len() <= usize::MAX,
        b < ssa.blocks.len(),
        ssa.loop_body(h)[b as int],
        closure::reached(ssa.blocks.len(), seq![0usize], ssa.edges(), b),
    ensures
        ssa.dominates(h, b),
{
    let n = ssa.blocks.len();
    let all = ssa.edges();
    let back = loops::turned(all);
    let start = loops::entry_but(h);
    let others = loops::avoiding(all, h);
    if b == h {
        loops::dominates_itself(ssa, h);
    } else {
        let within = Set::new(|x: usize| x < n && !closure::reached(n, start, others, x));
        assert forall|r: usize| ssa.latches(h).contains(r) && r < n implies #[trigger]
            within.contains(r) by {
            latches_go_back(ssa, h, r);
        }
        assert forall|x: usize, y: usize|
            #![trigger loops::avoiding(back, h).contains((x, y))]
            within.contains(x) && loops::avoiding(back, h).contains((x, y)) && y
                < n implies within.contains(y) by {
            lemma_avoids(back, h, (x, y));
            lemma_turned(all, x, y);
            lemma_avoids(all, h, (y, x));
            if closure::reached(n, start, others, y) {
                closure::reached_is_closed(n, start, others, y, x);
            }
        }
        closure::reached_is_least(
            n,
            ssa.latches(h),
            loops::avoiding(back, h),
            within,
            b,
        );
    }
}

/// Where a loop has a preheader, that block always goes to the header, does not belong to the loop,
/// and nothing else outside the loop leads into it.
pub proof fn preheaders_are_the_only_way_in<T: Target>(
    ssa: SsaView<T>,
    h: usize,
    a: usize,
    b: usize,
)
    requires
        h < ssa.blocks.len() <= usize::MAX,
        ssa.preheader(h) is Some,
        a < ssa.blocks.len(),
        b < ssa.blocks.len(),
        ssa.blocks[a as int].successors().contains(b),
        !ssa.loop_body(h)[a as int],
        ssa.loop_body(h)[b as int],
    ensures
        b == h,
        ssa.preheader(h) == Some(a),
        forall|s: usize| ssa.blocks[a as int].successors().contains(s) ==> s == h,
{
    let n = ssa.blocks.len();
    if b != h {
        loops_are_entered_at_the_header(ssa, h, a, b);
    }
    let body = ssa.loop_body(h);
    let f = ssa.enters_from_outside(h, body);
    assert(f(a as int)[0] == a);
    seqs::lemma_flat_contains(f, n, a as int, a);
    let outside = ssa.outside_predecessors(h, body);
    let k = choose|k: int| 0 <= k < outside.len() && outside[k] == a;
    assert(outside[0] == a);
    let next = ssa.blocks[a as int].successors();
    let j = choose|j: int| 0 <= j < next.len() && next[j] == b;
    assert(next[0] == h);
}

} // verus!
