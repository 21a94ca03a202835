//! A variable that is split keeps its value: what a read names holds what was assigned last.
use crate::analysis::closure;
use crate::analysis::dominance;
use crate::analysis::loops;
use crate::ir::function::SsaView;
use crate::ir::variable::SsaVarId;
use crate::passes::rebuild;
use crate::seqs;
use crate::target::Target;
use vstd::prelude::*;

verus! {

/// An assignment: the block, and its number among the assignments of the variable there.
pub type Assignment = (int, int);

impl<T: Target> SsaView<T> {
    /// The last assignment of `v` in the first `k` blocks of a way.
    pub open spec fn last_assigned(self, v: SsaVarId, way: Seq<usize>, k: nat) -> Option<Assignment>
        decreases k,
    {
        if k == 0 {
            None
        } else {
            let b = way[k - 1] as int;
            if self.count_in(v, b) > 0 {
                Some((b, self.count_in(v, b) - 1))
            } else {
                self.last_assigned(v, way, (k - 1) as nat)
            }
        }
    }

    /// The last assignment of `v` before block `k` of a way has made more than `j` of its own.
    pub open spec fn last_before(self, v: SsaVarId, way: Seq<usize>, k: nat, j: int) -> Option<
        Assignment,
    > {
        if j > 0 {
            Some((way[k as int] as int, j - 1))
        } else {
            self.last_assigned(v, way, k)
        }
    }

    /// What the parts of `v` hold after the first `j` assignments in block `b`.
    pub open spec fn after_assignments(
        self,
        v: SsaVarId,
        held: Map<SsaVarId, Assignment>,
        b: int,
        j: nat,
    ) -> Map<SsaVarId, Assignment>
        decreases j,
    {
        if j == 0 {
            held
        } else {
            self.after_assignments(v, held, b, (j - 1) as nat).insert(
                self.part(v, b, j - 1),
                (b, j - 1),
            )
        }
    }

    /// What the parts of `v` hold where control enters block `k` of a way: a phi node takes over what
    /// the block before left.
    pub open spec fn held_on_entry(self, v: SsaVarId, way: Seq<usize>, k: nat) -> Map<
        SsaVarId,
        Assignment,
    >
        decreases k, 1nat,
    {
        let b = way[k as int] as int;
        let held = self.held_after(v, way, k);
        if self.needs_phi(v, b as usize) {
            if k > 0 && held.contains_key(self.leaving(v, way[k - 1] as int)) {
                held.insert(self.phi_part(v, b), held[self.leaving(v, way[k - 1] as int)])
            } else {
                held.remove(self.phi_part(v, b))
            }
        } else {
            held
        }
    }

    /// What the parts of `v` hold after the first `k` blocks of a way.
    pub open spec fn held_after(self, v: SsaVarId, way: Seq<usize>, k: nat) -> Map<
        SsaVarId,
        Assignment,
    >
        decreases k, 0nat,
    {
        if k == 0 {
            Map::empty()
        } else {
            let b = way[k - 1] as int;
            self.after_assignments(
                v,
                self.held_on_entry(v, way, (k - 1) as nat),
                b,
                self.count_in(v, b),
            )
        }
    }
}

proof fn lemma_assigner_marked<T: Target>(ssa: SsaView<T>, v: SsaVarId, b: usize)
    requires
        b < ssa.blocks.len() <= usize::MAX,
        ssa.count_in(v, b as int) > 0,
    ensures
        ssa.is_marked(v, b),
{
    let n = ssa.blocks.len();
    assert((ssa.assigner(v))(b as int) == seq![b]);
    assert(seq![b][0] == b);
    seqs::lemma_flat_contains(ssa.assigner(v), n, b as int, b);
    closure::roots_are_reached(n, ssa.assigners(v), ssa.frontier(), b);
}

proof fn lemma_join_marked<T: Target>(ssa: SsaView<T>, v: SsaVarId, y: usize)
    requires
        y < ssa.blocks.len() <= usize::MAX,
        ssa.needs_phi(v, y),
    ensures
        ssa.is_marked(v, y),
{
    let n = ssa.blocks.len();
    let x = choose|x: usize|
        x < ssa.blocks.len() && #[trigger] ssa.is_marked(v, x) && ssa.on_frontier(x, y);
    let e = (x, y);
    assert((ssa.frontier_at(x as int))(y as int) == seq![e]);
    assert(seq![e][0] == e);
    seqs::lemma_flat_contains(ssa.frontier_at(x as int), n, y as int, e);
    assert((ssa.frontier_from())(x as int).contains(e));
    seqs::lemma_flat_contains(ssa.frontier_from(), n, x as int, e);
    closure::reached_is_closed(n, ssa.assigners(v), ssa.frontier(), x, y);
}

/// Where a block that dominates another settles the value, some block is the nearest that does.
proof fn lemma_some_nearest<T: Target>(
    ssa: SsaView<T>,
    v: SsaVarId,
    b: usize,
    m: usize,
    n: nat,
) -> (best: usize)
    requires
        n <= ssa.blocks.len() <= usize::MAX,
        m < ssa.blocks.len(),
        m != b,
        ssa.is_marked(v, m),
        ssa.dominates(m, b),
    ensures
        best < ssa.blocks.len(),
        best != b,
        ssa.is_marked(v, best),
        ssa.dominates(best, b),
        ssa.dominates(m, best),
        forall|x: usize|
            x < n && x != b && #[trigger] ssa.is_marked(v, x) && ssa.dominates(x, b)
                ==> ssa.dominates(x, best),
    decreases n,
{
    if n == 0 {
        dominance::dominators_are_reached(ssa, m, b);
        loops::dominates_itself(ssa, m);
        m
    } else {
        let last = lemma_some_nearest(ssa, v, b, m, (n - 1) as nat);
        let x = (n - 1) as usize;
        if x != b && ssa.is_marked(v, x) && ssa.dominates(x, b) && !ssa.dominates(x, last) {
            dominance::dominators_form_a_chain(ssa, x, last, b);
            dominance::dominators_are_reached(ssa, x, b);
            loops::dominates_itself(ssa, x);
            dominance::dominance_is_transitive(ssa, m, last, x);
            assert forall|z: usize|
                z < n && z != b && #[trigger] ssa.is_marked(v, z) && ssa.dominates(
                    z,
                    b,
                ) implies ssa.dominates(z, x) by {
                if z < n - 1 {
                    dominance::dominance_is_transitive(ssa, z, last, x);
                }
            }
            x
        } else {
            last
        }
    }
}

/// Where no phi node is placed, a block is entered with what every block that control comes from is
/// left with.
pub proof fn value_passes_where_no_phi_is_placed<T: Target>(
    ssa: SsaView<T>,
    v: SsaVarId,
    p: usize,
    y: usize,
)
    requires
        ssa.blocks.len() <= usize::MAX,
        y < ssa.blocks.len(),
        ssa.predecessors(y).contains(p),
        ssa.is_reached(p),
        !ssa.needs_phi(v, y),
    ensures
        ssa.entering(v, y as int) == ssa.leaving(v, p as int),
{
    dominance::predecessors_have_edges(ssa, y, p);
    loops::dominates_itself(ssa, p);
    let from = ssa.predecessors(y);
    let k = choose|k: int| 0 <= k < from.len() && from[k] == p;
    // What settles the value at the end of `p` also dominates `y`.
    assert forall|m: usize|
        m < ssa.blocks.len() && #[trigger] ssa.is_marked(v, m) && ssa.dominates(m, p) implies m != y
        && ssa.dominates(m, y) by {
        if m == y || !ssa.dominates(m, y) {
            assert(ssa.dominates(m, ssa.predecessors(y)[k]));
            assert(ssa.on_frontier(m, y));
            assert(ssa.needs_phi(v, y));
        }
    }
    // What settles the value before `y` dominates `p`.
    assert forall|x: usize|
        x < ssa.blocks.len() && x != y && #[trigger] ssa.is_marked(v, x) && ssa.dominates(
            x,
            y,
        ) implies ssa.dominates(x, p) by {
        dominance::dominators_cover_predecessors(ssa, x, y, p);
    }
    if ssa.is_marked(v, p) {
        assert(ssa.is_nearest(v, y, p));
        rebuild::lemma_nearest_is_one(ssa, v, y, p);
        rebuild::lemma_marked(ssa, v, p);
    } else {
        if ssa.count_in(v, p as int) > 0 {
            lemma_assigner_marked(ssa, v, p);
        }
        if ssa.needs_phi(v, p) {
            lemma_join_marked(ssa, v, p);
        }
        match ssa.nearest(v, p) {
            Some(m) => {
                assert(ssa.is_nearest(v, p, m));
                assert forall|x: usize|
                    x < ssa.blocks.len() && x != y && #[trigger] ssa.is_marked(v, x)
                        && ssa.dominates(x, y) implies ssa.dominates(x, m) by {
                    assert(ssa.dominates(x, p));
                    assert(x != p);
                }
                assert(ssa.is_nearest(v, y, m));
                rebuild::lemma_nearest_is_one(ssa, v, y, m);
            },
            None => {
                if let Some(m) = ssa.nearest(v, y) {
                    assert(ssa.is_nearest(v, y, m));
                    assert(ssa.is_marked(v, m) && ssa.dominates(m, p) && m != p);
                    let best = lemma_some_nearest(ssa, v, p, m, ssa.blocks.len());
                    assert(ssa.is_nearest(v, p, best));
                }
            },
        }
    }
}

proof fn lemma_left<T: Target>(ssa: SsaView<T>, v: SsaVarId, way: Seq<usize>, k: nat)
    requires
        ssa.blocks.len() <= usize::MAX,
        ssa.is_way(way),
        0 < k <= way.len(),
        ssa.last_assigned(v, way, k) is Some,
    ensures
        ({
            let part = ssa.leaving(v, way[k - 1] as int);
            let held = ssa.held_after(v, way, k);
            held.contains_key(part) && Some(held[part]) == ssa.last_assigned(v, way, k)
        }),
    decreases k, 0nat,
{
    let b = way[k - 1] as int;
    if ssa.count_in(v, b) == 0 {
        lemma_entered(ssa, v, way, (k - 1) as nat);
    }
}

proof fn lemma_entered<T: Target>(ssa: SsaView<T>, v: SsaVarId, way: Seq<usize>, k: nat)
    requires
        ssa.blocks.len() <= usize::MAX,
        ssa.is_way(way),
        k < way.len(),
        ssa.last_assigned(v, way, k) is Some,
    ensures
        ({
            let part = ssa.entering(v, way[k as int] as int);
            let held = ssa.held_on_entry(v, way, k);
            held.contains_key(part) && Some(held[part]) == ssa.last_assigned(v, way, k)
        }),
    decreases k, 1nat,
{
    lemma_left(ssa, v, way, k);
    let j = k - 1;
    let p = way[j];
    let y = way[k as int];
    assert(ssa.edges().contains((way[j], way[k as int])));
    dominance::edges_have_predecessors(ssa, y, p);
    dominance::way_begins(ssa, way, k as int);
    if !ssa.needs_phi(v, y) {
        value_passes_where_no_phi_is_placed(ssa, v, p, y);
    }
}

/// What a read of a variable that is split names holds what was assigned to the variable last, on
/// every way from the entry: after the first `j` assignments in block `k` of the way, the part that
/// is read there holds the last assignment before.
pub proof fn reads_name_the_last_assignment<T: Target>(
    ssa: SsaView<T>,
    v: SsaVarId,
    way: Seq<usize>,
    k: nat,
    j: nat,
)
    requires
        ssa.blocks.len() <= usize::MAX,
        ssa.is_way(way),
        k < way.len(),
        j <= ssa.count_in(v, way[k as int] as int),
        ssa.last_before(v, way, k, j as int) is Some,
    ensures
        ({
            let b = way[k as int] as int;
            let part = ssa.part_after(v, b, j as int);
            let held = ssa.after_assignments(v, ssa.held_on_entry(v, way, k), b, j);
            held.contains_key(part) && Some(held[part]) == ssa.last_before(v, way, k, j as int)
        }),
{
    if j == 0 {
        lemma_entered(ssa, v, way, k);
    }
}

} // verus!
