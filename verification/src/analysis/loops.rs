//! Dominators and natural loops.
use crate::analysis::cfg;
use crate::analysis::closure;
use crate::ir::function::{SsaFunction, SsaView};
use crate::seqs;
use crate::target::Target;
use vstd::prelude::*;

verus! {

/// Edge `k`, where it does not touch `x`.
pub open spec fn edge_avoiding(edges: Seq<(usize, usize)>, x: usize) -> spec_fn(int) -> Seq<
    (usize, usize),
> {
    |k: int|
        if edges[k].0 != x && edges[k].1 != x {
            seq![edges[k]]
        } else {
            Seq::empty()
        }
}

/// The edges that do not touch `x`.
pub open spec fn avoiding(edges: Seq<(usize, usize)>, x: usize) -> Seq<(usize, usize)> {
    seqs::flat(edge_avoiding(edges, x), edges.len())
}

/// The edges, each turned around.
pub open spec fn turned(edges: Seq<(usize, usize)>) -> Seq<(usize, usize)> {
    edges.map_values(|e: (usize, usize)| (e.1, e.0))
}

/// The entry, unless it is `x`.
pub open spec fn entry_but(x: usize) -> Seq<usize> {
    if x == 0 {
        Seq::empty()
    } else {
        seq![0usize]
    }
}

/// A natural loop.
pub struct LoopView {
    /// The block that control enters the loop at.
    pub header: usize,
    /// The blocks of the loop that continue at the header.
    pub latches: Seq<usize>,
    /// For each block, whether it belongs to the loop.
    pub body: Seq<bool>,
    /// The block outside the loop that always continues at the header, where that is the only way in.
    pub preheader: Option<usize>,
    /// How many loops the header belongs to.
    pub depth: nat,
}

impl<T: Target> SsaView<T> {
    /// Control that reaches `b` has passed `d`, and it can reach `b`.
    pub open spec fn dominates(self, d: usize, b: usize) -> bool {
        let n = self.blocks.len();
        closure::reached(n, seq![0usize], self.edges(), b) && !closure::reached(
            n,
            entry_but(d),
            avoiding(self.edges(), d),
            b,
        )
    }

    /// Block `l`, where it continues at `h` and only `h` leads there.
    pub open spec fn latch_at(self, h: usize) -> spec_fn(int) -> Seq<usize> {
        |l: int|
            if self.blocks[l].successors().contains(h) && self.dominates(h, l as usize) {
                seq![l as usize]
            } else {
                Seq::empty()
            }
    }

    /// The blocks that close a loop at `h`.
    pub open spec fn latches(self, h: usize) -> Seq<usize> {
        seqs::flat(self.latch_at(h), self.blocks.len())
    }

    /// For each block, whether it belongs to the loop at `h`: it is `h`, or it leads to the end of
    /// the loop without passing `h`.
    pub open spec fn loop_body(self, h: usize) -> Seq<bool> {
        Seq::new(
            self.blocks.len(),
            |b: int|
                b == h || closure::reached(
                    self.blocks.len(),
                    self.latches(h),
                    avoiding(turned(self.edges()), h),
                    b as usize,
                ),
        )
    }

    /// Block `a`, where it continues at `h` and does not belong to `body`.
    pub open spec fn enters_from_outside(self, h: usize, body: Seq<bool>) -> spec_fn(int) -> Seq<
        usize,
    > {
        |a: int|
            if self.blocks[a].successors().contains(h) && !body[a] {
                seq![a as usize]
            } else {
                Seq::empty()
            }
    }

    /// The blocks outside `body` that continue at `h`.
    pub open spec fn outside_predecessors(self, h: usize, body: Seq<bool>) -> Seq<usize> {
        seqs::flat(self.enters_from_outside(h, body), self.blocks.len())
    }

    /// The block that always continues at `h`, where that is the only way into the loop.
    pub open spec fn preheader(self, h: usize) -> Option<usize> {
        let outside = self.outside_predecessors(h, self.loop_body(h));
        if outside.len() == 1 && self.blocks[outside[0] as int].successors().len() == 1 {
            Some(outside[0])
        } else {
            None
        }
    }

    /// The loop at `h` holds block `b`.
    pub open spec fn loop_holds(self, h: int, b: int) -> bool {
        self.latches(h as usize).len() > 0 && self.loop_body(h as usize)[b]
    }

    /// How many loops at the first `n` blocks hold block `b`.
    pub open spec fn depth_among(self, b: int, n: nat) -> nat
        decreases n,
    {
        if n == 0 {
            0
        } else {
            self.depth_among(b, (n - 1) as nat) + (if self.loop_holds(n - 1, b) {
                1nat
            } else {
                0nat
            })
        }
    }

    /// The loop at `h`.
    pub open spec fn loop_at(self, h: usize) -> LoopView {
        LoopView {
            header: h,
            latches: self.latches(h),
            body: self.loop_body(h),
            preheader: self.preheader(h),
            depth: self.depth_among(h as int, self.blocks.len()),
        }
    }

    /// The loop at block `h`, where there is one and it is `depth` deep.
    pub open spec fn loop_of_depth(self, depth: int) -> spec_fn(int) -> Seq<LoopView> {
        |h: int|
            if self.latches(h as usize).len() > 0 && self.depth_among(h, self.blocks.len())
                == depth {
                seq![self.loop_at(h as usize)]
            } else {
                Seq::empty()
            }
    }

    /// The loops that are `k` less deep than the number of blocks.
    pub open spec fn loops_by_depth(self) -> spec_fn(int) -> Seq<LoopView> {
        |k: int| seqs::flat(self.loop_of_depth(self.blocks.len() - k), self.blocks.len())
    }

    /// The loops, the deepest first.
    pub open spec fn loops(self) -> Seq<LoopView> {
        seqs::flat(self.loops_by_depth(), self.blocks.len())
    }
}

/// A natural loop.
pub struct LoopInfo {
    pub header: usize,
    pub latches: Vec<usize>,
    pub body: Vec<bool>,
    pub preheader: Option<usize>,
    pub depth: usize,
}

impl View for LoopInfo {
    type V = LoopView;

    open spec fn view(&self) -> LoopView {
        LoopView {
            header: self.header,
            latches: self.latches@,
            body: self.body@,
            preheader: self.preheader,
            depth: self.depth as nat,
        }
    }
}

/// Returns the edges that do not touch `x`.
fn edges_avoiding(edges: &Vec<(usize, usize)>, x: usize) -> (r: Vec<(usize, usize)>)
    ensures
        r@ == avoiding(edges@, x),
{
    let mut r: Vec<(usize, usize)> = Vec::new();
    let ghost f = edge_avoiding(edges@, x);
    let mut k: usize = 0;
    while k < edges.len()
        invariant
            k <= edges@.len(),
            f == edge_avoiding(edges@, x),
            r@ == seqs::flat(f, k as nat),
        decreases edges@.len() - k,
    {
        let ghost before = r@;
        if edges[k].0 != x && edges[k].1 != x {
            r.push(edges[k]);
        }
        assert(r@ =~= before + f(k as int));
        k = k + 1;
    }
    r
}

/// Returns the edges, each turned around.
fn turn_edges(edges: &Vec<(usize, usize)>) -> (r: Vec<(usize, usize)>)
    ensures
        r@ == turned(edges@),
{
    let mut r: Vec<(usize, usize)> = Vec::new();
    let mut k: usize = 0;
    while k < edges.len()
        invariant
            k <= edges@.len(),
            r@ =~= turned(edges@).take(k as int),
        decreases edges@.len() - k,
    {
        let (from, to) = edges[k];
        assert(turned(edges@)[k as int] == (to, from));
        r.push((to, from));
        k = k + 1;
    }
    assert(r@ =~= turned(edges@));
    r
}

/// For each pair of blocks, whether the first dominates the second.
pub struct Dominators {
    pub table: Vec<Vec<bool>>,
}

impl Dominators {
    /// The table belongs to the function.
    pub open spec fn describes<T: Target>(self, ssa: SsaView<T>) -> bool {
        &&& self.table@.len() == ssa.blocks.len()
        &&& forall|d: int| 0 <= d < ssa.blocks.len() ==> (#[trigger] self.table@[d])@.len() == ssa.blocks.len()
        &&& forall|d: int, b: int|
            0 <= d < ssa.blocks.len() && 0 <= b < ssa.blocks.len() ==> #[trigger] self.table@[d]@[b]
                == ssa.dominates(d as usize, b as usize)
    }

    /// Returns whether block `d` dominates block `b`.
    #[must_use]
    pub fn check<T: Target>(&self, ssa: &SsaFunction<T>, d: usize, b: usize) -> (r: bool)
        requires
            self.describes(ssa@),
        ensures
            r == (d < ssa@.blocks.len() && b < ssa@.blocks.len() && ssa@.dominates(d, b)),
    {
        if d < ssa.blocks.len() && b < ssa.blocks.len() {
            assert(self.table@[d as int]@.len() == ssa@.blocks.len());
            self.table[d][b]
        } else {
            false
        }
    }
}

/// Returns the dominators of a function.
#[must_use]
pub fn compute_dominators<T: Target>(ssa: &SsaFunction<T>) -> (r: Dominators)
    ensures
        r.describes(ssa@),
{
    let n: usize = ssa.blocks.len();
    let edges: Vec<(usize, usize)> = ssa.control_edges();
    let mut entry: Vec<usize> = Vec::new();
    entry.push(0);
    assert(entry@ =~= seq![0usize]);
    let live: Vec<bool> = closure::find_reached(n, &entry, &edges);
    let mut table: Vec<Vec<bool>> = Vec::new();
    let mut d: usize = 0;
    while d < n
        invariant
            d <= n,
            n == ssa@.blocks.len(),
            edges@ == ssa@.edges(),
            live@.len() == n,
            forall|b: int|
                0 <= b < n ==> #[trigger] live@[b] == closure::reached(
                    n as nat,
                    seq![0usize],
                    edges@,
                    b as usize,
                ),
            table@.len() == d,
            forall|k: int| 0 <= k < d ==> (#[trigger] table@[k])@.len() == n,
            forall|k: int, b: int|
                0 <= k < d && 0 <= b < n ==> #[trigger] table@[k]@[b] == ssa@.dominates(
                    k as usize,
                    b as usize,
                ),
        decreases n - d,
    {
        let mut roots: Vec<usize> = Vec::new();
        if d != 0 {
            roots.push(0);
        }
        assert(roots@ =~= entry_but(d));
        let others: Vec<(usize, usize)> = edges_avoiding(&edges, d);
        let around: Vec<bool> = closure::find_reached(n, &roots, &others);
        let mut row: Vec<bool> = Vec::new();
        let mut b: usize = 0;
        while b < n
            invariant
                b <= n,
                d < n,
                n == ssa@.blocks.len(),
                edges@ == ssa@.edges(),
                live@.len() == n,
                around@.len() == n,
                forall|b: int|
                    0 <= b < n ==> #[trigger] live@[b] == closure::reached(
                        n as nat,
                        seq![0usize],
                        edges@,
                        b as usize,
                    ),
                forall|b: int|
                    0 <= b < n ==> #[trigger] around@[b] == closure::reached(
                        n as nat,
                        entry_but(d),
                        avoiding(edges@, d),
                        b as usize,
                    ),
                row@.len() == b,
                forall|k: int| 0 <= k < b ==> #[trigger] row@[k] == ssa@.dominates(d, k as usize),
            decreases n - b,
        {
            row.push(live[b] && !around[b]);
            b = b + 1;
        }
        table.push(row);
        d = d + 1;
    }
    Dominators { table }
}

/// Returns the blocks that close a loop at `h`.
fn find_latches<T: Target>(ssa: &SsaFunction<T>, dominators: &Dominators, h: usize) -> (r: Vec<
    usize,
>)
    requires
        dominators.describes(ssa@),
        h < ssa@.blocks.len(),
    ensures
        r@ == ssa@.latches(h),
{
    let mut r: Vec<usize> = Vec::new();
    let ghost f = ssa@.latch_at(h);
    let mut l: usize = 0;
    while l < ssa.blocks.len()
        invariant
            l <= ssa.blocks@.len(),
            h < ssa@.blocks.len(),
            dominators.describes(ssa@),
            f == ssa@.latch_at(h),
            r@ == seqs::flat(f, l as nat),
        decreases ssa.blocks@.len() - l,
    {
        assert(ssa.blocks@[l as int]@ == ssa@.blocks[l as int]);
        let ghost before = r@;
        let successors: Vec<usize> = ssa.blocks[l].successors();
        if cfg::holds(&successors, h) && dominators.check(ssa, h, l) {
            r.push(l);
        }
        assert(r@ =~= before + f(l as int));
        l = l + 1;
    }
    r
}

/// Returns, for each block, whether it belongs to the loop at `h`.
fn find_loop_body<T: Target>(
    ssa: &SsaFunction<T>,
    back: &Vec<(usize, usize)>,
    h: usize,
    latches: &Vec<usize>,
) -> (r: Vec<bool>)
    requires
        h < ssa@.blocks.len(),
        back@ == turned(ssa@.edges()),
        latches@ == ssa@.latches(h),
    ensures
        r@ == ssa@.loop_body(h),
{
    let n: usize = ssa.blocks.len();
    let others: Vec<(usize, usize)> = edges_avoiding(back, h);
    let mut body: Vec<bool> = closure::find_reached(n, latches, &others);
    body.set(h, true);
    assert(body@ =~= ssa@.loop_body(h));
    body
}

/// Returns the blocks outside `body` that continue at `h`.
#[must_use]
pub fn find_outside_predecessors<T: Target>(ssa: &SsaFunction<T>, h: usize, body: &Vec<bool>) -> (r:
    Vec<usize>)
    requires
        body@.len() == ssa@.blocks.len(),
    ensures
        r@ == ssa@.outside_predecessors(h, body@),
        forall|k: int| 0 <= k < r@.len() ==> (#[trigger] r@[k]) < ssa@.blocks.len(),
{
    let mut r: Vec<usize> = Vec::new();
    let ghost f = ssa@.enters_from_outside(h, body@);
    let mut a: usize = 0;
    while a < ssa.blocks.len()
        invariant
            a <= ssa.blocks@.len(),
            body@.len() == ssa@.blocks.len(),
            f == ssa@.enters_from_outside(h, body@),
            r@ == seqs::flat(f, a as nat),
            forall|k: int| 0 <= k < r@.len() ==> (#[trigger] r@[k]) < ssa@.blocks.len(),
        decreases ssa.blocks@.len() - a,
    {
        assert(ssa.blocks@[a as int]@ == ssa@.blocks[a as int]);
        let ghost before = r@;
        let successors: Vec<usize> = ssa.blocks[a].successors();
        if cfg::holds(&successors, h) && !body[a] {
            r.push(a);
        }
        assert(r@ =~= before + f(a as int));
        a = a + 1;
    }
    r
}

/// Returns the block that always continues at `h`, where that is the only way into the loop.
fn find_preheader<T: Target>(ssa: &SsaFunction<T>, h: usize, body: &Vec<bool>) -> (r: Option<usize>)
    requires
        body@ == ssa@.loop_body(h),
    ensures
        r == ssa@.preheader(h),
{
    let outside: Vec<usize> = find_outside_predecessors(ssa, h, body);
    if outside.len() == 1 {
        let p: usize = outside[0];
        assert(ssa.blocks@[p as int]@ == ssa@.blocks[p as int]);
        let successors: Vec<usize> = ssa.blocks[p].successors();
        if successors.len() == 1 {
            return Some(p);
        }
    }
    None
}

/// What is found at each block: the loop there, but for its depth.
struct Found {
    latches: Vec<usize>,
    body: Vec<bool>,
    preheader: Option<usize>,
}

/// What was found at the first blocks belongs to the function.
spec fn found_describes<T: Target>(found: Seq<Found>, ssa: SsaView<T>) -> bool {
    forall|h: int|
        0 <= h < found.len() ==> (#[trigger] found[h]).latches@ == ssa.latches(h as usize)
            && found[h].body@ == ssa.loop_body(h as usize) && found[h].preheader == ssa.preheader(
            h as usize,
        )
}

/// Returns how many loops hold block `b`.
fn count_depth<T: Target>(ssa: &SsaFunction<T>, found: &Vec<Found>, b: usize) -> (r: usize)
    requires
        b < ssa@.blocks.len(),
        found@.len() == ssa@.blocks.len(),
        found_describes(found@, ssa@),
    ensures
        r == ssa@.depth_among(b as int, ssa@.blocks.len()),
{
    let mut depth: usize = 0;
    let mut h: usize = 0;
    while h < found.len()
        invariant
            h <= found@.len(),
            b < ssa@.blocks.len(),
            found@.len() == ssa@.blocks.len(),
            found_describes(found@, ssa@),
            depth <= h,
            depth == ssa@.depth_among(b as int, h as nat),
        decreases found@.len() - h,
    {
        assert(found@[h as int].body@ == ssa@.loop_body(h));
        if found[h].latches.len() > 0 && found[h].body[b] {
            depth = depth + 1;
        }
        h = h + 1;
    }
    depth
}

/// Returns an equal list.
fn copy_list(list: &Vec<usize>) -> (r: Vec<usize>)
    ensures
        r@ == list@,
{
    let mut r: Vec<usize> = Vec::new();
    let mut i: usize = 0;
    while i < list.len()
        invariant
            i <= list@.len(),
            r@ =~= list@.take(i as int),
        decreases list@.len() - i,
    {
        r.push(list[i]);
        i = i + 1;
    }
    assert(r@ =~= list@);
    r
}

/// Returns equal marks.
pub(crate) fn copy_marks(list: &Vec<bool>) -> (r: Vec<bool>)
    ensures
        r@ == list@,
{
    let mut r: Vec<bool> = Vec::new();
    let mut i: usize = 0;
    while i < list.len()
        invariant
            i <= list@.len(),
            r@ =~= list@.take(i as int),
        decreases list@.len() - i,
    {
        r.push(list[i]);
        i = i + 1;
    }
    assert(r@ =~= list@);
    r
}

/// The loops in a list of loops.
pub open spec fn loop_views(list: Seq<LoopInfo>) -> Seq<LoopView> {
    list.map_values(|l: LoopInfo| l@)
}

/// Returns the loops of a function, the deepest first.
#[must_use]
pub fn analyze_loops<T: Target>(ssa: &SsaFunction<T>) -> (r: Vec<LoopInfo>)
    ensures
        loop_views(r@) == ssa@.loops(),
{
    let n: usize = ssa.blocks.len();
    let dominators: Dominators = compute_dominators(ssa);
    let edges: Vec<(usize, usize)> = ssa.control_edges();
    let back: Vec<(usize, usize)> = turn_edges(&edges);
    let mut found: Vec<Found> = Vec::new();
    let mut h: usize = 0;
    while h < n
        invariant
            h <= n,
            n == ssa@.blocks.len(),
            dominators.describes(ssa@),
            back@ == turned(ssa@.edges()),
            found@.len() == h,
            found_describes(found@, ssa@),
        decreases n - h,
    {
        let ghost before = found@;
        let latches: Vec<usize> = find_latches(ssa, &dominators, h);
        let body: Vec<bool> = find_loop_body(ssa, &back, h, &latches);
        let preheader: Option<usize> = find_preheader(ssa, h, &body);
        found.push(Found { latches, body, preheader });
        assert forall|k: int| 0 <= k < found@.len() implies (#[trigger] found@[k]).latches@
            == ssa@.latches(k as usize) && found@[k].body@ == ssa@.loop_body(k as usize)
            && found@[k].preheader == ssa@.preheader(k as usize) by {
            if k < h {
                assert(found@[k] == before[k]);
            }
        }
        h = h + 1;
    }
    let mut depths: Vec<usize> = Vec::new();
    let mut h: usize = 0;
    while h < n
        invariant
            h <= n,
            n == ssa@.blocks.len(),
            found@.len() == n,
            found_describes(found@, ssa@),
            depths@.len() == h,
            forall|k: int|
                0 <= k < h ==> #[trigger] depths@[k] == ssa@.depth_among(k, ssa@.blocks.len()),
        decreases n - h,
    {
        depths.push(count_depth(ssa, &found, h));
        h = h + 1;
    }
    let mut r: Vec<LoopInfo> = Vec::new();
    let ghost f = ssa@.loops_by_depth();
    assert(loop_views(r@) =~= seqs::flat(f, 0));
    let mut k: usize = 0;
    while k < n
        invariant
            k <= n,
            n == ssa@.blocks.len(),
            found@.len() == n,
            found_describes(found@, ssa@),
            depths@.len() == n,
            forall|k: int|
                0 <= k < n ==> #[trigger] depths@[k] == ssa@.depth_among(k, ssa@.blocks.len()),
            f == ssa@.loops_by_depth(),
            loop_views(r@) == seqs::flat(f, k as nat),
        decreases n - k,
    {
        let depth: usize = n - k;
        let ghost g = ssa@.loop_of_depth(depth as int);
        assert(loop_views(r@) =~= seqs::flat(f, k as nat) + seqs::flat(g, 0));
        let mut h: usize = 0;
        while h < n
            invariant
                h <= n,
                n == ssa@.blocks.len(),
                found@.len() == n,
                found_describes(found@, ssa@),
                depths@.len() == n,
                forall|k: int|
                    0 <= k < n ==> #[trigger] depths@[k] == ssa@.depth_among(k, ssa@.blocks.len()),
                g == ssa@.loop_of_depth(depth as int),
                loop_views(r@) =~= seqs::flat(f, k as nat) + seqs::flat(g, h as nat),
            decreases n - h,
        {
            let ghost before = r@;
            assert(found@[h as int].latches@ == ssa@.latches(h));
            assert(depths@[h as int] == ssa@.depth_among(h as int, ssa@.blocks.len()));
            if found[h].latches.len() > 0 && depths[h] == depth {
                let info = LoopInfo {
                    header: h,
                    latches: copy_list(&found[h].latches),
                    body: copy_marks(&found[h].body),
                    preheader: found[h].preheader,
                    depth,
                };
                assert(info@ == ssa@.loop_at(h));
                r.push(info);
                assert(loop_views(r@) =~= loop_views(before) + g(h as int));
            } else {
                assert(loop_views(r@) =~= loop_views(before) + g(h as int));
            }
            h = h + 1;
        }
        assert(loop_views(r@) =~= seqs::flat(f, k as nat) + f(k as int));
        k = k + 1;
    }
    r
}

/// A block that control can reach dominates itself.
pub proof fn dominates_itself<T: Target>(ssa: SsaView<T>, b: usize)
    requires
        closure::reached(ssa.blocks.len(), seq![0usize], ssa.edges(), b),
    ensures
        ssa.dominates(b, b),
{
    let n = ssa.blocks.len();
    let others = avoiding(ssa.edges(), b);
    if closure::reached(n, entry_but(b), others, b) {
        let within = Set::new(|x: usize| x != b);
        assert forall|a: usize, c: usize|
            #![trigger others.contains((a, c))]
            within.contains(a) && others.contains((a, c)) && c < n implies within.contains(c) by {
            lemma_avoiding(ssa.edges(), b, ssa.edges().len(), (a, c));
        }
        closure::reached_is_least(n, entry_but(b), others, within, b);
    }
}

pub proof fn lemma_avoiding(
    edges: Seq<(usize, usize)>,
    x: usize,
    n: nat,
    e: (usize, usize),
)
    requires
        n <= edges.len(),
        seqs::flat(edge_avoiding(edges, x), n).contains(e),
    ensures
        e.0 != x,
        e.1 != x,
    decreases n,
{
    if n > 0 {
        let before = seqs::flat(edge_avoiding(edges, x), (n - 1) as nat);
        let whole = seqs::flat(edge_avoiding(edges, x), n);
        let k = choose|k: int| 0 <= k < whole.len() && whole[k] == e;
        if k < before.len() {
            assert(before[k] == e);
            lemma_avoiding(edges, x, (n - 1) as nat, e);
        } else {
            assert(whole[k] == (edge_avoiding(edges, x))(n - 1)[k - before.len()]);
        }
    }
}

/// The entry dominates every block that control can reach from it.
pub proof fn entry_dominates<T: Target>(ssa: SsaView<T>, b: usize)
    requires
        closure::reached(ssa.blocks.len(), seq![0usize], ssa.edges(), b),
    ensures
        ssa.dominates(0, b),
{
    let n = ssa.blocks.len();
    let others = avoiding(ssa.edges(), 0);
    if closure::reached(n, entry_but(0), others, b) {
        closure::reached_is_least(n, entry_but(0), others, Set::empty(), b);
    }
}

/// Every way from the entry to a block passes the blocks that dominate it.
pub proof fn dominators_are_passed<T: Target>(ssa: SsaView<T>, d: usize, b: usize, way: Seq<usize>)
    requires
        ssa.dominates(d, b),
        closure::is_walk(ssa.blocks.len(), seq![0usize], ssa.edges(), way),
        way.last() == b,
    ensures
        way.contains(d),
{
    let n = ssa.blocks.len();
    if !way.contains(d) {
        let all = ssa.edges();
        let edges = avoiding(all, d);
        assert forall|i: int, j: int|
            0 <= i < way.len() && j == i + 1 && j < way.len() implies edges.contains(
            (#[trigger] way[i], #[trigger] way[j]),
        ) by {
            assert(way.contains(way[i]) && way.contains(way[j]));
            assert(all.contains((way[i], way[j])));
            let e = choose|e: int| 0 <= e < all.len() && all[e] == (way[i], way[j]);
            assert((edge_avoiding(all, d))(e) == seq![all[e]]);
            assert(seq![all[e]][0] == all[e]);
            seqs::lemma_flat_contains(edge_avoiding(all, d), all.len(), e, all[e]);
        }
        assert(seq![0usize].contains(way[0]));
        assert(way.contains(way[0]));
        assert(entry_but(d).contains(way[0])) by {
            assert(entry_but(d)[0] == 0usize);
        }
        assert(closure::is_walk(n, entry_but(d), edges, way));
        assert(false);
    }
}

} // verus!
