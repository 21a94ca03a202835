//! Which variables are needed.
//!
//! A variable is needed where an operation that does more than compute reads it, where the definition
//! of a needed variable reads it, and where a needed load from an argument or a local variable can
//! read what it holds.
use crate::analysis::closure;
use crate::ir::block::{BlockView, SsaBlock};
use crate::ir::function::{SsaFunction, SsaView};
use crate::ir::ops::{Op, OpView, SsaOp};
use crate::ir::phi::PhiNode;
use crate::ir::variable::{SsaVarId, VariableOrigin};
use crate::seqs;
use crate::target::Target;
use vstd::prelude::*;

verus! {

/// The pairs of a definition and the variables that it reads.
pub open spec fn read_pairs(def: SsaVarId, reads: Seq<SsaVarId>) -> Seq<(usize, usize)> {
    reads.map_values(|u: SsaVarId| (def.0, u.0))
}

/// The slot that an operation loads from, with the variable that it defines.
pub open spec fn load_of<T: Target, B, A>(op: Op<T, B, A>) -> Seq<(usize, VariableOrigin)> {
    match op {
        Op::LoadLocal { dest, local_index } => seq![(dest.0, VariableOrigin::Local(local_index))],
        Op::LoadLocalAddr { dest, local_index } => seq![
            (dest.0, VariableOrigin::Local(local_index)),
        ],
        Op::LoadArg { dest, arg_index } => seq![(dest.0, VariableOrigin::Argument(arg_index))],
        _ => Seq::empty(),
    }
}

/// The pairs of a load and a definition of the slot that it loads from.
pub open spec fn bridge(
    load: (usize, VariableOrigin),
    defs: Seq<(VariableOrigin, usize)>,
) -> spec_fn(int) -> Seq<(usize, usize)> {
    |j: int|
        if defs[j].0 == load.1 {
            seq![(load.0, defs[j].1)]
        } else {
            Seq::empty()
        }
}

/// The pairs of each load and the definitions of the slot that it loads from.
pub open spec fn bridges(
    loads: Seq<(usize, VariableOrigin)>,
    defs: Seq<(VariableOrigin, usize)>,
) -> spec_fn(int) -> Seq<(usize, usize)> {
    |i: int| seqs::flat(bridge(loads[i], defs), defs.len())
}

impl<T: Target> BlockView<T> {
    /// What the phi node `p` reads.
    pub open spec fn phi_reads(self) -> spec_fn(int) -> Seq<(usize, usize)> {
        |p: int| read_pairs(self.phis[p].result, self.phis[p].values())
    }

    /// What the definition `k` of the instruction at `i` reads.
    pub open spec fn def_reads(self, i: int) -> spec_fn(int) -> Seq<(usize, usize)> {
        |k: int| read_pairs(self.instrs[i].defs()[k], self.instrs[i].uses())
    }

    /// What the definitions of the instruction at `i` read.
    pub open spec fn instr_reads(self) -> spec_fn(int) -> Seq<(usize, usize)> {
        |i: int| seqs::flat(self.def_reads(i), self.instrs[i].defs().len())
    }

    /// What the definitions of the block read.
    pub open spec fn reads(self) -> Seq<(usize, usize)> {
        seqs::flat(self.phi_reads(), self.phis.len()) + seqs::flat(
            self.instr_reads(),
            self.instrs.len(),
        )
    }

    /// What the instruction at `i` reads, where it does more than compute.
    pub open spec fn needs_at(self) -> spec_fn(int) -> Seq<usize> {
        |i: int|
            if self.instrs[i].pure() {
                Seq::empty()
            } else {
                self.instrs[i].uses().map_values(|u: SsaVarId| u.0)
            }
    }

    /// What the instruction at `i` loads.
    pub open spec fn loads_at(self) -> spec_fn(int) -> Seq<(usize, VariableOrigin)> {
        |i: int| load_of(self.instrs[i])
    }

    /// The slot that the phi node `p` defines.
    pub open spec fn phi_slots(self) -> spec_fn(int) -> Seq<(VariableOrigin, usize)> {
        |p: int|
            if self.phis[p].origin.is_named() {
                seq![(self.phis[p].origin, self.phis[p].result.0)]
            } else {
                Seq::empty()
            }
    }
}

impl<T: Target> SsaView<T> {
    /// The slot that the definition `k` of an operation defines.
    pub open spec fn def_slots(self, op: OpView<T>) -> spec_fn(int) -> Seq<
        (VariableOrigin, usize),
    > {
        |k: int|
            {
                let def = op.defs()[k];
                if def.0 < self.vars.len() && self.vars[def.0 as int].origin.is_named() {
                    seq![(self.vars[def.0 as int].origin, def.0)]
                } else {
                    Seq::empty()
                }
            }
    }

    /// The slots that the instruction at `i` of block `b` defines.
    pub open spec fn instr_slots(self, b: int) -> spec_fn(int) -> Seq<(VariableOrigin, usize)> {
        |i: int|
            seqs::flat(
                self.def_slots(self.blocks[b].instrs[i]),
                self.blocks[b].instrs[i].defs().len(),
            )
    }

    /// What the definitions of block `b` read, where control can reach it.
    pub open spec fn reads_in(self, reach: Seq<bool>) -> spec_fn(int) -> Seq<(usize, usize)> {
        |b: int|
            if reach[b] {
                self.blocks[b].reads()
            } else {
                Seq::empty()
            }
    }

    /// What block `b` needs, where control can reach it.
    pub open spec fn needs_in(self, reach: Seq<bool>) -> spec_fn(int) -> Seq<usize> {
        |b: int|
            if reach[b] {
                seqs::flat(self.blocks[b].needs_at(), self.blocks[b].instrs.len())
            } else {
                Seq::empty()
            }
    }

    /// What block `b` loads, where control can reach it.
    pub open spec fn loads_in(self, reach: Seq<bool>) -> spec_fn(int) -> Seq<
        (usize, VariableOrigin),
    > {
        |b: int|
            if reach[b] {
                seqs::flat(self.blocks[b].loads_at(), self.blocks[b].instrs.len())
            } else {
                Seq::empty()
            }
    }

    /// The slots that block `b` defines, where control can reach it.
    pub open spec fn slots_in(self, reach: Seq<bool>) -> spec_fn(int) -> Seq<
        (VariableOrigin, usize),
    > {
        |b: int|
            if reach[b] {
                seqs::flat(self.blocks[b].phi_slots(), self.blocks[b].phis.len()) + seqs::flat(
                    self.instr_slots(b),
                    self.blocks[b].instrs.len(),
                )
            } else {
                Seq::empty()
            }
    }

    /// The pairs of a variable and one that is needed where the first is.
    pub open spec fn need_edges(self, reach: Seq<bool>) -> Seq<(usize, usize)> {
        let loads = seqs::flat(self.loads_in(reach), self.blocks.len());
        let slots = seqs::flat(self.slots_in(reach), self.blocks.len());
        seqs::flat(self.reads_in(reach), self.blocks.len()) + seqs::flat(
            bridges(loads, slots),
            loads.len(),
        )
    }

    /// The variables needed in themselves.
    pub open spec fn need_roots(self, reach: Seq<bool>) -> Seq<usize> {
        seqs::flat(self.needs_in(reach), self.blocks.len())
    }

    /// For each variable, whether it is needed.
    pub open spec fn live(self, reach: Seq<bool>) -> Seq<bool> {
        Seq::new(
            self.vars.len(),
            |v: int|
                closure::reached(
                    self.vars.len(),
                    self.need_roots(reach),
                    self.need_edges(reach),
                    v as usize,
                ),
        )
    }
}

/// What is in the first or in the second of two sequences is in both together.
proof fn lemma_in_either<A>(a: Seq<A>, b: Seq<A>, x: A)
    requires
        a.contains(x) || b.contains(x),
    ensures
        (a + b).contains(x),
{
    if a.contains(x) {
        let k = choose|k: int| 0 <= k < a.len() && a[k] == x;
        assert((a + b)[k] == x);
    } else {
        let k = choose|k: int| 0 <= k < b.len() && b[k] == x;
        assert((a + b)[a.len() + k] == x);
    }
}

/// A variable that an operation reads is needed where the operation does more than compute, and
/// where a variable that it defines is needed.
pub proof fn reads_of_needed_operations_are_needed<T: Target>(
    ssa: SsaView<T>,
    reach: Seq<bool>,
    b: int,
    i: int,
    u: int,
)
    requires
        0 <= b < ssa.blocks.len(),
        0 <= i < ssa.blocks[b].instrs.len(),
        0 <= u < ssa.blocks[b].instrs[i].uses().len(),
        ssa.blocks[b].instrs[i].uses()[u].0 < ssa.vars.len(),
        reach[b],
        !ssa.blocks[b].instrs[i].pure() || exists|d: int|
            0 <= d < ssa.blocks[b].instrs[i].defs().len() && ssa.live(
                reach,
            )[(#[trigger] ssa.blocks[b].instrs[i].defs()[d]).0 as int]
                && ssa.blocks[b].instrs[i].defs()[d].0 < ssa.vars.len(),
    ensures
        ssa.live(reach)[ssa.blocks[b].instrs[i].uses()[u].0 as int],
{
    let n = ssa.vars.len();
    let block = ssa.blocks[b];
    let op = block.instrs[i];
    let x = op.uses()[u].0;
    let roots = ssa.need_roots(reach);
    let edges = ssa.need_edges(reach);
    if !op.pure() {
        let at = op.uses().map_values(|v: SsaVarId| v.0);
        assert(at[u] == x);
        assert(block.needs_at()(i) == at);
        seqs::lemma_flat_contains(block.needs_at(), block.instrs.len(), i, x);
        assert(ssa.needs_in(reach)(b).contains(x));
        seqs::lemma_flat_contains(ssa.needs_in(reach), ssa.blocks.len(), b, x);
        closure::roots_are_reached(n, roots, edges, x);
    } else {
        let d = choose|d: int|
            0 <= d < op.defs().len() && ssa.live(reach)[(#[trigger] op.defs()[d]).0 as int]
                && op.defs()[d].0 < n;
        let y = op.defs()[d].0;
        let pairs = read_pairs(op.defs()[d], op.uses());
        assert(pairs[u] == (y, x));
        assert(block.def_reads(i)(d) == pairs);
        seqs::lemma_flat_contains(block.def_reads(i), op.defs().len(), d, (y, x));
        assert(block.instr_reads()(i).contains((y, x)));
        seqs::lemma_flat_contains(block.instr_reads(), block.instrs.len(), i, (y, x));
        lemma_in_either(
            seqs::flat(block.phi_reads(), block.phis.len()),
            seqs::flat(block.instr_reads(), block.instrs.len()),
            (y, x),
        );
        lemma_read_is_edge(ssa, reach, b, (y, x));
        closure::reached_is_closed(n, roots, edges, y, x);
    }
}

/// A variable that a phi node reads is needed where its result is.
pub proof fn reads_of_needed_phis_are_needed<T: Target>(
    ssa: SsaView<T>,
    reach: Seq<bool>,
    b: int,
    p: int,
    u: int,
)
    requires
        0 <= b < ssa.blocks.len(),
        0 <= p < ssa.blocks[b].phis.len(),
        0 <= u < ssa.blocks[b].phis[p].values().len(),
        ssa.blocks[b].phis[p].values()[u].0 < ssa.vars.len(),
        reach[b],
        ssa.blocks[b].phis[p].result.0 < ssa.vars.len(),
        ssa.live(reach)[ssa.blocks[b].phis[p].result.0 as int],
    ensures
        ssa.live(reach)[ssa.blocks[b].phis[p].values()[u].0 as int],
{
    let block = ssa.blocks[b];
    let phi = block.phis[p];
    let x = phi.values()[u].0;
    let y = phi.result.0;
    let pairs = read_pairs(phi.result, phi.values());
    assert(pairs[u] == (y, x));
    assert(block.phi_reads()(p) == pairs);
    seqs::lemma_flat_contains(block.phi_reads(), block.phis.len(), p, (y, x));
    lemma_in_either(
        seqs::flat(block.phi_reads(), block.phis.len()),
        seqs::flat(block.instr_reads(), block.instrs.len()),
        (y, x),
    );
    lemma_read_is_edge(ssa, reach, b, (y, x));
    closure::reached_is_closed(
        ssa.vars.len(),
        ssa.need_roots(reach),
        ssa.need_edges(reach),
        y,
        x,
    );
}

/// What a definition of a block that control can reach reads is one of the pairs of needs.
proof fn lemma_read_is_edge<T: Target>(
    ssa: SsaView<T>,
    reach: Seq<bool>,
    b: int,
    pair: (usize, usize),
)
    requires
        0 <= b < ssa.blocks.len(),
        reach[b],
        ssa.blocks[b].reads().contains(pair),
    ensures
        ssa.need_edges(reach).contains(pair),
{
    let loads = seqs::flat(ssa.loads_in(reach), ssa.blocks.len());
    let slots = seqs::flat(ssa.slots_in(reach), ssa.blocks.len());
    assert(ssa.reads_in(reach)(b) == ssa.blocks[b].reads());
    seqs::lemma_flat_contains(ssa.reads_in(reach), ssa.blocks.len(), b, pair);
    lemma_in_either(
        seqs::flat(ssa.reads_in(reach), ssa.blocks.len()),
        seqs::flat(bridges(loads, slots), loads.len()),
        pair,
    );
}

/// Returns what the phi nodes of a block read.
fn collect_phi_reads<T: Target>(block: &SsaBlock<T>) -> (r: Vec<(usize, usize)>)
    ensures
        r@ == seqs::flat(block@.phi_reads(), block@.phis.len()),
{
    let mut r: Vec<(usize, usize)> = Vec::new();
    let ghost f = block@.phi_reads();
    let mut p: usize = 0;
    while p < block.phis.len()
        invariant
            p <= block.phis@.len(),
            f == block@.phi_reads(),
            r@ == seqs::flat(f, p as nat),
        decreases block.phis@.len() - p,
    {
        assert(block.phis@[p as int]@ == block@.phis[p as int]);
        let phi: &PhiNode = &block.phis[p];
        let mut k: usize = 0;
        while k < phi.operands.len()
            invariant
                k <= phi.operands@.len(),
                f == block@.phi_reads(),
                p < block@.phis.len(),
                phi@ == block@.phis[p as int],
                r@ =~= seqs::flat(f, p as nat) + f(p as int).take(k as int),
            decreases phi.operands@.len() - k,
        {
            r.push((phi.result.0, phi.operands[k].value.0));
            k = k + 1;
        }
        assert(f(p as int).take(k as int) =~= f(p as int));
        p = p + 1;
    }
    r
}

/// Returns what the instructions of a block read.
fn collect_instr_reads<T: Target>(block: &SsaBlock<T>) -> (r: Vec<(usize, usize)>)
    ensures
        r@ == seqs::flat(block@.instr_reads(), block@.instrs.len()),
{
    let mut r: Vec<(usize, usize)> = Vec::new();
    let ghost f = block@.instr_reads();
    let mut i: usize = 0;
    while i < block.instrs.len()
        invariant
            i <= block.instrs@.len(),
            f == block@.instr_reads(),
            r@ == seqs::flat(f, i as nat),
        decreases block.instrs@.len() - i,
    {
        assert(block.instrs@[i as int]@ == block@.instrs[i as int]);
        let defs: Vec<SsaVarId> = block.instrs[i].op.defs();
        let uses: Vec<SsaVarId> = block.instrs[i].op.uses();
        let ghost g = block@.def_reads(i as int);
        assert(r@ =~= seqs::flat(f, i as nat) + seqs::flat(g, 0));
        let mut k: usize = 0;
        while k < defs.len()
            invariant
                k <= defs@.len(),
                i < block@.instrs.len(),
                g == block@.def_reads(i as int),
                defs@ == block@.instrs[i as int].defs(),
                uses@ == block@.instrs[i as int].uses(),
                r@ =~= seqs::flat(f, i as nat) + seqs::flat(g, k as nat),
            decreases defs@.len() - k,
        {
            let mut u: usize = 0;
            while u < uses.len()
                invariant
                    u <= uses@.len(),
                    k < defs@.len(),
                    g == block@.def_reads(i as int),
                    defs@ == block@.instrs[i as int].defs(),
                    uses@ == block@.instrs[i as int].uses(),
                    r@ =~= seqs::flat(f, i as nat) + seqs::flat(g, k as nat) + g(k as int).take(
                        u as int,
                    ),
                decreases uses@.len() - u,
            {
                r.push((defs[k].0, uses[u].0));
                u = u + 1;
            }
            assert(g(k as int).take(u as int) =~= g(k as int));
            assert(seqs::flat(f, i as nat) + seqs::flat(g, k as nat) + g(k as int) =~= seqs::flat(
                f,
                i as nat,
            ) + seqs::flat(g, (k + 1) as nat));
            k = k + 1;
        }
        i = i + 1;
    }
    r
}

/// Returns what the definitions of the reachable blocks read.
fn collect_reads<T: Target>(ssa: &SsaFunction<T>, reach: &Vec<bool>) -> (r: Vec<(usize, usize)>)
    requires
        reach@.len() == ssa@.blocks.len(),
    ensures
        r@ == seqs::flat(ssa@.reads_in(reach@), ssa@.blocks.len()),
{
    let mut r: Vec<(usize, usize)> = Vec::new();
    let ghost f = ssa@.reads_in(reach@);
    let mut b: usize = 0;
    while b < ssa.blocks.len()
        invariant
            b <= ssa.blocks@.len(),
            reach@.len() == ssa@.blocks.len(),
            f == ssa@.reads_in(reach@),
            r@ == seqs::flat(f, b as nat),
        decreases ssa.blocks@.len() - b,
    {
        assert(ssa.blocks@[b as int]@ == ssa@.blocks[b as int]);
        let ghost before = r@;
        if reach[b] {
            let mut phis: Vec<(usize, usize)> = collect_phi_reads(&ssa.blocks[b]);
            let mut instrs: Vec<(usize, usize)> = collect_instr_reads(&ssa.blocks[b]);
            r.append(&mut phis);
            r.append(&mut instrs);
        }
        assert(r@ =~= before + f(b as int));
        b = b + 1;
    }
    r
}

/// Returns the variables that the reachable blocks need.
fn collect_needs<T: Target>(ssa: &SsaFunction<T>, reach: &Vec<bool>) -> (r: Vec<usize>)
    requires
        reach@.len() == ssa@.blocks.len(),
    ensures
        r@ == ssa@.need_roots(reach@),
{
    let mut r: Vec<usize> = Vec::new();
    let ghost f = ssa@.needs_in(reach@);
    let mut b: usize = 0;
    while b < ssa.blocks.len()
        invariant
            b <= ssa.blocks@.len(),
            reach@.len() == ssa@.blocks.len(),
            f == ssa@.needs_in(reach@),
            r@ == seqs::flat(f, b as nat),
        decreases ssa.blocks@.len() - b,
    {
        assert(ssa.blocks@[b as int]@ == ssa@.blocks[b as int]);
        if reach[b] {
            let block: &SsaBlock<T> = &ssa.blocks[b];
            let ghost g = block@.needs_at();
            assert(r@ =~= seqs::flat(f, b as nat) + seqs::flat(g, 0));
            let mut i: usize = 0;
            while i < block.instrs.len()
                invariant
                    i <= block.instrs@.len(),
                    g == block@.needs_at(),
                    r@ =~= seqs::flat(f, b as nat) + seqs::flat(g, i as nat),
                decreases block.instrs@.len() - i,
            {
                assert(block.instrs@[i as int]@ == block@.instrs[i as int]);
                let op: &SsaOp<T> = &block.instrs[i].op;
                if !op.is_pure() {
                    let uses: Vec<SsaVarId> = op.uses();
                    let mut u: usize = 0;
                    while u < uses.len()
                        invariant
                            u <= uses@.len(),
                            g(i as int) == uses@.map_values(|v: SsaVarId| v.0),
                            r@ =~= seqs::flat(f, b as nat) + seqs::flat(g, i as nat) + g(
                                i as int,
                            ).take(u as int),
                        decreases uses@.len() - u,
                    {
                        r.push(uses[u].0);
                        u = u + 1;
                    }
                    assert(g(i as int).take(u as int) =~= g(i as int));
                }
                assert(seqs::flat(f, b as nat) + seqs::flat(g, i as nat) + g(i as int)
                    =~= seqs::flat(f, b as nat) + seqs::flat(g, (i + 1) as nat));
                i = i + 1;
            }
        }
        b = b + 1;
    }
    r
}

/// Returns what the reachable blocks load.
fn collect_loads<T: Target>(ssa: &SsaFunction<T>, reach: &Vec<bool>) -> (r: Vec<
    (usize, VariableOrigin),
>)
    requires
        reach@.len() == ssa@.blocks.len(),
    ensures
        r@ == seqs::flat(ssa@.loads_in(reach@), ssa@.blocks.len()),
{
    let mut r: Vec<(usize, VariableOrigin)> = Vec::new();
    let ghost f = ssa@.loads_in(reach@);
    let mut b: usize = 0;
    while b < ssa.blocks.len()
        invariant
            b <= ssa.blocks@.len(),
            reach@.len() == ssa@.blocks.len(),
            f == ssa@.loads_in(reach@),
            r@ == seqs::flat(f, b as nat),
        decreases ssa.blocks@.len() - b,
    {
        assert(ssa.blocks@[b as int]@ == ssa@.blocks[b as int]);
        if reach[b] {
            let block: &SsaBlock<T> = &ssa.blocks[b];
            let ghost g = block@.loads_at();
            assert(r@ =~= seqs::flat(f, b as nat) + seqs::flat(g, 0));
            let mut i: usize = 0;
            while i < block.instrs.len()
                invariant
                    i <= block.instrs@.len(),
                    g == block@.loads_at(),
                    r@ =~= seqs::flat(f, b as nat) + seqs::flat(g, i as nat),
                decreases block.instrs@.len() - i,
            {
                assert(block.instrs@[i as int]@ == block@.instrs[i as int]);
                let ghost before = r@;
                match &block.instrs[i].op {
                    Op::LoadLocal { dest, local_index } => {
                        r.push((dest.0, VariableOrigin::Local(*local_index)));
                    },
                    Op::LoadLocalAddr { dest, local_index } => {
                        r.push((dest.0, VariableOrigin::Local(*local_index)));
                    },
                    Op::LoadArg { dest, arg_index } => {
                        r.push((dest.0, VariableOrigin::Argument(*arg_index)));
                    },
                    _ => {},
                }
                assert(r@ =~= before + g(i as int));
                i = i + 1;
            }
        }
        b = b + 1;
    }
    r
}

/// Returns the slots that an operation defines.
fn collect_def_slots<T: Target>(ssa: &SsaFunction<T>, op: &SsaOp<T>) -> (r: Vec<
    (VariableOrigin, usize),
>)
    ensures
        r@ == seqs::flat(ssa@.def_slots(op@), op@.defs().len()),
{
    let mut r: Vec<(VariableOrigin, usize)> = Vec::new();
    let defs: Vec<SsaVarId> = op.defs();
    let ghost f = ssa@.def_slots(op@);
    let mut k: usize = 0;
    while k < defs.len()
        invariant
            k <= defs@.len(),
            defs@ == op@.defs(),
            f == ssa@.def_slots(op@),
            r@ == seqs::flat(f, k as nat),
        decreases defs@.len() - k,
    {
        let ghost before = r@;
        if let Some(var) = ssa.slot(defs[k]) {
            let origin: VariableOrigin = var.origin();
            if origin.names_slot() {
                r.push((origin, defs[k].0));
            }
        }
        assert(r@ =~= before + f(k as int));
        k = k + 1;
    }
    r
}

/// Returns the slots that the reachable blocks define.
fn collect_slots<T: Target>(ssa: &SsaFunction<T>, reach: &Vec<bool>) -> (r: Vec<
    (VariableOrigin, usize),
>)
    requires
        reach@.len() == ssa@.blocks.len(),
    ensures
        r@ == seqs::flat(ssa@.slots_in(reach@), ssa@.blocks.len()),
{
    let mut r: Vec<(VariableOrigin, usize)> = Vec::new();
    let ghost f = ssa@.slots_in(reach@);
    let mut b: usize = 0;
    while b < ssa.blocks.len()
        invariant
            b <= ssa.blocks@.len(),
            reach@.len() == ssa@.blocks.len(),
            f == ssa@.slots_in(reach@),
            r@ == seqs::flat(f, b as nat),
        decreases ssa.blocks@.len() - b,
    {
        assert(ssa.blocks@[b as int]@ == ssa@.blocks[b as int]);
        if reach[b] {
            let block: &SsaBlock<T> = &ssa.blocks[b];
            let ghost g = block@.phi_slots();
            assert(r@ =~= seqs::flat(f, b as nat) + seqs::flat(g, 0));
            let mut p: usize = 0;
            while p < block.phis.len()
                invariant
                    p <= block.phis@.len(),
                    g == block@.phi_slots(),
                    r@ =~= seqs::flat(f, b as nat) + seqs::flat(g, p as nat),
                decreases block.phis@.len() - p,
            {
                assert(block.phis@[p as int]@ == block@.phis[p as int]);
                let ghost before = r@;
                if block.phis[p].origin.names_slot() {
                    r.push((block.phis[p].origin, block.phis[p].result.0));
                }
                assert(r@ =~= before + g(p as int));
                p = p + 1;
            }
            let ghost base = r@;
            let ghost h = ssa@.instr_slots(b as int);
            assert(r@ =~= base + seqs::flat(h, 0));
            let mut i: usize = 0;
            while i < block.instrs.len()
                invariant
                    i <= block.instrs@.len(),
                    b < ssa@.blocks.len(),
                    block@ == ssa@.blocks[b as int],
                    h == ssa@.instr_slots(b as int),
                    r@ =~= base + seqs::flat(h, i as nat),
                decreases block.instrs@.len() - i,
            {
                assert(block.instrs@[i as int]@ == block@.instrs[i as int]);
                let ghost before = r@;
                let mut slots: Vec<(VariableOrigin, usize)> = collect_def_slots(
                    ssa,
                    &block.instrs[i].op,
                );
                r.append(&mut slots);
                assert(r@ =~= before + h(i as int));
                i = i + 1;
            }
            assert(r@ =~= seqs::flat(f, b as nat) + f(b as int));
        }
        b = b + 1;
    }
    r
}

/// Returns the pairs of each load and the definitions of the slot that it loads from.
fn collect_bridges(
    loads: &Vec<(usize, VariableOrigin)>,
    slots: &Vec<(VariableOrigin, usize)>,
) -> (r: Vec<(usize, usize)>)
    ensures
        r@ == seqs::flat(bridges(loads@, slots@), loads@.len()),
{
    let mut r: Vec<(usize, usize)> = Vec::new();
    let ghost f = bridges(loads@, slots@);
    let mut i: usize = 0;
    while i < loads.len()
        invariant
            i <= loads@.len(),
            f == bridges(loads@, slots@),
            r@ == seqs::flat(f, i as nat),
        decreases loads@.len() - i,
    {
        let ghost g = bridge(loads@[i as int], slots@);
        assert(r@ =~= seqs::flat(f, i as nat) + seqs::flat(g, 0));
        let mut j: usize = 0;
        while j < slots.len()
            invariant
                j <= slots@.len(),
                i < loads@.len(),
                g == bridge(loads@[i as int], slots@),
                r@ =~= seqs::flat(f, i as nat) + seqs::flat(g, j as nat),
            decreases slots@.len() - j,
        {
            let ghost before = r@;
            if slots[j].0 == loads[i].1 {
                r.push((loads[i].0, slots[j].1));
            }
            assert(r@ =~= before + g(j as int));
            j = j + 1;
        }
        i = i + 1;
    }
    r
}

/// Returns, for each variable, whether it is needed.
#[must_use]
pub fn compute_live_variables<T: Target>(ssa: &SsaFunction<T>, reach: &Vec<bool>) -> (r: Vec<bool>)
    requires
        reach@.len() == ssa@.blocks.len(),
    ensures
        r@ == ssa@.live(reach@),
{
    let roots: Vec<usize> = collect_needs(ssa, reach);
    let mut edges: Vec<(usize, usize)> = collect_reads(ssa, reach);
    let loads: Vec<(usize, VariableOrigin)> = collect_loads(ssa, reach);
    let slots: Vec<(VariableOrigin, usize)> = collect_slots(ssa, reach);
    let mut bridged: Vec<(usize, usize)> = collect_bridges(&loads, &slots);
    edges.append(&mut bridged);
    assert(edges@ =~= ssa@.need_edges(reach@));
    let r: Vec<bool> = closure::find_reached(ssa.variables.len(), &roots, &edges);
    assert(r@ =~= ssa@.live(reach@));
    r
}

} // verus!
