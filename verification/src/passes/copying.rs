//! Copy propagation: what reads a copy reads the variable that was copied.
use crate::analysis::defuse::DefUseIndex;
use crate::events::{EventKind, EventLog, EventView};
use crate::ir::block::{BlockView, SsaBlock};
use crate::ir::function::{SsaFunction, SsaView};
use crate::ir::ops::{Op, OpView, SsaOp};
use crate::ir::phi::{PhiNode, PhiView};
use crate::ir::variable::{SsaVarId, VariableOrigin};
use crate::passes::deadcode;
use crate::passes::deadcode::find_source;
use crate::passes::gvn;
use crate::passes::gvn::{check_read, count_reads};
use crate::passes::outcome::Outcome;
use crate::passes::utils;
use crate::passes::utils::{resolve_chain, sorted_keys};
use crate::seqs;
use crate::target::Target;
use crate::text;
use std::collections::BTreeMap;
use vstd::prelude::*;
use vstd::string::StringExecFns;

verus! {

/// What a phi node copies, if it only copies.
pub open spec fn phi_copy(phi: PhiView) -> Seq<(usize, usize)> {
    match phi.source() {
        Some(Some(src)) => seq![(phi.result.0, src.0)],
        _ => Seq::empty(),
    }
}

/// What an operation copies, if it only copies.
pub open spec fn op_copy<T: Target, B, A>(op: Op<T, B, A>) -> Seq<(usize, usize)> {
    match op {
        Op::Copy { dest, src } => if dest != src {
            seq![(dest.0, src.0)]
        } else {
            Seq::empty()
        },
        _ => Seq::empty(),
    }
}

impl<T: Target> BlockView<T> {
    /// What phi node `p` copies.
    pub open spec fn phi_copies_at(self) -> spec_fn(int) -> Seq<(usize, usize)> {
        |p: int| phi_copy(self.phis[p])
    }

    /// An instruction before the one at `i` reads `v`.
    pub open spec fn reads_before(self, v: SsaVarId, i: int) -> bool {
        exists|j: int| 0 <= j < i && (#[trigger] self.instrs[j]).uses().contains(v)
    }

    /// What the instruction at `i` copies.
    pub open spec fn op_copies_at(self) -> spec_fn(int) -> Seq<(usize, usize)> {
        |i: int| op_copy(self.instrs[i])
    }
}

/// The map that holds the first `n` pairs, the last of those with one key.
pub open spec fn map_of(pairs: Seq<(usize, usize)>, n: nat) -> Map<usize, usize>
    decreases n,
{
    if n == 0 {
        Map::empty()
    } else {
        map_of(pairs, (n - 1) as nat).insert(pairs[n - 1].0, pairs[n - 1].1)
    }
}

impl<T: Target> SsaView<T> {
    /// What block `b` copies.
    pub open spec fn copies_in(self) -> spec_fn(int) -> Seq<(usize, usize)> {
        |b: int|
            seqs::flat(self.blocks[b].phi_copies_at(), self.blocks[b].phis.len()) + seqs::flat(
                self.blocks[b].op_copies_at(),
                self.blocks[b].instrs.len(),
            )
    }

    /// What the function copies: each copy with what it is a copy of.
    pub open spec fn copies(self) -> Map<usize, usize> {
        let pairs = seqs::flat(self.copies_in(), self.blocks.len());
        map_of(pairs, pairs.len())
    }

    /// The argument or local variable that `v` stands for, as one number.
    pub open spec fn slot(self, v: SsaVarId) -> Option<int> {
        if self.rename_group(v) < self.num_args + self.num_locals {
            Some(self.rename_group(v))
        } else {
            None
        }
    }

    /// The address of a slot is taken at instruction `i` of block `b`.
    pub open spec fn takes_address(self, slot: int, b: int, i: int) -> bool {
        match self.blocks[b].instrs[i] {
            Op::LoadLocalAddr { local_index, .. } => self.num_args + local_index == slot,
            _ => false,
        }
    }

    /// The address of a slot is taken somewhere.
    pub open spec fn address_taken(self, slot: int) -> bool {
        exists|b: int, i: int|
            #![trigger self.blocks[b].instrs[i]]
            self.has_instr(b, i) && self.takes_address(slot, b, i)
    }

    /// How many of the first `n` variables stand for a slot.
    pub open spec fn slot_vars(self, vars: Seq<SsaVarId>, slot: int, n: nat) -> nat
        decreases n,
    {
        if n == 0 {
            0
        } else {
            self.slot_vars(vars, slot, (n - 1) as nat) + (if self.slot(vars[n - 1]) == Some(slot) {
                1nat
            } else {
                0nat
            })
        }
    }

    /// How often the instruction at `i` of block `b` defines a slot.
    pub open spec fn slot_defs_at(self, slot: int, b: int) -> spec_fn(int) -> nat {
        |i: int|
            self.slot_vars(
                self.blocks[b].instrs[i].defs(),
                slot,
                self.blocks[b].instrs[i].defs().len(),
            )
    }

    /// How often block `b` defines a slot.
    pub open spec fn slot_defs_in(self, slot: int) -> spec_fn(int) -> nat {
        |b: int| deadcode::total(self.slot_defs_at(slot, b), self.blocks[b].instrs.len())
    }

    /// How often a slot is defined by an instruction.
    pub open spec fn slot_defs(self, slot: int) -> nat {
        deadcode::total(self.slot_defs_in(slot), self.blocks.len())
    }

    /// A phi node defines a slot or reads it.
    pub open spec fn phi_names_slot(self, phi: PhiView, slot: int) -> bool {
        self.slot(phi.result) == Some(slot) || self.slot_vars(
            phi.values(),
            slot,
            phi.values().len(),
        ) > 0
    }

    /// Some phi node defines a slot or reads it.
    pub open spec fn merged_in_phis(self, slot: int) -> bool {
        exists|b: int, p: int|
            #![trigger self.blocks[b].phis[p]]
            0 <= b < self.blocks.len() && 0 <= p < self.blocks[b].phis.len()
                && self.phi_names_slot(self.blocks[b].phis[p], slot)
    }

    /// A copy is all that tells what its slot holds.
    pub open spec fn is_sole_def(self, dest: usize, src: usize) -> bool {
        match self.slot(SsaVarId(dest)) {
            Some(slot) => self.slot(SsaVarId(src)) != Some(slot) && (self.address_taken(slot) || (
            self.slot_defs(slot) <= 1 && self.merged_in_phis(slot))),
            None => false,
        }
    }

    /// A copy is read before what it is a copy of is defined, in the same block.
    pub open spec fn is_read_early(self, dest: usize, src: usize) -> bool {
        match self.definition(SsaVarId(src)) {
            Some((b, i)) => self.blocks[b].reads_before(SsaVarId(dest), i),
            None => false,
        }
    }

    /// The copies without those that are all that tells what their slot holds.
    pub open spec fn without_sole_defs(self, copies: Map<usize, usize>) -> Map<usize, usize> {
        Map::new(
            |d: usize| copies.contains_key(d) && !self.is_sole_def(d, copies[d]),
            |d: usize| copies[d],
        )
    }

    /// The copies without those that are read before what they are copies of.
    pub open spec fn without_early_reads(self, copies: Map<usize, usize>) -> Map<usize, usize> {
        Map::new(
            |d: usize| copies.contains_key(d) && !self.is_read_early(d, copies[d]),
            |d: usize| copies[d],
        )
    }

    /// The copies that are propagated, each with the variable at the end of its chain.
    pub open spec fn resolved_copies(self) -> Map<usize, usize> {
        let kept = self.without_early_reads(self.without_sole_defs(self.copies()));
        self.without_early_reads(
            Map::new(
                |d: usize| kept.contains_key(d),
                |d: usize| utils::chain_end(kept, kept[d]),
            ),
        )
    }
}

/// Returns what a function copies.
#[must_use]
pub fn collect_all_copies<T: Target>(ssa: &SsaFunction<T>) -> (r: BTreeMap<usize, usize>)
    ensures
        r@ == ssa@.copies(),
{
    broadcast use vstd::std_specs::btree::group_btree_axioms;

    let pairs: Vec<(usize, usize)> = list_copies(ssa);
    let mut r: BTreeMap<usize, usize> = BTreeMap::new();
    let mut k: usize = 0;
    while k < pairs.len()
        invariant
            k <= pairs@.len(),
            r@ == map_of(pairs@, k as nat),
        decreases pairs@.len() - k,
    {
        r.insert(pairs[k].0, pairs[k].1);
        k = k + 1;
    }
    r
}

/// Returns what the blocks of a function copy, in order.
fn list_copies<T: Target>(ssa: &SsaFunction<T>) -> (r: Vec<(usize, usize)>)
    ensures
        r@ == seqs::flat(ssa@.copies_in(), ssa@.blocks.len()),
{
    let mut r: Vec<(usize, usize)> = Vec::new();
    let ghost f = ssa@.copies_in();
    let mut b: usize = 0;
    while b < ssa.blocks.len()
        invariant
            b <= ssa.blocks@.len(),
            f == ssa@.copies_in(),
            r@ == seqs::flat(f, b as nat),
        decreases ssa.blocks@.len() - b,
    {
        assert(ssa.blocks@[b as int]@ == ssa@.blocks[b as int]);
        let block: &SsaBlock<T> = &ssa.blocks[b];
        let ghost g = block@.phi_copies_at();
        let ghost h = block@.op_copies_at();
        assert(r@ =~= seqs::flat(f, b as nat) + seqs::flat(g, 0));
        let mut p: usize = 0;
        while p < block.phis.len()
            invariant
                p <= block.phis@.len(),
                g == block@.phi_copies_at(),
                r@ =~= seqs::flat(f, b as nat) + seqs::flat(g, p as nat),
            decreases block.phis@.len() - p,
        {
            assert(block.phis@[p as int]@ == block@.phis[p as int]);
            let ghost before = r@;
            if let Some(Some(src)) = find_source(&block.phis[p]) {
                r.push((block.phis[p].result.0, src.0));
            }
            assert(r@ =~= before + g(p as int));
            p = p + 1;
        }
        let ghost base = r@;
        assert(r@ =~= base + seqs::flat(h, 0));
        let mut i: usize = 0;
        while i < block.instrs.len()
            invariant
                i <= block.instrs@.len(),
                h == block@.op_copies_at(),
                r@ =~= base + seqs::flat(h, i as nat),
            decreases block.instrs@.len() - i,
        {
            assert(block.instrs@[i as int]@ == block@.instrs[i as int]);
            let ghost before = r@;
            if let Op::Copy { dest, src } = &block.instrs[i].op {
                if *dest != *src {
                    r.push((dest.0, src.0));
                }
            }
            assert(r@ =~= before + h(i as int));
            i = i + 1;
        }
        assert(r@ =~= seqs::flat(f, b as nat) + f(b as int));
        b = b + 1;
    }
    r
}

/// Returns the argument or local variable that `v` stands for, as one number.
fn find_slot<T: Target>(ssa: &SsaFunction<T>, v: SsaVarId) -> (r: Option<u128>)
    ensures
        match r {
            Some(s) => ssa@.slot(v) == Some(s as int),
            None => ssa@.slot(v) is None,
        },
{
    let limit: u128 = ssa.num_args as u128 + ssa.num_locals as u128;
    let group: u128 = match ssa.slot(v) {
        Some(var) => match var.origin() {
            VariableOrigin::Argument(i) => i as u128,
            VariableOrigin::Local(i) => ssa.num_args as u128 + i as u128,
            _ => return None,
        },
        None => return None,
    };
    if group < limit {
        Some(group)
    } else {
        None
    }
}

/// Returns whether the address of a slot is taken somewhere.
fn check_address_taken<T: Target>(ssa: &SsaFunction<T>, slot: u128) -> (r: bool)
    ensures
        r == ssa@.address_taken(slot as int),
{
    let mut b: usize = 0;
    while b < ssa.blocks.len()
        invariant
            b <= ssa.blocks@.len(),
            forall|k: int, i: int|
                #![trigger ssa@.blocks[k].instrs[i]]
                0 <= k < b && 0 <= i < ssa@.blocks[k].instrs.len() ==> !ssa@.takes_address(
                    slot as int,
                    k,
                    i,
                ),
        decreases ssa.blocks@.len() - b,
    {
        assert(ssa.blocks@[b as int]@ == ssa@.blocks[b as int]);
        let mut i: usize = 0;
        while i < ssa.blocks[b].instrs.len()
            invariant
                b < ssa.blocks@.len(),
                ssa.blocks@[b as int]@ == ssa@.blocks[b as int],
                i <= ssa@.blocks[b as int].instrs.len(),
                forall|k: int, i: int|
                    #![trigger ssa@.blocks[k].instrs[i]]
                    0 <= k < b && 0 <= i < ssa@.blocks[k].instrs.len() ==> !ssa@.takes_address(
                        slot as int,
                        k,
                        i,
                    ),
                forall|j: int|
                    0 <= j < i ==> !ssa@.takes_address(slot as int, b as int, j),
            decreases ssa@.blocks[b as int].instrs.len() - i,
        {
            assert(ssa.blocks@[b as int].instrs@[i as int]@
                == ssa@.blocks[b as int].instrs[i as int]);
            if let Op::LoadLocalAddr { local_index, .. } = &ssa.blocks[b].instrs[i].op {
                if ssa.num_args as u128 + *local_index as u128 == slot {
                    assert(ssa@.takes_address(slot as int, b as int, i as int));
                    assert(ssa@.has_instr(b as int, i as int));
                    return true;
                }
            }
            i = i + 1;
        }
        b = b + 1;
    }
    false
}

/// Returns how many of some variables stand for a slot.
fn count_slot_vars<T: Target>(ssa: &SsaFunction<T>, vars: &Vec<SsaVarId>, slot: u128) -> (r: usize)
    ensures
        r == ssa@.slot_vars(vars@, slot as int, vars@.len()),
{
    let mut count: usize = 0;
    let mut i: usize = 0;
    while i < vars.len()
        invariant
            i <= vars@.len(),
            count <= i,
            count == ssa@.slot_vars(vars@, slot as int, i as nat),
        decreases vars@.len() - i,
    {
        if let Some(s) = find_slot(ssa, vars[i]) {
            if s == slot {
                count = count + 1;
            }
        }
        i = i + 1;
    }
    count
}

/// Returns how often a slot is defined by an instruction.
fn count_slot_defs<T: Target>(ssa: &SsaFunction<T>, slot: u128) -> (r: usize)
    ensures
        r == deadcode::capped(ssa@.slot_defs(slot as int)),
{
    let ghost f = ssa@.slot_defs_in(slot as int);
    let mut count: usize = 0;
    let mut b: usize = 0;
    while b < ssa.blocks.len()
        invariant
            b <= ssa.blocks@.len(),
            f == ssa@.slot_defs_in(slot as int),
            count == deadcode::capped(deadcode::total(f, b as nat)),
        decreases ssa.blocks@.len() - b,
    {
        assert(ssa.blocks@[b as int]@ == ssa@.blocks[b as int]);
        let block: &SsaBlock<T> = &ssa.blocks[b];
        let ghost g = ssa@.slot_defs_at(slot as int, b as int);
        let mut i: usize = 0;
        while i < block.instrs.len()
            invariant
                i <= block.instrs@.len(),
                block@ == ssa@.blocks[b as int],
                g == ssa@.slot_defs_at(slot as int, b as int),
                count == deadcode::capped(deadcode::total(f, b as nat) + deadcode::total(
                    g,
                    i as nat,
                )),
            decreases block.instrs@.len() - i,
        {
            assert(block.instrs@[i as int]@ == block@.instrs[i as int]);
            let defs: Vec<SsaVarId> = block.instrs[i].op.defs();
            let found: usize = count_slot_vars(ssa, &defs, slot);
            assert(found == g(i as int));
            count = count.saturating_add(found);
            i = i + 1;
        }
        b = b + 1;
    }
    count
}

/// Returns the variables that a phi node reads.
fn phi_values(phi: &PhiNode) -> (r: Vec<SsaVarId>)
    ensures
        r@ == phi@.values(),
{
    let mut r: Vec<SsaVarId> = Vec::new();
    let mut i: usize = 0;
    while i < phi.operands.len()
        invariant
            i <= phi.operands@.len(),
            r@ =~= phi@.values().take(i as int),
        decreases phi.operands@.len() - i,
    {
        r.push(phi.operands[i].value);
        i = i + 1;
    }
    assert(r@ =~= phi@.values());
    r
}

/// Returns whether some phi node defines a slot or reads it.
fn check_merged<T: Target>(ssa: &SsaFunction<T>, slot: u128) -> (r: bool)
    ensures
        r == ssa@.merged_in_phis(slot as int),
{
    let mut b: usize = 0;
    while b < ssa.blocks.len()
        invariant
            b <= ssa.blocks@.len(),
            forall|k: int, p: int|
                #![trigger ssa@.blocks[k].phis[p]]
                0 <= k < b && 0 <= p < ssa@.blocks[k].phis.len() ==> !ssa@.phi_names_slot(
                    ssa@.blocks[k].phis[p],
                    slot as int,
                ),
        decreases ssa.blocks@.len() - b,
    {
        assert(ssa.blocks@[b as int]@ == ssa@.blocks[b as int]);
        let mut p: usize = 0;
        while p < ssa.blocks[b].phis.len()
            invariant
                b < ssa.blocks@.len(),
                ssa.blocks@[b as int]@ == ssa@.blocks[b as int],
                p <= ssa@.blocks[b as int].phis.len(),
                forall|k: int, p: int|
                    #![trigger ssa@.blocks[k].phis[p]]
                    0 <= k < b && 0 <= p < ssa@.blocks[k].phis.len() ==> !ssa@.phi_names_slot(
                        ssa@.blocks[k].phis[p],
                        slot as int,
                    ),
                forall|j: int|
                    0 <= j < p ==> !ssa@.phi_names_slot(
                        #[trigger] ssa@.blocks[b as int].phis[j],
                        slot as int,
                    ),
            decreases ssa@.blocks[b as int].phis.len() - p,
        {
            assert(ssa.blocks@[b as int].phis@[p as int]@ == ssa@.blocks[b as int].phis[p as int]);
            let phi: &PhiNode = &ssa.blocks[b].phis[p];
            let values: Vec<SsaVarId> = phi_values(phi);
            let defined: bool = match find_slot(ssa, phi.result) {
                Some(s) => s == slot,
                None => false,
            };
            if defined || count_slot_vars(ssa, &values, slot) > 0 {
                assert(ssa@.phi_names_slot(ssa@.blocks[b as int].phis[p as int], slot as int));
                return true;
            }
            p = p + 1;
        }
        b = b + 1;
    }
    false
}

/// Returns whether a copy is all that tells what its slot holds.
fn check_sole_def<T: Target>(ssa: &SsaFunction<T>, dest: usize, src: usize) -> (r: bool)
    ensures
        r == ssa@.is_sole_def(dest, src),
{
    let slot: u128 = match find_slot(ssa, SsaVarId(dest)) {
        Some(s) => s,
        None => return false,
    };
    if let Some(other) = find_slot(ssa, SsaVarId(src)) {
        if other == slot {
            return false;
        }
    }
    check_address_taken(ssa, slot) || (count_slot_defs(ssa, slot) <= 1 && check_merged(ssa, slot))
}

/// Removes the copies that are all that tells what their slot holds.
pub fn protect_sole_local_defs<T: Target>(ssa: &SsaFunction<T>, copies: &mut BTreeMap<usize, usize>)
    ensures
        final(copies)@ == ssa@.without_sole_defs(old(copies)@),
{
    broadcast use vstd::std_specs::btree::group_btree_axioms;

    let ghost all = copies@;
    let list: Vec<usize> = sorted_keys(copies);
    let mut k: usize = 0;
    while k < list.len()
        invariant
            k <= list@.len(),
            utils::lists_keys(all, list@),
            copies@ =~= Map::new(
                |d: usize|
                    all.contains_key(d) && !(list@.take(k as int).contains(d) && ssa@.is_sole_def(
                        d,
                        all[d],
                    )),
                |d: usize| all[d],
            ),
        decreases list@.len() - k,
    {
        let d: usize = list[k];
        let ghost before = copies@;
        proof {
            assert(list@.contains(list@[k as int]));
            assert(!list@.take(k as int).contains(d)) by {
                if list@.take(k as int).contains(d) {
                    let j = choose|j: int| 0 <= j < k && list@.take(k as int)[j] == d;
                    assert(list@[j] < list@[k as int]);
                }
            }
            assert(list@.take((k + 1) as int) =~= list@.take(k as int).push(d));
        }
        if let Some(src) = copies.get(&d) {
            if check_sole_def(ssa, d, *src) {
                copies.remove(&d);
            }
        }
        proof {
            assert forall|x: usize|
                list@.take((k + 1) as int).contains(x) <==> list@.take(k as int).contains(x) || x
                    == d by {
                crate::analysis::closure::lemma_contains_push(list@.take(k as int), d, x);
            }
        }
        k = k + 1;
    }
    assert(list@.take(list@.len() as int) =~= list@);
    assert(copies@ =~= ssa@.without_sole_defs(all));
}

/// Returns whether an instruction before the one at `i` reads `v`.
fn check_reads_before<T: Target>(block: &SsaBlock<T>, v: SsaVarId, i: usize) -> (r: bool)
    requires
        i <= block@.instrs.len(),
    ensures
        r == block@.reads_before(v, i as int),
{
    let mut j: usize = 0;
    while j < i
        invariant
            j <= i,
            i <= block@.instrs.len(),
            forall|k: int| 0 <= k < j ==> !(#[trigger] block@.instrs[k]).uses().contains(v),
        decreases i - j,
    {
        assert(block.instrs@[j as int]@ == block@.instrs[j as int]);
        if block.instrs[j].op.uses_var(v) {
            assert(block@.instrs[j as int].uses().contains(v));
            return true;
        }
        j = j + 1;
    }
    false
}

/// Returns whether a copy is read before what it is a copy of.
fn check_read_early<T: Target>(
    ssa: &SsaFunction<T>,
    index: &DefUseIndex,
    dest: usize,
    src: usize,
) -> (r: bool)
    requires
        index.describes(ssa@),
    ensures
        r == ssa@.is_read_early(dest, src),
{
    match index.full_definition(ssa, SsaVarId(src)) {
        Some((b, i)) => {
            assert(ssa.blocks@[b as int]@ == ssa@.blocks[b as int]);
            check_reads_before(&ssa.blocks[b], SsaVarId(dest), i)
        },
        None => false,
    }
}

/// Removes the copies that are read before what they are copies of.
pub fn protect_same_block_ordering<T: Target>(
    ssa: &SsaFunction<T>,
    copies: &mut BTreeMap<usize, usize>,
)
    ensures
        final(copies)@ == ssa@.without_early_reads(old(copies)@),
{
    let index: DefUseIndex = DefUseIndex::build(ssa);
    protect_same_block_ordering_with(ssa, &index, copies);
}

/// Removes the copies that are read before what they are copies of, with the definitions at hand.
fn protect_same_block_ordering_with<T: Target>(
    ssa: &SsaFunction<T>,
    index: &DefUseIndex,
    copies: &mut BTreeMap<usize, usize>,
)
    requires
        index.describes(ssa@),
    ensures
        final(copies)@ == ssa@.without_early_reads(old(copies)@),
{
    broadcast use vstd::std_specs::btree::group_btree_axioms;

    let ghost all = copies@;
    let list: Vec<usize> = sorted_keys(copies);
    let mut k: usize = 0;
    while k < list.len()
        invariant
            k <= list@.len(),
            index.describes(ssa@),
            utils::lists_keys(all, list@),
            copies@ =~= Map::new(
                |d: usize|
                    all.contains_key(d) && !(list@.take(k as int).contains(d)
                        && ssa@.is_read_early(d, all[d])),
                |d: usize| all[d],
            ),
        decreases list@.len() - k,
    {
        let d: usize = list[k];
        proof {
            assert(list@.contains(list@[k as int]));
            assert(!list@.take(k as int).contains(d)) by {
                if list@.take(k as int).contains(d) {
                    let j = choose|j: int| 0 <= j < k && list@.take(k as int)[j] == d;
                    assert(list@[j] < list@[k as int]);
                }
            }
            assert(list@.take((k + 1) as int) =~= list@.take(k as int).push(d));
        }
        if let Some(src) = copies.get(&d) {
            if check_read_early(ssa, index, d, *src) {
                copies.remove(&d);
            }
        }
        proof {
            assert forall|x: usize|
                list@.take((k + 1) as int).contains(x) <==> list@.take(k as int).contains(x) || x
                    == d by {
                crate::analysis::closure::lemma_contains_push(list@.take(k as int), d, x);
            }
        }
        k = k + 1;
    }
    assert(list@.take(list@.len() as int) =~= list@);
    assert(copies@ =~= ssa@.without_early_reads(all));
}

/// Returns the copies to propagate, each with the variable at the end of its chain.
#[must_use]
pub fn resolve_copies<T: Target>(ssa: &SsaFunction<T>) -> (r: BTreeMap<usize, usize>)
    ensures
        r@ == ssa@.resolved_copies(),
{
    broadcast use vstd::std_specs::btree::group_btree_axioms;

    let mut copies: BTreeMap<usize, usize> = collect_all_copies(ssa);
    protect_sole_local_defs(ssa, &mut copies);
    let index: DefUseIndex = DefUseIndex::build(ssa);
    protect_same_block_ordering_with(ssa, &index, &mut copies);
    let list: Vec<usize> = sorted_keys(&copies);
    let mut resolved: BTreeMap<usize, usize> = BTreeMap::new();
    let mut k: usize = 0;
    while k < list.len()
        invariant
            k <= list@.len(),
            utils::lists_keys(copies@, list@),
            resolved@ =~= Map::new(
                |d: usize| list@.take(k as int).contains(d),
                |d: usize| utils::chain_end(copies@, copies@[d]),
            ),
        decreases list@.len() - k,
    {
        let d: usize = list[k];
        proof {
            assert(list@.contains(list@[k as int]));
            assert(list@.take((k + 1) as int) =~= list@.take(k as int).push(d));
            assert forall|x: usize|
                list@.take((k + 1) as int).contains(x) <==> list@.take(k as int).contains(x) || x
                    == d by {
                crate::analysis::closure::lemma_contains_push(list@.take(k as int), d, x);
            }
        }
        if let Some(src) = copies.get(&d) {
            let end: usize = resolve_chain(&copies, *src);
            resolved.insert(d, end);
        }
        k = k + 1;
    }
    assert(list@.take(list@.len() as int) =~= list@);
    assert(resolved@ =~= Map::new(
        |d: usize| copies@.contains_key(d),
        |d: usize| utils::chain_end(copies@, copies@[d]),
    ));
    protect_same_block_ordering_with(ssa, &index, &mut resolved);
    resolved
}

/// What was read of some copies: the function, the number of changed reads, and the copies that
/// nothing reads any more and those that are still read.
pub struct Propagation<T: Target> {
    pub ssa: SsaView<T>,
    pub count: nat,
    pub full: Seq<usize>,
    pub partial: Seq<usize>,
}

impl<T: Target> BlockView<T> {
    /// How many reads of `v` by phi node `p` change.
    pub open spec fn phi_moves(self, v: SsaVarId, to: SsaVarId) -> spec_fn(int) -> nat {
        |p: int|
            if self.phis[p].result == to {
                0
            } else {
                gvn::reads_of(self.phis[p].values(), v, self.phis[p].values().len())
            }
    }

    /// How many reads of `v` by the instruction at `i` change.
    pub open spec fn op_moves(self, v: SsaVarId, to: SsaVarId) -> spec_fn(int) -> nat {
        |i: int|
            if self.instrs[i].defs().contains(to) {
                0
            } else {
                gvn::reads_of(self.instrs[i].uses(), v, self.instrs[i].uses().len())
            }
    }

    /// How many reads of `v` change.
    pub open spec fn moves(self, v: SsaVarId, to: SsaVarId) -> nat {
        deadcode::total(self.phi_moves(v, to), self.phis.len()) + deadcode::total(
            self.op_moves(v, to),
            self.instrs.len(),
        )
    }

    /// The block with what reads `v` reading `to`, but for what defines `to`.
    pub open spec fn propagating(self, v: SsaVarId, to: SsaVarId) -> BlockView<T> {
        self.with_phis(
            self.phis.map_values(
                |p: PhiView|
                    if p.result == to {
                        p
                    } else {
                        p.reading(v, to)
                    },
            ),
        ).with_instrs(
            self.instrs.map_values(
                |op: OpView<T>|
                    if op.defs().contains(to) {
                        op
                    } else {
                        op.reading(v, to)
                    },
            ),
        )
    }

    /// The block without the copies to `v`.
    pub open spec fn without_copy(self, v: usize) -> BlockView<T> {
        self.with_instrs(
            self.instrs.map_values(
                |op: OpView<T>|
                    match op {
                        Op::Copy { dest, .. } => if dest.0 == v {
                            Op::Nop
                        } else {
                            op
                        },
                        _ => op,
                    },
            ),
        )
    }
}

impl<T: Target> SsaView<T> {
    /// How many reads of `v` in block `b` change.
    pub open spec fn moves_in(self, v: SsaVarId, to: SsaVarId) -> spec_fn(int) -> nat {
        |b: int| self.blocks[b].moves(v, to)
    }

    /// The function with what reads `v` reading `to`, but for what defines `to`.
    pub open spec fn propagating(self, v: SsaVarId, to: SsaVarId) -> SsaView<T> {
        SsaView {
            blocks: self.blocks.map_values(|b: BlockView<T>| b.propagating(v, to)),
            ..self
        }
    }

    /// What reads the first `n` of the copies reads what they are copies of.
    pub open spec fn propagated(
        self,
        copies: Map<usize, usize>,
        list: Seq<usize>,
        n: nat,
    ) -> Propagation<T>
        decreases n,
    {
        if n == 0 {
            Propagation { ssa: self, count: 0, full: Seq::empty(), partial: Seq::empty() }
        } else {
            let before = self.propagated(copies, list, (n - 1) as nat);
            let v = SsaVarId(list[n - 1]);
            let to = SsaVarId(copies[list[n - 1]]);
            let count = deadcode::total(before.ssa.moves_in(v, to), before.ssa.blocks.len());
            let after = before.ssa.propagating(v, to);
            Propagation {
                ssa: after,
                count: before.count + count,
                full: if count > 0 && !after.is_read(v) {
                    before.full.push(list[n - 1])
                } else {
                    before.full
                },
                partial: if count > 0 && after.is_read(v) {
                    before.partial.push(list[n - 1])
                } else {
                    before.partial
                },
            }
        }
    }

    /// The function without the copies to the first `n` of some variables.
    pub open spec fn without_copies(self, list: Seq<usize>, n: nat) -> SsaView<T>
        decreases n,
    {
        if n == 0 {
            self
        } else {
            let before = self.without_copies(list, (n - 1) as nat);
            SsaView {
                blocks: before.blocks.map_values(|b: BlockView<T>| b.without_copy(list[n - 1])),
                ..before
            }
        }
    }
}

/// The event of a propagated copy.
pub open spec fn propagated_event<T: Target>(
    method: T::MethodRef,
    copies: Map<usize, usize>,
    v: usize,
) -> EventView<T> {
    EventView::of(
        EventKind::CopyPropagated,
        method,
        text::var_name(SsaVarId(v)) + " → "@ + text::var_name(SsaVarId(copies[v])),
    )
}

impl<T: Target> SsaView<T> {
    /// What comes of propagating resolved copies: nothing where the result is not well formed.
    pub open spec fn copies_propagated(
        self,
        copies: Map<usize, usize>,
        method: T::MethodRef,
    ) -> deadcode::Removal<T> {
        let list = utils::keys(copies);
        let step = self.propagated(copies, list, list.len());
        let cleaned = step.ssa.without_copies(step.full, step.full.len());
        if step.count == 0 || !cleaned.repaired().well_formed() {
            deadcode::Removal { ssa: self, events: Seq::empty(), count: 0 }
        } else {
            deadcode::Removal {
                ssa: cleaned.repaired(),
                events: (step.full + step.partial).map_values(
                    |v: usize| propagated_event::<T>(method, copies, v),
                ),
                count: step.count,
            }
        }
    }
}

/// Makes what reads `v` in a block read `to`, and returns how many reads changed, together with
/// `before`.
fn propagate_block<T: Target>(
    block: &SsaBlock<T>,
    v: SsaVarId,
    to: SsaVarId,
    before: usize,
    Ghost(counted): Ghost<nat>,
) -> (r: (SsaBlock<T>, usize))
    requires
        before == deadcode::capped(counted),
    ensures
        r.0@ == block@.propagating(v, to),
        r.1 == deadcode::capped(counted + block@.moves(v, to)),
{
    let mut copy: SsaBlock<T> = block.duplicate();
    let ghost s = block@;
    let ghost goal = s.propagating(v, to);
    let ghost f = s.phi_moves(v, to);
    let ghost g = s.op_moves(v, to);
    let mut count: usize = before;
    let n: usize = copy.phis.len();
    let mut p: usize = 0;
    while p < n
        invariant
            p <= n,
            n == s.phis.len(),
            copy.phis@.len() == n,
            goal == s.propagating(v, to),
            f == s.phi_moves(v, to),
            copy@ == s.with_phis(copy@.phis),
            forall|j: int| 0 <= j < p ==> #[trigger] copy@.phis[j] == goal.phis[j],
            forall|j: int| p <= j < n ==> #[trigger] copy@.phis[j] == s.phis[j],
            count == deadcode::capped(counted + deadcode::total(f, p as nat)),
        decreases n - p,
    {
        let ghost was = copy@;
        assert(copy.phis@[p as int]@ == copy@.phis[p as int]);
        if copy.phis[p].result != to {
            let moved: usize = count_phi_reads(&copy.phis[p], v);
            assert(moved == f(p as int));
            count = count.saturating_add(moved);
            copy.phis[p].replace_uses(v, to);
            assert(copy@.phis =~= was.phis.update(p as int, goal.phis[p as int]));
        }
        p = p + 1;
    }
    assert(copy@.phis =~= goal.phis);
    let m: usize = copy.instrs.len();
    let ghost phis = deadcode::total(f, s.phis.len());
    let mut i: usize = 0;
    while i < m
        invariant
            i <= m,
            m == s.instrs.len(),
            copy@.instrs.len() == m,
            goal == s.propagating(v, to),
            g == s.op_moves(v, to),
            copy@ == s.with_phis(goal.phis).with_instrs(copy@.instrs),
            forall|j: int| 0 <= j < i ==> #[trigger] copy@.instrs[j] == goal.instrs[j],
            forall|j: int| i <= j < m ==> #[trigger] copy@.instrs[j] == s.instrs[j],
            count == deadcode::capped(counted + phis + deadcode::total(g, i as nat)),
        decreases m - i,
    {
        assert(copy.instrs@[i as int]@ == copy@.instrs[i as int]);
        let mut op: SsaOp<T> = copy.instrs[i].op.duplicate();
        if !defines(&op, to) {
            let moved: usize = count_reads(&op, v);
            assert(moved == g(i as int));
            count = count.saturating_add(moved);
            op.replace_uses(v, to);
            copy.set_op(i, op);
        }
        i = i + 1;
    }
    assert(copy@.instrs =~= goal.instrs);
    (copy, count)
}

/// Returns how often a phi node reads `v`.
fn count_phi_reads(phi: &PhiNode, v: SsaVarId) -> (r: usize)
    ensures
        r == gvn::reads_of(phi@.values(), v, phi@.values().len()),
{
    let mut count: usize = 0;
    let mut i: usize = 0;
    while i < phi.operands.len()
        invariant
            i <= phi.operands@.len(),
            count <= i,
            count == gvn::reads_of(phi@.values(), v, i as nat),
        decreases phi.operands@.len() - i,
    {
        assert(phi@.values()[i as int] == phi.operands@[i as int].value);
        if phi.operands[i].value == v {
            count = count + 1;
        }
        i = i + 1;
    }
    count
}

/// Returns whether an operation defines `v`.
fn defines<T: Target>(op: &SsaOp<T>, v: SsaVarId) -> (r: bool)
    ensures
        r == op@.defs().contains(v),
{
    let defs: Vec<SsaVarId> = op.defs();
    let mut i: usize = 0;
    while i < defs.len()
        invariant
            i <= defs@.len(),
            defs@ == op@.defs(),
            forall|j: int| 0 <= j < i ==> defs@[j] != v,
        decreases defs@.len() - i,
    {
        if defs[i] == v {
            assert(defs@[i as int] == v);
            return true;
        }
        i = i + 1;
    }
    false
}

/// Makes what reads `v` read `to`, and returns how many reads changed.
fn propagate<T: Target>(ssa: &mut SsaFunction<T>, v: SsaVarId, to: SsaVarId) -> (r: usize)
    ensures
        final(ssa)@ == old(ssa)@.propagating(v, to),
        r == deadcode::capped(
            deadcode::total(old(ssa)@.moves_in(v, to), old(ssa)@.blocks.len()),
        ),
{
    let ghost s = ssa@;
    let ghost f = s.moves_in(v, to);
    let n: usize = ssa.blocks.len();
    let mut count: usize = 0;
    let mut b: usize = 0;
    while b < n
        invariant
            b <= n,
            n == s.blocks.len(),
            f == s.moves_in(v, to),
            ssa@ == (SsaView { blocks: ssa@.blocks, ..s }),
            ssa@.blocks.len() == n,
            forall|j: int| 0 <= j < b ==> #[trigger] ssa@.blocks[j] == s.blocks[j].propagating(v, to),
            forall|j: int| b <= j < n ==> #[trigger] ssa@.blocks[j] == s.blocks[j],
            count == deadcode::capped(deadcode::total(f, b as nat)),
        decreases n - b,
    {
        assert(ssa.blocks@[b as int]@ == ssa@.blocks[b as int]);
        let (block, counted) = propagate_block(
            &ssa.blocks[b],
            v,
            to,
            count,
            Ghost(deadcode::total(f, b as nat)),
        );
        assert(f(b as int) == s.blocks[b as int].moves(v, to));
        count = counted;
        ssa.set_block(b, block);
        b = b + 1;
    }
    assert(ssa@.blocks =~= s.propagating(v, to).blocks);
    count
}

/// Removes the copies to `v`.
fn nop_copy_defining<T: Target>(ssa: &mut SsaFunction<T>, v: usize)
    ensures
        final(ssa)@ == (SsaView {
            blocks: old(ssa)@.blocks.map_values(|b: BlockView<T>| b.without_copy(v)),
            ..old(ssa)@
        }),
{
    let ghost s = ssa@;
    let n: usize = ssa.blocks.len();
    let mut b: usize = 0;
    while b < n
        invariant
            b <= n,
            n == s.blocks.len(),
            ssa@ == (SsaView { blocks: ssa@.blocks, ..s }),
            ssa@.blocks.len() == n,
            forall|j: int| 0 <= j < b ==> #[trigger] ssa@.blocks[j] == s.blocks[j].without_copy(v),
            forall|j: int| b <= j < n ==> #[trigger] ssa@.blocks[j] == s.blocks[j],
        decreases n - b,
    {
        assert(ssa.blocks@[b as int]@ == ssa@.blocks[b as int]);
        let ghost goal = s.blocks[b as int].without_copy(v);
        let mut copy: SsaBlock<T> = ssa.blocks[b].duplicate();
        let m: usize = copy.instrs.len();
        let mut i: usize = 0;
        while i < m
            invariant
                i <= m,
                b < s.blocks.len(),
                m == s.blocks[b as int].instrs.len(),
                copy@.instrs.len() == m,
                goal == s.blocks[b as int].without_copy(v),
                copy@ == s.blocks[b as int].with_instrs(copy@.instrs),
                forall|j: int| 0 <= j < i ==> #[trigger] copy@.instrs[j] == goal.instrs[j],
                forall|j: int|
                    i <= j < m ==> #[trigger] copy@.instrs[j] == s.blocks[b as int].instrs[j],
            decreases m - i,
        {
            assert(copy.instrs@[i as int]@ == copy@.instrs[i as int]);
            let gone: bool = match &copy.instrs[i].op {
                Op::Copy { dest, .. } => dest.0 == v,
                _ => false,
            };
            if gone {
                copy.set_op(i, Op::Nop);
            }
            i = i + 1;
        }
        assert(copy@.instrs =~= goal.instrs);
        ssa.set_block(b, copy);
        b = b + 1;
    }
    assert(ssa@.blocks =~= s.blocks.map_values(|b: BlockView<T>| b.without_copy(v)));
}

/// Reports the copies of a list as propagated.
fn report_propagated<T: Target>(
    list: &Vec<usize>,
    copies: &BTreeMap<usize, usize>,
    method: &T::MethodRef,
    events: &mut EventLog<T>,
)
    requires
        forall|k: int| 0 <= k < list@.len() ==> copies@.contains_key(#[trigger] list@[k]),
    ensures
        final(events)@ == old(events)@ + list@.map_values(
            |v: usize| propagated_event::<T>(*method, copies@, v),
        ),
{
    broadcast use vstd::std_specs::btree::group_btree_axioms;

    let ghost reported = list@.map_values(|v: usize| propagated_event::<T>(*method, copies@, v));
    assert(events@ =~= old(events)@ + reported.take(0));
    let mut k: usize = 0;
    while k < list.len()
        invariant
            k <= list@.len(),
            forall|k: int| 0 <= k < list@.len() ==> copies@.contains_key(#[trigger] list@[k]),
            reported == list@.map_values(|v: usize| propagated_event::<T>(*method, copies@, v)),
            events@ == old(events)@ + reported.take(k as int),
        decreases list@.len() - k,
    {
        let v: usize = list[k];
        assert(copies@.contains_key(list@[k as int]));
        if let Some(src) = copies.get(&v) {
            let mut message: String = String::from_str("");
            proof {
                reveal_strlit("");
            }
            assert(message@ =~= Seq::empty());
            text::push_var(&mut message, SsaVarId(v));
            assert(message@ =~= text::var_name(SsaVarId(v)));
            message.append(" → ");
            text::push_var(&mut message, SsaVarId(*src));
            events.record(EventKind::CopyPropagated, method, message);
        }
        assert(events@ =~= old(events)@ + reported.take((k + 1) as int));
        k = k + 1;
    }
    assert(reported.take(k as int) =~= reported);
}

/// Makes what reads the copies read what they are copies of, and returns how many reads changed.
///
/// Where the result is not well formed, the function stays as it was.
pub fn propagate_resolved<T: Target>(
    ssa: &mut SsaFunction<T>,
    copies: &BTreeMap<usize, usize>,
    method: &T::MethodRef,
    events: &mut EventLog<T>,
) -> (r: usize)
    ensures
        ({
            let step = old(ssa)@.copies_propagated(copies@, *method);
            &&& final(ssa)@ == step.ssa
            &&& final(events)@ == old(events)@ + step.events
            &&& r == deadcode::capped(step.count)
        }),
{
    broadcast use vstd::std_specs::btree::group_btree_axioms;

    let before: SsaFunction<T> = ssa.duplicate();
    let ghost s = ssa@;
    let list: Vec<usize> = sorted_keys(copies);
    let mut full: Vec<usize> = Vec::new();
    let mut partial: Vec<usize> = Vec::new();
    let mut total: usize = 0;
    let mut k: usize = 0;
    while k < list.len()
        invariant
            k <= list@.len(),
            utils::lists_keys(copies@, list@),
            ssa@ == s.propagated(copies@, list@, k as nat).ssa,
            total == deadcode::capped(s.propagated(copies@, list@, k as nat).count),
            full@ == s.propagated(copies@, list@, k as nat).full,
            partial@ == s.propagated(copies@, list@, k as nat).partial,
            forall|j: int| 0 <= j < full@.len() ==> copies@.contains_key(#[trigger] full@[j]),
            forall|j: int| 0 <= j < partial@.len() ==> copies@.contains_key(#[trigger] partial@[j]),
        decreases list@.len() - k,
    {
        let v: usize = list[k];
        assert(list@.contains(list@[k as int]));
        let to: usize = match copies.get(&v) {
            Some(to) => *to,
            None => v,
        };
        let moved: usize = propagate(ssa, SsaVarId(v), SsaVarId(to));
        if moved > 0 {
            if check_read(ssa, SsaVarId(v)) {
                partial.push(v);
            } else {
                full.push(v);
            }
            total = total.saturating_add(moved);
        }
        k = k + 1;
    }
    let ghost step = s.propagated(copies@, list@, list@.len());
    let ghost moved = ssa@;
    if total == 0 {
        *ssa = before;
        assert(events@ =~= old(events)@ + Seq::empty());
        return 0;
    }
    let mut k: usize = 0;
    while k < full.len()
        invariant
            k <= full@.len(),
            ssa@ == moved.without_copies(full@, k as nat),
        decreases full@.len() - k,
    {
        nop_copy_defining(ssa, full[k]);
        k = k + 1;
    }
    if !ssa.commit(before) {
        assert(events@ =~= old(events)@ + Seq::empty());
        return 0;
    }
    report_propagated(&full, copies, method, events);
    report_propagated(&partial, copies, method, events);
    assert(events@ =~= old(events)@ + (full@ + partial@).map_values(
        |v: usize| propagated_event::<T>(*method, copies@, v),
    ));
    total
}

/// What a host does between finding the copies of a function and propagating them.
pub trait CopyHook<T: Target> {
    /// What the host remembers from call to call, as a mathematical value.
    type State;

    /// What the host remembers.
    spec fn state(&self) -> Self::State;

    /// What becomes of the function, and of what the host remembers.
    spec fn hooked(state: Self::State, ssa: SsaView<T>, copies: Map<usize, usize>) -> (
        SsaView<T>,
        Self::State,
    );

    /// Looks at the copies that were found, and may change the function.
    fn on_resolved(&mut self, ssa: &mut SsaFunction<T>, copies: &BTreeMap<usize, usize>)
        ensures
            (final(ssa)@, final(self).state()) == Self::hooked(
                old(self).state(),
                old(ssa)@,
                copies@,
            ),
    ;
}

/// Does nothing between finding the copies and propagating them.
pub struct NoHook;

impl<T: Target> CopyHook<T> for NoHook {
    type State = ();

    open spec fn state(&self) -> () {
        ()
    }

    open spec fn hooked(_state: (), ssa: SsaView<T>, _copies: Map<usize, usize>) -> (
        SsaView<T>,
        (),
    ) {
        (ssa, ())
    }

    fn on_resolved(&mut self, _ssa: &mut SsaFunction<T>, _copies: &BTreeMap<usize, usize>) {
    }
}

/// What one round of copy propagation leaves behind.
pub struct CopyStep<T: Target, H: CopyHook<T>> {
    /// The function, the reported events and the number of reads that changed.
    pub removal: deadcode::Removal<T>,
    /// What the host remembers.
    pub state: H::State,
    /// How often the host was called.
    pub calls: nat,
}

/// What rounds of copy propagation leave behind.
pub struct Copying<T: Target, H: CopyHook<T>> {
    /// The function, the reported events and whether a read changed.
    pub outcome: Outcome<T>,
    /// What the host remembers.
    pub state: H::State,
    /// How often the host was called.
    pub calls: nat,
}

impl<T: Target> SsaView<T> {
    /// One round of copy propagation: the host is called once where there are copies, and not at all
    /// where there are none.
    pub open spec fn copying_once<H: CopyHook<T>>(
        self,
        state: H::State,
        method: T::MethodRef,
    ) -> CopyStep<T, H> {
        if self.copies().dom().len() == 0 {
            CopyStep {
                removal: deadcode::Removal { ssa: self, events: Seq::empty(), count: 0 },
                state,
                calls: 0,
            }
        } else {
            let copies = self.resolved_copies();
            let (ssa, after) = H::hooked(state, self, copies);
            CopyStep { removal: ssa.copies_propagated(copies, method), state: after, calls: 1 }
        }
    }

    /// At most `rounds` rounds of copy propagation, until one changes nothing.
    pub open spec fn copying<H: CopyHook<T>>(
        self,
        state: H::State,
        method: T::MethodRef,
        rounds: nat,
    ) -> Copying<T, H>
        decreases rounds,
    {
        if rounds == 0 {
            Copying { outcome: self.untouched(), state, calls: 0 }
        } else {
            let step = self.copying_once::<H>(state, method);
            let first = step.removal;
            if first.count == 0 {
                Copying {
                    outcome: Outcome { ssa: first.ssa, events: first.events, changed: false },
                    state: step.state,
                    calls: step.calls,
                }
            } else {
                let rest = first.ssa.copying::<H>(step.state, method, (rounds - 1) as nat);
                Copying {
                    outcome: Outcome {
                        ssa: rest.outcome.ssa,
                        events: first.events + rest.outcome.events,
                        changed: true,
                    },
                    state: rest.state,
                    calls: step.calls + rest.calls,
                }
            }
        }
    }
}

/// The host is called at most once in every round, and at least once where a read changed; without
/// rounds it is not called, and nothing changes.
pub proof fn host_is_called_once_per_round<T: Target, H: CopyHook<T>>(
    ssa: SsaView<T>,
    state: H::State,
    method: T::MethodRef,
    rounds: nat,
)
    ensures
        ({
            let all = ssa.copying::<H>(state, method, rounds);
            &&& all.calls <= rounds
            &&& all.outcome.changed ==> all.calls >= 1
            &&& all.calls == 0 ==> all.state == state
            &&& rounds == 0 ==> all.outcome == ssa.untouched() && all.state == state
        }),
    decreases rounds,
{
    if rounds > 0 {
        let step = ssa.copying_once::<H>(state, method);
        host_is_called_once_per_round::<T, H>(
            step.removal.ssa,
            step.state,
            method,
            (rounds - 1) as nat,
        );
    }
}

/// Propagates copies once, and returns how many reads changed.
pub fn run_iteration<T: Target, H: CopyHook<T>>(
    ssa: &mut SsaFunction<T>,
    method: &T::MethodRef,
    events: &mut EventLog<T>,
    hook: &mut H,
) -> (r: usize)
    ensures
        ({
            let step = old(ssa)@.copying_once::<H>(old(hook).state(), *method);
            &&& final(ssa)@ == step.removal.ssa
            &&& final(events)@ == old(events)@ + step.removal.events
            &&& final(hook).state() == step.state
            &&& r == deadcode::capped(step.removal.count)
        }),
{
    broadcast use vstd::std_specs::btree::group_btree_axioms;

    let copies: BTreeMap<usize, usize> = collect_all_copies(ssa);
    if copies.len() == 0 {
        assert(events@ =~= old(events)@ + Seq::empty());
        return 0;
    }
    let resolved: BTreeMap<usize, usize> = resolve_copies(ssa);
    hook.on_resolved(ssa, &resolved);
    propagate_resolved(ssa, &resolved, method, events)
}

/// Propagates copies until nothing changes, at most `max_iterations` times, calling `hook` each time
/// between finding the copies and propagating them.
///
/// Returns whether a read changed.
pub fn run_with_hook<T: Target, H: CopyHook<T>>(
    ssa: &mut SsaFunction<T>,
    method: &T::MethodRef,
    events: &mut EventLog<T>,
    max_iterations: usize,
    hook: &mut H,
) -> (r: bool)
    ensures
        ({
            let all = old(ssa)@.copying::<H>(old(hook).state(), *method, max_iterations as nat);
            &&& final(ssa)@ == all.outcome.ssa
            &&& final(events)@ == old(events)@ + all.outcome.events
            &&& final(hook).state() == all.state
            &&& r == all.outcome.changed
        }),
    decreases max_iterations,
{
    let ghost s = ssa@;
    if max_iterations == 0 {
        assert(events@ =~= old(events)@ + Seq::empty());
        return false;
    }
    if run_iteration(ssa, method, events, hook) == 0 {
        return false;
    }
    let ghost step = s.copying_once::<H>(old(hook).state(), *method);
    let ghost first = step.removal;
    let ghost rest = first.ssa.copying::<H>(
        step.state,
        *method,
        (max_iterations - 1) as nat,
    ).outcome;
    let _ = run_with_hook(ssa, method, events, max_iterations - 1, hook);
    assert(old(events)@ + first.events + rest.events =~= old(events)@ + (first.events
        + rest.events));
    true
}

/// Propagates copies until nothing changes, at most `max_iterations` times.
///
/// Returns whether a read changed.
pub fn run<T: Target>(
    ssa: &mut SsaFunction<T>,
    method: &T::MethodRef,
    events: &mut EventLog<T>,
    max_iterations: usize,
) -> (r: bool)
    ensures
        ({
            let outcome = old(ssa)@.copying::<NoHook>(
                (),
                *method,
                max_iterations as nat,
            ).outcome;
            &&& final(ssa)@ == outcome.ssa
            &&& final(events)@ == old(events)@ + outcome.events
            &&& r == outcome.changed
        }),
{
    run_with_hook(ssa, method, events, max_iterations, &mut NoHook)
}

/// Every run of the pass that starts from a well formed function ends with one.
pub proof fn copying_keeps_well_formed<T: Target>(
    ssa: SsaView<T>,
    method: T::MethodRef,
    rounds: nat,
)
    requires
        ssa.well_formed(),
    ensures
        ssa.copying::<NoHook>((), method, rounds).outcome.ssa.well_formed(),
    decreases rounds,
{
    if rounds > 0 {
        let first = ssa.copying_once::<NoHook>((), method).removal;
        assert(first.ssa.well_formed());
        copying_keeps_well_formed(first.ssa, method, (rounds - 1) as nat);
    }
}

impl<T: Target> SsaView<T> {
    /// Each phi node and each operation that only copies gives its result the value of what it is a
    /// copy of.
    pub open spec fn copies_hold(self, env: spec_fn(SsaVarId) -> u64) -> bool {
        &&& forall|b: int, p: int|
            #![trigger self.blocks[b].phis[p]]
            0 <= b < self.blocks.len() && 0 <= p < self.blocks[b].phis.len() ==> (
            self.blocks[b].phis[p].source() matches Some(Some(src)) ==> env(
                self.blocks[b].phis[p].result,
            ) == env(src))
        &&& forall|b: int, i: int|
            #![trigger self.blocks[b].instrs[i]]
            0 <= b < self.blocks.len() && 0 <= i < self.blocks[b].instrs.len() ==> (
            self.blocks[b].instrs[i] matches Op::Copy { dest, src } ==> env(dest) == env(src))
    }
}

/// What a map of pairs gives for a key is the other half of one of the pairs.
proof fn lemma_map_of(pairs: Seq<(usize, usize)>, n: nat, k: usize)
    requires
        n <= pairs.len(),
        map_of(pairs, n).contains_key(k),
    ensures
        pairs.contains((k, map_of(pairs, n)[k])),
    decreases n,
{
    if pairs[n - 1].0 == k {
        assert(pairs[n - 1] == (k, map_of(pairs, n)[k]));
    } else {
        lemma_map_of(pairs, (n - 1) as nat, k);
    }
}

/// A copy has the value of what it is a copy of.
proof fn lemma_copy_value<T: Target>(ssa: SsaView<T>, env: spec_fn(SsaVarId) -> u64, d: usize)
    requires
        ssa.copies_hold(env),
        ssa.copies().contains_key(d),
    ensures
        env(SsaVarId(d)) == env(SsaVarId(ssa.copies()[d])),
{
    let pairs = seqs::flat(ssa.copies_in(), ssa.blocks.len());
    let pair = (d, ssa.copies()[d]);
    lemma_map_of(pairs, pairs.len(), d);
    let b = seqs::lemma_flat_source(ssa.copies_in(), ssa.blocks.len(), pair);
    let block = ssa.blocks[b];
    let by_phis = seqs::flat(block.phi_copies_at(), block.phis.len());
    let by_ops = seqs::flat(block.op_copies_at(), block.instrs.len());
    let both = by_phis + by_ops;
    let k = choose|k: int| 0 <= k < both.len() && both[k] == pair;
    if k < by_phis.len() {
        assert(by_phis[k] == pair);
        let p = seqs::lemma_flat_source(block.phi_copies_at(), block.phis.len(), pair);
        assert(ssa.blocks[b].phis[p] == block.phis[p]);
        assert(phi_copy(block.phis[p]).contains(pair));
    } else {
        assert(by_ops[k - by_phis.len()] == pair);
        let i = seqs::lemma_flat_source(block.op_copies_at(), block.instrs.len(), pair);
        assert(ssa.blocks[b].instrs[i] == block.instrs[i]);
        assert(op_copy(block.instrs[i]).contains(pair));
    }
}

/// Following a map between variables of equal value leads to a variable of equal value.
proof fn lemma_walk_value(
    map: Map<usize, usize>,
    env: spec_fn(SsaVarId) -> u64,
    start: usize,
    n: nat,
)
    requires
        forall|d: usize| #[trigger]
            map.contains_key(d) ==> env(SsaVarId(d)) == env(SsaVarId(map[d])),
    ensures
        env(SsaVarId(utils::walk(map, start, n))) == env(SsaVarId(start)),
    decreases n,
{
    if n > 0 {
        lemma_walk_value(map, env, start, (n - 1) as nat);
    }
}

/// A variable is only exchanged for one of equal value: wherever every copy has the value of what
/// it is a copy of, every copy that is propagated has the value of what takes its place.
pub proof fn propagated_copies_have_equal_values<T: Target>(
    ssa: SsaView<T>,
    env: spec_fn(SsaVarId) -> u64,
    d: usize,
)
    requires
        ssa.copies_hold(env),
        ssa.resolved_copies().contains_key(d),
    ensures
        env(SsaVarId(d)) == env(SsaVarId(ssa.resolved_copies()[d])),
{
    let kept = ssa.without_early_reads(ssa.without_sole_defs(ssa.copies()));
    assert forall|k: usize| #[trigger] kept.contains_key(k) implies env(SsaVarId(k)) == env(
        SsaVarId(kept[k]),
    ) by {
        lemma_copy_value(ssa, env, k);
    }
    let n = choose|n: nat| utils::ends_at(kept, kept[d], n);
    lemma_walk_value(kept, env, kept[d], n);
    assert(kept.contains_key(d));
}

} // verus!
