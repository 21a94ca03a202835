//! Definitions and use counts of variables.
use crate::ir::block::BlockView;
use crate::ir::function;
use crate::ir::function::{SsaFunction, SsaView};
use crate::ir::ops::{OpView, SsaOp};
use crate::ir::variable::{SsaVarId, UseSite};
use crate::target::Target;
use vstd::prelude::*;

verus! {

/// The last of the first `n` instructions that defines `v`.
pub open spec fn last_def_in<T: Target>(instrs: Seq<OpView<T>>, v: SsaVarId, n: nat) -> Option<int>
    decreases n,
{
    if n == 0 {
        None
    } else if instrs[n - 1].defs().contains(v) {
        Some(n - 1)
    } else {
        last_def_in(instrs, v, (n - 1) as nat)
    }
}

/// The last instruction of the first `n` blocks that defines `v`.
pub open spec fn last_def<T: Target>(blocks: Seq<BlockView<T>>, v: SsaVarId, n: nat) -> Option<
    (int, int),
>
    decreases n,
{
    if n == 0 {
        None
    } else {
        match last_def_in(blocks[n - 1].instrs, v, blocks[n - 1].instrs.len()) {
            Some(i) => Some((n - 1, i)),
            None => last_def(blocks, v, (n - 1) as nat),
        }
    }
}

impl<T: Target> SsaView<T> {
    /// Where an instruction defines `v`: the last such place in program order.
    pub open spec fn definition(self, v: SsaVarId) -> Option<(int, int)> {
        if v.0 < self.vars.len() {
            last_def(self.blocks, v, self.blocks.len())
        } else {
            None
        }
    }

    /// The operation that defines `v`.
    pub open spec fn def_op(self, v: SsaVarId) -> Option<OpView<T>> {
        match self.definition(v) {
            Some((b, i)) => Some(self.blocks[b].instrs[i]),
            None => None,
        }
    }

    /// How often `v` is read.
    pub open spec fn use_count(self, v: SsaVarId) -> nat {
        function::block_sites(self.blocks, v, self.blocks.len()).len()
    }
}

/// What is found at `last_def` lies in the blocks and defines the variable.
pub proof fn lemma_last_def<T: Target>(blocks: Seq<BlockView<T>>, v: SsaVarId, n: nat)
    requires
        n <= blocks.len(),
    ensures
        last_def(blocks, v, n) matches Some((b, i)) ==> 0 <= b < n && 0 <= i
            < blocks[b].instrs.len() && blocks[b].instrs[i].defs().contains(v),
        last_def(blocks, v, n) is None ==> forall|b: int, i: int|
            0 <= b < n && 0 <= i < blocks[b].instrs.len()
                ==> !(#[trigger] blocks[b].instrs[i]).defs().contains(v),
    decreases n,
{
    if n > 0 {
        let instrs = blocks[n - 1].instrs;
        lemma_last_def_in(instrs, v, instrs.len());
        lemma_last_def(blocks, v, (n - 1) as nat);
    }
}

proof fn lemma_last_def_in<T: Target>(instrs: Seq<OpView<T>>, v: SsaVarId, n: nat)
    requires
        n <= instrs.len(),
    ensures
        last_def_in(instrs, v, n) matches Some(i) ==> 0 <= i < n && instrs[i].defs().contains(v),
        last_def_in(instrs, v, n) is None ==> forall|i: int|
            0 <= i < n ==> !(#[trigger] instrs[i]).defs().contains(v),
    decreases n,
{
    if n > 0 {
        lemma_last_def_in(instrs, v, (n - 1) as nat);
    }
}

/// A pair of indices as integers.
pub open spec fn place(p: Option<(usize, usize)>) -> Option<(int, int)> {
    match p {
        Some((b, i)) => Some((b as int, i as int)),
        None => None,
    }
}

/// `n`, or the largest index where `n` exceeds it.
pub open spec fn clamped(n: nat) -> usize {
    if n <= usize::MAX {
        n as usize
    } else {
        usize::MAX
    }
}

/// For each variable, where it is defined and how often it is read.
pub struct DefUseIndex {
    pub defs: Vec<Option<(usize, usize)>>,
    pub counts: Vec<usize>,
}

impl DefUseIndex {
    /// The index describes the function.
    pub open spec fn describes<T: Target>(&self, ssa: SsaView<T>) -> bool {
        &&& self.defs@.len() == ssa.vars.len()
        &&& self.counts@.len() == ssa.vars.len()
        &&& ssa.vars.len() <= usize::MAX
        &&& forall|v: usize|
            v < ssa.vars.len() ==> place(#[trigger] self.defs@[v as int]) == ssa.definition(
                SsaVarId(v),
            )
        &&& forall|v: usize|
            v < ssa.vars.len() ==> #[trigger] self.counts@[v as int] == clamped(
                ssa.use_count(SsaVarId(v)),
            )
    }

    /// Builds the index of a function.
    #[must_use]
    pub fn build<T: Target>(ssa: &SsaFunction<T>) -> (r: Self)
        ensures
            r.describes(ssa@),
    {
        DefUseIndex { defs: collect_defs(ssa), counts: collect_counts(ssa) }
    }

    /// Returns where `v` is defined.
    #[must_use]
    pub fn full_definition<T: Target>(&self, ssa: &SsaFunction<T>, v: SsaVarId) -> (r: Option<
        (usize, usize),
    >)
        requires
            self.describes(ssa@),
        ensures
            place(r) == ssa@.definition(v),
            r matches Some((b, i)) ==> ssa@.has_instr(b as int, i as int)
                && ssa@.blocks[b as int].instrs[i as int].defs().contains(v)
                && ssa@.def_op(v) == Some(ssa@.blocks[b as int].instrs[i as int]),
    {
        proof {
            lemma_last_def(ssa@.blocks, v, ssa@.blocks.len());
        }
        if v.0 < self.defs.len() {
            assert(place(self.defs@[v.0 as int]) == ssa@.definition(SsaVarId(v.0)));
            self.defs[v.0]
        } else {
            None
        }
    }

    /// Returns the operation that defines `v`.
    #[must_use]
    pub fn def_op<'a, T: Target>(&self, ssa: &'a SsaFunction<T>, v: SsaVarId) -> (r: Option<
        &'a SsaOp<T>,
    >)
        requires
            self.describes(ssa@),
        ensures
            r is Some <==> ssa@.def_op(v) is Some,
            r matches Some(op) ==> ssa@.def_op(v) == Some(op@),
    {
        match self.full_definition(ssa, v) {
            Some((b, i)) => Some(ssa.blocks[b].instrs[i].op()),
            None => None,
        }
    }

    /// Returns how often `v` is read.
    #[must_use]
    pub fn use_count<T: Target>(&self, ssa: &SsaFunction<T>, v: SsaVarId) -> (r: usize)
        requires
            self.describes(ssa@),
            v.0 < ssa@.vars.len(),
        ensures
            r == clamped(ssa@.use_count(v)),
    {
        assert(self.counts@[v.0 as int] == clamped(ssa@.use_count(SsaVarId(v.0))));
        self.counts[v.0]
    }
}

/// Finds the definition of every variable.
fn collect_defs<T: Target>(ssa: &SsaFunction<T>) -> (r: Vec<Option<(usize, usize)>>)
    ensures
        r@.len() == ssa@.vars.len(),
        ssa@.vars.len() <= usize::MAX,
        forall|v: usize|
            v < ssa@.vars.len() ==> place(#[trigger] r@[v as int]) == ssa@.definition(SsaVarId(v)),
{
    let n: usize = ssa.variables.len();
    let mut r: Vec<Option<(usize, usize)>> = Vec::new();
    let mut k: usize = 0;
    while k < n
        invariant
            k <= n,
            r@.len() == k,
            forall|v: int| 0 <= v < k ==> #[trigger] r@[v] == None::<(usize, usize)>,
        decreases n - k,
    {
        r.push(None);
        k = k + 1;
    }
    let ghost blocks = ssa@.blocks;
    let mut b: usize = 0;
    while b < ssa.blocks.len()
        invariant
            b <= ssa.blocks@.len(),
            blocks == ssa@.blocks,
            n == ssa@.vars.len(),
            r@.len() == n,
            forall|v: usize|
                v < n ==> place(#[trigger] r@[v as int]) == last_def(
                    blocks,
                    SsaVarId(v),
                    b as nat,
                ),
        decreases ssa.blocks@.len() - b,
    {
        let ghost before = r@;
        let ghost instrs = blocks[b as int].instrs;
        let mut i: usize = 0;
        while i < ssa.blocks[b].instrs.len()
            invariant
                b < ssa.blocks@.len(),
                blocks == ssa@.blocks,
                instrs == blocks[b as int].instrs,
                i <= instrs.len(),
                n == ssa@.vars.len(),
                r@.len() == n,
                before.len() == n,
                forall|v: usize|
                    v < n ==> place(#[trigger] r@[v as int]) == (match last_def_in(
                        instrs,
                        SsaVarId(v),
                        i as nat,
                    ) {
                        Some(j) => Some((b as int, j)),
                        None => place(before[v as int]),
                    }),
            decreases instrs.len() - i,
        {
            let defs: Vec<SsaVarId> = ssa.blocks[b].instrs[i].op.defs();
            assert(defs@ == instrs[i as int].defs());
            let ghost mid = r@;
            let mut d: usize = 0;
            while d < defs.len()
                invariant
                    d <= defs@.len(),
                    r@.len() == n,
                    mid.len() == n,
                    forall|v: usize|
                        v < n ==> #[trigger] r@[v as int] == (if defs@.take(d as int).contains(
                            SsaVarId(v),
                        ) {
                            Some((b, i))
                        } else {
                            mid[v as int]
                        }),
                decreases defs@.len() - d,
            {
                let ghost prev = r@;
                let var: SsaVarId = defs[d];
                if var.0 < n {
                    r.set(var.0, Some((b, i)));
                }
                proof {
                    let t = defs@.take(d as int);
                    let t2 = defs@.take(d + 1);
                    assert(t2[d as int] == var);
                    assert forall|v: usize| v < n implies #[trigger] r@[v as int] == (
                    if t2.contains(SsaVarId(v)) {
                        Some((b, i))
                    } else {
                        mid[v as int]
                    }) by {
                        assert(prev[v as int] == (if t.contains(SsaVarId(v)) {
                            Some((b, i))
                        } else {
                            mid[v as int]
                        }));
                        if t.contains(SsaVarId(v)) {
                            let k = choose|k: int| 0 <= k < t.len() && t[k] == SsaVarId(v);
                            assert(t2[k] == SsaVarId(v));
                        }
                        if t2.contains(SsaVarId(v)) && var != SsaVarId(v) {
                            let k = choose|k: int| 0 <= k < t2.len() && t2[k] == SsaVarId(v);
                            assert(t[k] == SsaVarId(v));
                        }
                    }
                }
                d = d + 1;
            }
            assert(defs@.take(defs@.len() as int) =~= defs@);
            i = i + 1;
            assert forall|v: usize| v < n implies place(#[trigger] r@[v as int]) == (
            match last_def_in(instrs, SsaVarId(v), i as nat) {
                Some(j) => Some((b as int, j)),
                None => place(before[v as int]),
            }) by {
                assert(place(mid[v as int]) == (match last_def_in(
                    instrs,
                    SsaVarId(v),
                    (i - 1) as nat,
                ) {
                    Some(j) => Some((b as int, j)),
                    None => place(before[v as int]),
                }));
            }
        }
        b = b + 1;
        assert forall|v: usize| v < n implies place(#[trigger] r@[v as int]) == last_def(
            blocks,
            SsaVarId(v),
            b as nat,
        ) by {
            assert(place(before[v as int]) == last_def(blocks, SsaVarId(v), (b - 1) as nat));
        }
    }
    r
}

/// Adds `n` clamped to a clamped count.
proof fn lemma_clamped_step(m: nat)
    ensures
        clamped(m + 1) == (if clamped(m) == usize::MAX {
            usize::MAX
        } else {
            (clamped(m) + 1) as usize
        }),
{
}

/// Counts one more use of `var`.
fn count_use(counts: &mut Vec<usize>, var: SsaVarId)
    ensures
        final(counts)@.len() == old(counts)@.len(),
        forall|v: usize|
            v < old(counts)@.len() ==> #[trigger] final(counts)@[v as int] == (if v == var.0 {
                if old(counts)@[v as int] == usize::MAX {
                    usize::MAX
                } else {
                    (old(counts)@[v as int] + 1) as usize
                }
            } else {
                old(counts)@[v as int]
            }),
{
    if var.0 < counts.len() {
        let c: usize = counts[var.0];
        if c < usize::MAX {
            counts.set(var.0, c + 1);
        }
    }
}

/// Counts the entries of `reads`.
fn count_reads(counts: &mut Vec<usize>, reads: &Vec<SsaVarId>, site: UseSite)
    ensures
        final(counts)@.len() == old(counts)@.len(),
        forall|v: usize, m: nat|
            #![trigger final(counts)@[v as int], clamped(m)]
            v < old(counts)@.len() && old(counts)@[v as int] == clamped(m) ==>
            final(counts)@[v as int] == clamped(
                m + function::read_sites(reads@, SsaVarId(v), site, reads@.len()).len(),
            ),
{
    let mut k: usize = 0;
    while k < reads.len()
        invariant
            k <= reads@.len(),
            counts@.len() == old(counts)@.len(),
            forall|v: usize, m: nat|
                #![trigger counts@[v as int], clamped(m)]
                v < counts@.len() && old(counts)@[v as int] == clamped(m) ==> counts@[v as int]
                    == clamped(
                    m + function::read_sites(reads@, SsaVarId(v), site, k as nat).len(),
                ),
        decreases reads@.len() - k,
    {
        let ghost mid = counts@;
        count_use(counts, reads[k]);
        k = k + 1;
        assert forall|v: usize, m: nat|
            #![trigger counts@[v as int], clamped(m)]
            v < counts@.len() && old(counts)@[v as int] == clamped(m) implies counts@[v as int]
            == clamped(m + function::read_sites(reads@, SsaVarId(v), site, k as nat).len()) by {
            let before = m + function::read_sites(reads@, SsaVarId(v), site, (k - 1) as nat).len();
            assert(mid[v as int] == clamped(before));
            lemma_clamped_step(before);
        }
    }
}

/// Counts the uses of every variable.
fn collect_counts<T: Target>(ssa: &SsaFunction<T>) -> (r: Vec<usize>)
    ensures
        r@.len() == ssa@.vars.len(),
        forall|v: usize|
            v < ssa@.vars.len() ==> #[trigger] r@[v as int] == clamped(
                ssa@.use_count(SsaVarId(v)),
            ),
{
    let n: usize = ssa.variables.len();
    let mut r: Vec<usize> = Vec::new();
    let mut k: usize = 0;
    while k < n
        invariant
            k <= n,
            r@.len() == k,
            forall|v: int| 0 <= v < k ==> #[trigger] r@[v] == 0,
        decreases n - k,
    {
        r.push(0);
        k = k + 1;
    }
    let ghost blocks = ssa@.blocks;
    let mut b: usize = 0;
    while b < ssa.blocks.len()
        invariant
            b <= ssa.blocks@.len(),
            blocks == ssa@.blocks,
            n == ssa@.vars.len(),
            r@.len() == n,
            forall|v: usize|
                v < n ==> #[trigger] r@[v as int] == clamped(
                    function::block_sites(blocks, SsaVarId(v), b as nat).len(),
                ),
        decreases ssa.blocks@.len() - b,
    {
        let ghost phis = blocks[b as int].phis;
        let ghost instrs = blocks[b as int].instrs;
        let mut p: usize = 0;
        while p < ssa.blocks[b].phis.len()
            invariant
                b < ssa.blocks@.len(),
                blocks == ssa@.blocks,
                phis == blocks[b as int].phis,
                p <= phis.len(),
                n == ssa@.vars.len(),
                r@.len() == n,
                forall|v: usize|
                    v < n ==> #[trigger] r@[v as int] == clamped(
                        function::block_sites(blocks, SsaVarId(v), b as nat).len()
                            + function::phi_sites(phis, b, SsaVarId(v), p as nat).len(),
                    ),
            decreases phis.len() - p,
        {
            let site: UseSite = UseSite { block: b, instruction: p, is_phi_operand: true };
            let mut values: Vec<SsaVarId> = Vec::new();
            let mut k: usize = 0;
            let phi = &ssa.blocks[b].phis[p];
            assert(phi@ == phis[p as int]);
            while k < phi.operands.len()
                invariant
                    k <= phi.operands@.len(),
                    values@ =~= phi@.values().take(k as int),
                decreases phi.operands@.len() - k,
            {
                values.push(phi.operands[k].value);
                k = k + 1;
            }
            assert(values@ =~= phis[p as int].values());
            let ghost mid = r@;
            count_reads(&mut r, &values, site);
            p = p + 1;
            assert forall|v: usize| v < n implies #[trigger] r@[v as int] == clamped(
                function::block_sites(blocks, SsaVarId(v), b as nat).len() + function::phi_sites(
                    phis,
                    b,
                    SsaVarId(v),
                    p as nat,
                ).len(),
            ) by {
                let m = function::block_sites(blocks, SsaVarId(v), b as nat).len()
                    + function::phi_sites(phis, b, SsaVarId(v), (p - 1) as nat).len();
                assert(mid[v as int] == clamped(m));
            }
        }
        let mut i: usize = 0;
        while i < ssa.blocks[b].instrs.len()
            invariant
                b < ssa.blocks@.len(),
                blocks == ssa@.blocks,
                phis == blocks[b as int].phis,
                instrs == blocks[b as int].instrs,
                i <= instrs.len(),
                n == ssa@.vars.len(),
                r@.len() == n,
                forall|v: usize|
                    v < n ==> #[trigger] r@[v as int] == clamped(
                        function::block_sites(blocks, SsaVarId(v), b as nat).len()
                            + function::phi_sites(phis, b, SsaVarId(v), phis.len()).len()
                            + function::instr_sites(instrs, b, SsaVarId(v), i as nat).len(),
                    ),
            decreases instrs.len() - i,
        {
            let site: UseSite = UseSite { block: b, instruction: i, is_phi_operand: false };
            let reads: Vec<SsaVarId> = ssa.blocks[b].instrs[i].op.uses();
            assert(reads@ == instrs[i as int].uses());
            let ghost mid = r@;
            count_reads(&mut r, &reads, site);
            i = i + 1;
            assert forall|v: usize| v < n implies #[trigger] r@[v as int] == clamped(
                function::block_sites(blocks, SsaVarId(v), b as nat).len() + function::phi_sites(
                    phis,
                    b,
                    SsaVarId(v),
                    phis.len(),
                ).len() + function::instr_sites(instrs, b, SsaVarId(v), i as nat).len(),
            ) by {
                let m = function::block_sites(blocks, SsaVarId(v), b as nat).len()
                    + function::phi_sites(phis, b, SsaVarId(v), phis.len()).len()
                    + function::instr_sites(instrs, b, SsaVarId(v), (i - 1) as nat).len();
                assert(mid[v as int] == clamped(m));
            }
        }
        b = b + 1;
    }
    r
}

/// The place found for a variable defines it; where none is found, no instruction defines it.
pub proof fn definition_is_some_def<T: Target>(ssa: SsaView<T>, v: SsaVarId)
    requires
        v.0 < ssa.vars.len(),
    ensures
        match ssa.definition(v) {
            Some((b, i)) => ssa.has_instr(b, i) && ssa.blocks[b].instrs[i].defs().contains(v),
            None => forall|b: int, i: int|
                ssa.has_instr(b, i) ==> !(#[trigger] ssa.blocks[b].instrs[i]).defs().contains(v),
        },
{
    lemma_last_def(ssa.blocks, v, ssa.blocks.len());
}

} // verus!
