//! What is wrong with a function that is not well-formed.
use crate::analysis::assignments;
use crate::ir::block::SsaBlock;
use crate::ir::edit;
use crate::ir::function::{SsaFunction, SsaView};
use crate::ir::variable::SsaVarId;
use crate::seqs;
use crate::target::Target;
use crate::text;
use vstd::prelude::*;
use vstd::string::StringExecFns;

verus! {

/// Something that is wrong with a function.
#[derive(Debug, Clone, Copy, PartialEq, Eq, Structural)]
pub enum Defect {
    /// The block at this index carries another number.
    Misnumbered { block: usize },
    /// A phi node mentions a block or a variable that the function does not have.
    ForeignPhi { block: usize, phi: usize },
    /// An instruction mentions a block or a variable that the function does not have.
    ForeignInstruction { block: usize, instruction: usize },
    /// The variable is assigned in two places.
    AssignedTwice { var: SsaVarId },
}

/// The variable is assigned by two of the entries.
pub open spec fn is_repeated(defs: Seq<SsaVarId>, v: SsaVarId) -> bool {
    exists|i: int, j: int| 0 <= i < j < defs.len() && #[trigger] defs[i] == v && #[trigger] defs[j] == v
}

impl Defect {
    /// What is wrong, in words.
    pub open spec fn description(self) -> Seq<char> {
        match self {
            Defect::Misnumbered { block } => "block "@ + text::decimal(block as nat)
                + " carries another number"@,
            Defect::ForeignPhi { block, phi } => "phi "@ + text::decimal(phi as nat) + " of block "@
                + text::decimal(block as nat) + " is out of range"@,
            Defect::ForeignInstruction { block, instruction } => "instruction "@ + text::decimal(
                instruction as nat,
            ) + " of block "@ + text::decimal(block as nat) + " is out of range"@,
            Defect::AssignedTwice { var } => text::var_name(var) + " is assigned twice"@,
        }
    }

    /// Says in words what is wrong.
    #[must_use]
    pub fn describe(self) -> (r: String)
        ensures
            r@ == self.description(),
    {
        match self {
            Defect::Misnumbered { block } => {
                let mut r: String = String::from_str("block ");
                text::push_number(&mut r, block);
                r.append(" carries another number");
                r
            },
            Defect::ForeignPhi { block, phi } => {
                let mut r: String = String::from_str("phi ");
                text::push_number(&mut r, phi);
                r.append(" of block ");
                text::push_number(&mut r, block);
                r.append(" is out of range");
                r
            },
            Defect::ForeignInstruction { block, instruction } => {
                let mut r: String = String::from_str("instruction ");
                text::push_number(&mut r, instruction);
                r.append(" of block ");
                text::push_number(&mut r, block);
                r.append(" is out of range");
                r
            },
            Defect::AssignedTwice { var } => {
                let mut r: String = String::from_str("");
                proof {
                    reveal_strlit("");
                }
                text::push_var(&mut r, var);
                r.append(" is assigned twice");
                assert(r@ =~= self.description());
                r
            },
        }
    }
}

/// The first `n` defects in words, with semicolons between them.
pub open spec fn defect_items(defects: Seq<Defect>, n: nat) -> Seq<char>
    decreases n,
{
    if n == 0 {
        Seq::empty()
    } else if n == 1 {
        defects[0].description()
    } else {
        defect_items(defects, (n - 1) as nat) + "; "@ + defects[n - 1].description()
    }
}

/// Says in words what is wrong, with semicolons in between.
#[must_use]
pub fn describe_all(defects: &Vec<Defect>) -> (r: String)
    ensures
        r@ == defect_items(defects@, defects@.len()),
{
    let mut r: String = String::from_str("");
    proof {
        reveal_strlit("");
    }
    assert(r@ =~= Seq::empty());
    let mut i: usize = 0;
    while i < defects.len()
        invariant
            i <= defects@.len(),
            r@ =~= defect_items(defects@, i as nat),
        decreases defects@.len() - i,
    {
        if i > 0 {
            r.append("; ");
        }
        let item: String = defects[i].describe();
        r.append(item.as_str());
        i = i + 1;
    }
    r
}

impl<T: Target> SsaView<T> {
    /// Block `b` is misnumbered.
    pub open spec fn number_defect(self, b: int) -> Seq<Defect> {
        if self.blocks[b].id == b {
            Seq::empty()
        } else {
            seq![Defect::Misnumbered { block: b as usize }]
        }
    }

    /// Phi node `p` of block `b` is out of range.
    pub open spec fn phi_defect(self, b: int) -> spec_fn(int) -> Seq<Defect> {
        |p: int|
            if self.phi_in_range(self.blocks[b].phis[p]) {
                Seq::empty()
            } else {
                seq![Defect::ForeignPhi { block: b as usize, phi: p as usize }]
            }
    }

    /// Instruction `i` of block `b` is out of range.
    pub open spec fn instr_defect(self, b: int) -> spec_fn(int) -> Seq<Defect> {
        |i: int|
            if self.op_in_range(self.blocks[b].instrs[i]) {
                Seq::empty()
            } else {
                seq![Defect::ForeignInstruction { block: b as usize, instruction: i as usize }]
            }
    }

    /// What is out of range in each block.
    pub open spec fn range_defects_in(self) -> spec_fn(int) -> Seq<Defect> {
        |b: int|
            self.number_defect(b) + seqs::flat(self.phi_defect(b), self.blocks[b].phis.len())
                + seqs::flat(self.instr_defect(b), self.blocks[b].instrs.len())
    }

    /// What is out of range in the function.
    pub open spec fn range_defects(self) -> Seq<Defect> {
        seqs::flat(self.range_defects_in(), self.blocks.len())
    }

    /// Variable `v` is assigned twice.
    pub open spec fn repeat_defect(self) -> spec_fn(int) -> Seq<Defect> {
        |v: int|
            if is_repeated(
                edit::block_defs(self.blocks, self.blocks.len()),
                SsaVarId(v as usize),
            ) {
                seq![Defect::AssignedTwice { var: SsaVarId(v as usize) }]
            } else {
                Seq::empty()
            }
    }

    /// Everything that is wrong with the function: what is out of range, block by block, and the
    /// variables that are assigned twice.
    pub open spec fn defects(self) -> Seq<Defect> {
        self.range_defects() + seqs::flat(self.repeat_defect(), self.vars.len())
    }
}

proof fn lemma_flat_nothing<A>(f: spec_fn(int) -> Seq<A>, n: nat)
    ensures
        seqs::flat(f, n).len() == 0 <==> forall|i: int| 0 <= i < n ==> (#[trigger] f(i)).len() == 0,
    decreases n,
{
    if n > 0 {
        lemma_flat_nothing(f, (n - 1) as nat);
        if seqs::flat(f, n).len() == 0 {
            assert forall|i: int| 0 <= i < n implies (#[trigger] f(i)).len() == 0 by {
                if i == n - 1 {
                    assert(f(n - 1).len() == 0);
                }
            }
        } else if forall|i: int| 0 <= i < n ==> (#[trigger] f(i)).len() == 0 {
            assert(f(n - 1).len() == 0);
        }
    }
}

/// Nothing is out of range in a function exactly where it mentions only its own blocks and
/// variables.
pub proof fn range_defects_are_all<T: Target>(ssa: SsaView<T>)
    ensures
        ssa.range_defects().len() == 0 <==> forall|b: int|
            0 <= b < ssa.blocks.len() ==> #[trigger] ssa.block_in_range(b),
{
    let f = ssa.range_defects_in();
    lemma_flat_nothing(f, ssa.blocks.len());
    assert forall|b: int| 0 <= b < ssa.blocks.len() implies #[trigger] ssa.block_in_range(b) == (f(
        b,
    ).len() == 0) by {
        let block = ssa.blocks[b];
        let phi = ssa.phi_defect(b);
        let instr = ssa.instr_defect(b);
        lemma_flat_nothing(phi, block.phis.len());
        lemma_flat_nothing(instr, block.instrs.len());
        if f(b).len() == 0 {
            assert forall|p: int| 0 <= p < block.phis.len() implies ssa.phi_in_range(
                #[trigger] ssa.blocks[b].phis[p],
            ) by {
                assert(phi(p).len() == 0);
            }
            assert forall|i: int| 0 <= i < block.instrs.len() implies ssa.op_in_range(
                #[trigger] ssa.blocks[b].instrs[i],
            ) by {
                assert(instr(i).len() == 0);
            }
        }
        if ssa.block_in_range(b) {
            assert forall|p: int| 0 <= p < block.phis.len() implies (#[trigger] phi(p)).len()
                == 0 by {
                assert(ssa.phi_in_range(ssa.blocks[b].phis[p]));
            }
            assert forall|i: int| 0 <= i < block.instrs.len() implies (#[trigger] instr(i)).len()
                == 0 by {
                assert(ssa.op_in_range(ssa.blocks[b].instrs[i]));
            }
        }
    }
    if ssa.range_defects().len() == 0 {
        assert forall|b: int| 0 <= b < ssa.blocks.len() implies #[trigger] ssa.block_in_range(b) by {
            assert(f(b).len() == 0);
        }
    }
    if forall|b: int| 0 <= b < ssa.blocks.len() ==> #[trigger] ssa.block_in_range(b) {
        assert forall|b: int| 0 <= b < ssa.blocks.len() implies (#[trigger] f(b)).len() == 0 by {
            assert(ssa.block_in_range(b));
        }
    }
}

/// Nothing is wrong with a function exactly where it is well-formed.
pub proof fn defects_are_all<T: Target>(ssa: SsaView<T>)
    requires
        ssa.vars.len() <= usize::MAX,
    ensures
        ssa.defects().len() == 0 <==> ssa.well_formed(),
{
    range_defects_are_all(ssa);
    let defs = edit::block_defs(ssa.blocks, ssa.blocks.len());
    let f = ssa.repeat_defect();
    lemma_flat_nothing(f, ssa.vars.len());
    if ssa.defects().len() == 0 {
        assert(defs.no_duplicates()) by {
            assert forall|i: int, j: int|
                0 <= i < defs.len() && 0 <= j < defs.len() && i != j implies defs[i] != defs[j] by {
                if defs[i] == defs[j] {
                    let v = defs[i];
                    assignments::assigned_variables_are_in_range(ssa, i);
                    assert(v.0 < ssa.vars.len());
                    if i < j {
                        assert(is_repeated(defs, v));
                    } else {
                        assert(defs[j] == v && defs[i] == v);
                        assert(is_repeated(defs, v));
                    }
                    assert(SsaVarId((v.0 as int) as usize) == v);
                    assert(f(v.0 as int).len() == 1);
                }
            }
        }
    }
    if ssa.well_formed() {
        assert forall|v: int| 0 <= v < ssa.vars.len() implies (#[trigger] f(v)).len() == 0 by {
            let w = SsaVarId(v as usize);
            if is_repeated(defs, w) {
                let (i, j) = choose|i: int, j: int|
                    0 <= i < j < defs.len() && #[trigger] defs[i] == w && #[trigger] defs[j] == w;
                assert(defs[i] == defs[j]);
            }
        }
    }
}

impl<T: Target> SsaFunction<T> {
    /// Finds what is out of range in the function.
    #[must_use]
    pub fn find_range_defects(&self) -> (r: Vec<Defect>)
        ensures
            r@ == self@.range_defects(),
    {
        let ghost f = self@.range_defects_in();
        let mut r: Vec<Defect> = Vec::new();
        let mut b: usize = 0;
        while b < self.blocks.len()
            invariant
                f == self@.range_defects_in(),
                b <= self@.blocks.len(),
                r@ == seqs::flat(f, b as nat),
            decreases self@.blocks.len() - b,
        {
            let ghost before = r@;
            let block: &SsaBlock<T> = &self.blocks[b];
            let ghost view = self@.blocks[b as int];
            assert(block@ == view);
            if block.id != b {
                r.push(Defect::Misnumbered { block: b });
            }
            assert(r@ =~= before + self@.number_defect(b as int));
            let ghost numbered = r@;
            let ghost phi = self@.phi_defect(b as int);
            assert(numbered + seqs::flat(phi, 0) =~= numbered);
            let mut p: usize = 0;
            while p < block.phis.len()
                invariant
                    b < self@.blocks.len(),
                    block@ == view,
                    view == self@.blocks[b as int],
                    phi == self@.phi_defect(b as int),
                    p <= view.phis.len(),
                    r@ == numbered + seqs::flat(phi, p as nat),
                decreases view.phis.len() - p,
            {
                assert(block.phis@[p as int]@ == view.phis[p as int]);
                let ghost sofar = r@;
                if !self.check_phi(&block.phis[p]) {
                    r.push(Defect::ForeignPhi { block: b, phi: p });
                }
                assert(r@ =~= sofar + phi(p as int));
                assert(r@ =~= numbered + seqs::flat(phi, (p + 1) as nat));
                p = p + 1;
            }
            let ghost middle = r@;
            let ghost instr = self@.instr_defect(b as int);
            assert(middle + seqs::flat(instr, 0) =~= middle);
            let mut i: usize = 0;
            while i < block.instrs.len()
                invariant
                    b < self@.blocks.len(),
                    block@ == view,
                    view == self@.blocks[b as int],
                    instr == self@.instr_defect(b as int),
                    i <= view.instrs.len(),
                    r@ == middle + seqs::flat(instr, i as nat),
                decreases view.instrs.len() - i,
            {
                assert(block.instrs@[i as int]@ == view.instrs[i as int]);
                let ghost sofar = r@;
                if !self.check_op(&block.instrs[i].op) {
                    r.push(Defect::ForeignInstruction { block: b, instruction: i });
                }
                assert(r@ =~= sofar + instr(i as int));
                assert(r@ =~= middle + seqs::flat(instr, (i + 1) as nat));
                i = i + 1;
            }
            assert(r@ =~= before + f(b as int));
            b = b + 1;
        }
        r
    }

    /// Returns everything that the function assigns, in program order.
    #[must_use]
    pub fn assigned(&self) -> (r: Vec<SsaVarId>)
        ensures
            r@ == edit::block_defs(self@.blocks, self@.blocks.len()),
    {
        let mut r: Vec<SsaVarId> = Vec::new();
        let mut b: usize = 0;
        while b < self.blocks.len()
            invariant
                b <= self@.blocks.len(),
                r@ == edit::block_defs(self@.blocks, b as nat),
            decreases self@.blocks.len() - b,
        {
            let ghost before = r@;
            let block: &SsaBlock<T> = &self.blocks[b];
            let ghost view = self@.blocks[b as int];
            assert(block@ == view);
            assert(before + edit::phi_defs(view.phis, 0) =~= before);
            let mut p: usize = 0;
            while p < block.phis.len()
                invariant
                    block@ == view,
                    p <= view.phis.len(),
                    r@ == before + edit::phi_defs(view.phis, p as nat),
                decreases view.phis.len() - p,
            {
                assert(block.phis@[p as int]@ == view.phis[p as int]);
                r.push(block.phis[p].result);
                assert(r@ =~= before + edit::phi_defs(view.phis, (p + 1) as nat));
                p = p + 1;
            }
            let ghost middle = r@;
            assert(middle + edit::instr_defs(view.instrs, 0) =~= middle);
            let mut i: usize = 0;
            while i < block.instrs.len()
                invariant
                    block@ == view,
                    i <= view.instrs.len(),
                    r@ == middle + edit::instr_defs(view.instrs, i as nat),
                decreases view.instrs.len() - i,
            {
                assert(block.instrs@[i as int]@ == view.instrs[i as int]);
                let mut defs: Vec<SsaVarId> = block.instrs[i].op.defs();
                r.append(&mut defs);
                assert(r@ =~= middle + edit::instr_defs(view.instrs, (i + 1) as nat));
                i = i + 1;
            }
            assert(r@ =~= edit::block_defs(self@.blocks, (b + 1) as nat));
            b = b + 1;
        }
        r
    }

    /// Returns for each variable whether it is assigned twice.
    #[must_use]
    pub fn find_repeated(&self) -> (r: Vec<bool>)
        ensures
            r@.len() == self@.vars.len(),
            forall|v: int|
                0 <= v < r@.len() ==> #[trigger] r@[v] == is_repeated(
                    edit::block_defs(self@.blocks, self@.blocks.len()),
                    SsaVarId(v as usize),
                ),
    {
        let defs: Vec<SsaVarId> = self.assigned();
        let n: usize = self.variables.len();
        let mut seen: Vec<bool> = Vec::new();
        let mut repeated: Vec<bool> = Vec::new();
        let mut k: usize = 0;
        while k < n
            invariant
                k <= n,
                seen@.len() == k,
                repeated@.len() == k,
                forall|j: int| 0 <= j < k ==> !#[trigger] seen@[j],
                forall|j: int| 0 <= j < k ==> !#[trigger] repeated@[j],
            decreases n - k,
        {
            seen.push(false);
            repeated.push(false);
            k = k + 1;
        }
        assert forall|v: int| 0 <= v < n implies #[trigger] seen@[v] == defs@.take(0).contains(
            SsaVarId(v as usize),
        ) && repeated@[v] == is_repeated(defs@.take(0), SsaVarId(v as usize)) by {}
        let mut i: usize = 0;
        while i < defs.len()
            invariant
                seen@.len() == n,
                repeated@.len() == n,
                i <= defs@.len(),
                forall|v: int|
                    0 <= v < n ==> #[trigger] seen@[v] == defs@.take(i as int).contains(
                        SsaVarId(v as usize),
                    ),
                forall|v: int|
                    0 <= v < n ==> #[trigger] repeated@[v] == is_repeated(
                        defs@.take(i as int),
                        SsaVarId(v as usize),
                    ),
            decreases defs@.len() - i,
        {
            let d: usize = defs[i].0;
            let ghost sofar = defs@.take(i as int);
            let ghost more = defs@.take(i + 1);
            let ghost was_seen = seen@;
            let ghost was_repeated = repeated@;
            if d < n {
                if seen[d] {
                    repeated.set(d, true);
                }
                seen.set(d, true);
            }
            proof {
                assert forall|v: int| 0 <= v < n implies #[trigger] seen@[v] == more.contains(
                    SsaVarId(v as usize),
                ) by {
                    lemma_one_more(defs@, i as int, SsaVarId(v as usize));
                    assert(was_seen[v] == sofar.contains(SsaVarId(v as usize)));
                }
                assert forall|v: int| 0 <= v < n implies #[trigger] repeated@[v] == is_repeated(
                    more,
                    SsaVarId(v as usize),
                ) by {
                    lemma_one_more(defs@, i as int, SsaVarId(v as usize));
                    assert(was_seen[v] == sofar.contains(SsaVarId(v as usize)));
                    assert(was_repeated[v] == is_repeated(sofar, SsaVarId(v as usize)));
                }
            }
            i = i + 1;
        }
        assert(defs@.take(defs@.len() as int) =~= defs@);
        repeated
    }

    /// Finds everything that is wrong with the function.
    #[must_use]
    pub fn find_defects(&self) -> (r: Vec<Defect>)
        ensures
            r@ == self@.defects(),
            r@.len() == 0 <==> self@.well_formed(),
    {
        let mut r: Vec<Defect> = self.find_range_defects();
        let ghost before = r@;
        let repeated: Vec<bool> = self.find_repeated();
        let ghost f = self@.repeat_defect();
        assert(before + seqs::flat(f, 0) =~= before);
        let mut v: usize = 0;
        while v < repeated.len()
            invariant
                f == self@.repeat_defect(),
                repeated@.len() == self@.vars.len(),
                forall|v: int|
                    0 <= v < repeated@.len() ==> #[trigger] repeated@[v] == is_repeated(
                        edit::block_defs(self@.blocks, self@.blocks.len()),
                        SsaVarId(v as usize),
                    ),
                v <= repeated@.len(),
                r@ == before + seqs::flat(f, v as nat),
            decreases repeated@.len() - v,
        {
            let ghost sofar = r@;
            if repeated[v] {
                r.push(Defect::AssignedTwice { var: SsaVarId(v) });
            }
            assert(r@ =~= sofar + f(v as int));
            assert(r@ =~= before + seqs::flat(f, (v + 1) as nat));
            v = v + 1;
        }
        proof {
            assert(self@.vars.len() == self.variables@.len());
            defects_are_all(self@);
        }
        r
    }
}

proof fn lemma_one_more(defs: Seq<SsaVarId>, i: int, v: SsaVarId)
    requires
        0 <= i < defs.len(),
    ensures
        defs.take(i + 1).contains(v) == (defs.take(i).contains(v) || defs[i] == v),
        is_repeated(defs.take(i + 1), v) == (is_repeated(defs.take(i), v) || (defs[i] == v
            && defs.take(i).contains(v))),
{
    let sofar = defs.take(i);
    let more = defs.take(i + 1);
    assert(more[i] == defs[i]);
    if sofar.contains(v) {
        let k = choose|k: int| 0 <= k < sofar.len() && sofar[k] == v;
        assert(more[k] == v);
        if defs[i] == v {
            assert(more[k] == v && more[i] == v);
            assert(is_repeated(more, v));
        }
    }
    if more.contains(v) && defs[i] != v {
        let k = choose|k: int| 0 <= k < more.len() && more[k] == v;
        assert(sofar[k] == v);
    }
    if is_repeated(sofar, v) {
        let (a, b) = choose|a: int, b: int|
            0 <= a < b < sofar.len() && #[trigger] sofar[a] == v && #[trigger] sofar[b] == v;
        assert(more[a] == v && more[b] == v);
    }
    if is_repeated(more, v) {
        let (a, b) = choose|a: int, b: int|
            0 <= a < b < more.len() && #[trigger] more[a] == v && #[trigger] more[b] == v;
        assert(sofar[a] == v);
        if b < i {
            assert(sofar[b] == v);
        }
    }
}

} // verus!
