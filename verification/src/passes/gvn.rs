//! Global value numbering: what is computed a second time is taken from where it was computed first.
use crate::analysis::meaning;
use crate::analysis::loops::{compute_dominators, Dominators};
use crate::events::{EventKind, EventLog, EventView};
use crate::ir::block::SsaBlock;
use crate::ir::function::{SsaFunction, SsaView};
use crate::ir::ops::{Op, OpView, SsaOp};
use crate::ir::variable::SsaVarId;
use crate::passes::deadcode;
use crate::passes::threading::{check_no_instr_reads, check_no_phi_reads};
use crate::seqs;
use crate::target::Target;
use crate::text;
use vstd::prelude::*;
use vstd::string::StringExecFns;

verus! {

/// Kind of an operation on two variables.
#[derive(Debug, Clone, Copy, PartialEq, Eq, Hash, Structural)]
pub enum BinaryOpKind {
    Add,
    Sub,
    Mul,
    Div,
    Rem,
    And,
    Or,
    Xor,
    Shl,
    Shr,
    Ceq,
    Clt,
    Cgt,
}

impl BinaryOpKind {
    /// The order of the two variables does not matter.
    pub open spec fn commutes(self) -> bool {
        self is Add || self is Mul || self is And || self is Or || self is Xor || self is Ceq
    }

    /// Returns whether the order of the two variables does not matter.
    #[must_use]
    pub fn is_commutative(self) -> (r: bool)
        ensures
            r == self.commutes(),
    {
        match self {
            BinaryOpKind::Add => true,
            BinaryOpKind::Mul => true,
            BinaryOpKind::And => true,
            BinaryOpKind::Or => true,
            BinaryOpKind::Xor => true,
            BinaryOpKind::Ceq => true,
            _ => false,
        }
    }
}

/// Kind of an operation on one variable.
#[derive(Debug, Clone, Copy, PartialEq, Eq, Hash, Structural)]
pub enum UnaryOpKind {
    Neg,
    Not,
}

/// What an operation computes: two operations with the same key compute the same value.
#[derive(Debug, Clone, Copy, PartialEq, Eq, Hash, Structural)]
pub enum ValueKey {
    /// Kind, whether the operands are unsigned, and the operands.
    Binary(BinaryOpKind, bool, SsaVarId, SsaVarId),
    /// Kind and operand.
    Unary(UnaryOpKind, SsaVarId),
    /// Index of the argument.
    LoadArg(usize),
}

/// The key of an operation on two variables: where their order does not matter, the lower comes
/// first.
pub open spec fn binary_key(
    kind: BinaryOpKind,
    unsigned: bool,
    left: SsaVarId,
    right: SsaVarId,
) -> ValueKey {
    if kind.commutes() && left.0 > right.0 {
        ValueKey::Binary(kind, unsigned, right, left)
    } else {
        ValueKey::Binary(kind, unsigned, left, right)
    }
}

/// The key of an operation, with the variable that it defines.
pub open spec fn key_of<T: Target, B, A>(op: Op<T, B, A>) -> Option<(ValueKey, SsaVarId)> {
    match op {
        Op::Add { dest, left, right, .. } => Some(
            (binary_key(BinaryOpKind::Add, false, left, right), dest),
        ),
        Op::Sub { dest, left, right, .. } => Some(
            (binary_key(BinaryOpKind::Sub, false, left, right), dest),
        ),
        Op::Mul { dest, left, right, .. } => Some(
            (binary_key(BinaryOpKind::Mul, false, left, right), dest),
        ),
        Op::Div { dest, left, right, unsigned, .. } => Some(
            (binary_key(BinaryOpKind::Div, unsigned, left, right), dest),
        ),
        Op::Rem { dest, left, right, unsigned, .. } => Some(
            (binary_key(BinaryOpKind::Rem, unsigned, left, right), dest),
        ),
        Op::And { dest, left, right, .. } => Some(
            (binary_key(BinaryOpKind::And, false, left, right), dest),
        ),
        Op::Or { dest, left, right, .. } => Some(
            (binary_key(BinaryOpKind::Or, false, left, right), dest),
        ),
        Op::Xor { dest, left, right, .. } => Some(
            (binary_key(BinaryOpKind::Xor, false, left, right), dest),
        ),
        Op::Shl { dest, value, amount, .. } => Some(
            (binary_key(BinaryOpKind::Shl, false, value, amount), dest),
        ),
        Op::Shr { dest, value, amount, unsigned, .. } => Some(
            (binary_key(BinaryOpKind::Shr, unsigned, value, amount), dest),
        ),
        Op::Ceq { dest, left, right } => Some(
            (binary_key(BinaryOpKind::Ceq, false, left, right), dest),
        ),
        Op::Clt { dest, left, right, unsigned } => Some(
            (binary_key(BinaryOpKind::Clt, unsigned, left, right), dest),
        ),
        Op::Cgt { dest, left, right, unsigned } => Some(
            (binary_key(BinaryOpKind::Cgt, unsigned, left, right), dest),
        ),
        Op::Neg { dest, operand, .. } => Some((ValueKey::Unary(UnaryOpKind::Neg, operand), dest)),
        Op::Not { dest, operand, .. } => Some((ValueKey::Unary(UnaryOpKind::Not, operand), dest)),
        Op::LoadArg { dest, arg_index } => Some((ValueKey::LoadArg(arg_index as usize), dest)),
        _ => None,
    }
}

impl ValueKey {
    /// Returns the key of an operation on two variables.
    fn binary(kind: BinaryOpKind, unsigned: bool, left: SsaVarId, right: SsaVarId) -> (r: Self)
        ensures
            r == binary_key(kind, unsigned, left, right),
    {
        if kind.is_commutative() && left.0 > right.0 {
            ValueKey::Binary(kind, unsigned, right, left)
        } else {
            ValueKey::Binary(kind, unsigned, left, right)
        }
    }

    /// Returns the key of an operation, with the variable that it defines.
    ///
    /// An operation that can fail for its result alone, or that does more than compute, has none.
    #[must_use]
    pub fn from_op<T: Target>(op: &SsaOp<T>) -> (r: Option<(Self, SsaVarId)>)
        ensures
            r == key_of(op@),
    {
        match op {
            Op::Add { dest, left, right, .. } => Some(
                (Self::binary(BinaryOpKind::Add, false, *left, *right), *dest),
            ),
            Op::Sub { dest, left, right, .. } => Some(
                (Self::binary(BinaryOpKind::Sub, false, *left, *right), *dest),
            ),
            Op::Mul { dest, left, right, .. } => Some(
                (Self::binary(BinaryOpKind::Mul, false, *left, *right), *dest),
            ),
            Op::Div { dest, left, right, unsigned, .. } => Some(
                (Self::binary(BinaryOpKind::Div, *unsigned, *left, *right), *dest),
            ),
            Op::Rem { dest, left, right, unsigned, .. } => Some(
                (Self::binary(BinaryOpKind::Rem, *unsigned, *left, *right), *dest),
            ),
            Op::And { dest, left, right, .. } => Some(
                (Self::binary(BinaryOpKind::And, false, *left, *right), *dest),
            ),
            Op::Or { dest, left, right, .. } => Some(
                (Self::binary(BinaryOpKind::Or, false, *left, *right), *dest),
            ),
            Op::Xor { dest, left, right, .. } => Some(
                (Self::binary(BinaryOpKind::Xor, false, *left, *right), *dest),
            ),
            Op::Shl { dest, value, amount, .. } => Some(
                (Self::binary(BinaryOpKind::Shl, false, *value, *amount), *dest),
            ),
            Op::Shr { dest, value, amount, unsigned, .. } => Some(
                (Self::binary(BinaryOpKind::Shr, *unsigned, *value, *amount), *dest),
            ),
            Op::Ceq { dest, left, right } => Some(
                (Self::binary(BinaryOpKind::Ceq, false, *left, *right), *dest),
            ),
            Op::Clt { dest, left, right, unsigned } => Some(
                (Self::binary(BinaryOpKind::Clt, *unsigned, *left, *right), *dest),
            ),
            Op::Cgt { dest, left, right, unsigned } => Some(
                (Self::binary(BinaryOpKind::Cgt, *unsigned, *left, *right), *dest),
            ),
            Op::Neg { dest, operand, .. } => Some(
                (ValueKey::Unary(UnaryOpKind::Neg, *operand), *dest),
            ),
            Op::Not { dest, operand, .. } => Some(
                (ValueKey::Unary(UnaryOpKind::Not, *operand), *dest),
            ),
            Op::LoadArg { dest, arg_index } => Some(
                (ValueKey::LoadArg(*arg_index as usize), *dest),
            ),
            _ => None,
        }
    }
}

/// Where the order of the operands does not matter, exchanging them keeps the key.
pub proof fn commuted_operands_share_a_key(
    kind: BinaryOpKind,
    unsigned: bool,
    left: SsaVarId,
    right: SsaVarId,
)
    requires
        kind.commutes(),
    ensures
        binary_key(kind, unsigned, left, right) == binary_key(kind, unsigned, right, left),
{
}

/// Where the order of the operands matters, different orders of different operands have different
/// keys.
pub proof fn ordered_operands_have_their_own_key(
    kind: BinaryOpKind,
    unsigned: bool,
    left: SsaVarId,
    right: SsaVarId,
)
    requires
        !kind.commutes(),
        left != right,
    ensures
        binary_key(kind, unsigned, left, right) != binary_key(kind, unsigned, right, left),
{
}

/// Two operations with the same key compute the same value, whatever the values of the variables
/// and of the arguments are.
pub proof fn equal_keys_compute_equal_values<T: Target>(
    a: OpView<T>,
    b: OpView<T>,
    env: spec_fn(SsaVarId) -> u64,
    args: spec_fn(usize) -> u64,
)
    requires
        key_of(a) is Some,
        key_of(b) is Some,
        key_of(a).unwrap().0 == key_of(b).unwrap().0,
    ensures
        meaning::result(a, env, args) == meaning::result(b, env, args),
{
    assert forall|l: SsaVarId, r: SsaVarId|
        #![trigger env(l), env(r)]
        env(l) & env(r) == env(r) & env(l) && env(l) | env(r) == env(r) | env(l) && env(l) ^ env(r)
            == env(r) ^ env(l) && env(l) * env(r) == env(r) * env(l) by {
        let x = env(l);
        let y = env(r);
        assert(x & y == y & x && x | y == y | x && x ^ y == y ^ x) by (bit_vector);
        assert(x * y == y * x) by (nonlinear_arith);
    }
}

/// A variable that is computed a second time, with where it was computed first.
pub struct Redundancy {
    /// The variable.
    pub var: SsaVarId,
    /// Where it is computed.
    pub place: (usize, usize),
    /// The variable that holds the same value.
    pub original: SsaVarId,
    /// Where that one is computed.
    pub origin: (usize, usize),
}

/// How often `v` occurs among the first `n` of some variables.
pub open spec fn reads_of(vars: Seq<SsaVarId>, v: SsaVarId, n: nat) -> nat
    decreases n,
{
    if n == 0 {
        0
    } else {
        reads_of(vars, v, (n - 1) as nat) + (if vars[n - 1] == v {
            1nat
        } else {
            0nat
        })
    }
}

impl<T: Target> SsaView<T> {
    /// The operation at a place.
    pub open spec fn op_at(self, place: (usize, usize)) -> OpView<T> {
        self.blocks[place.0 as int].instrs[place.1 as int]
    }

    /// The first of the first `n` places that computes `key`.
    pub open spec fn first_keyed(self, places: Seq<(usize, usize)>, key: ValueKey, n: nat) -> Option<
        (usize, usize),
    >
        decreases n,
    {
        if n == 0 {
            None
        } else {
            match self.first_keyed(places, key, (n - 1) as nat) {
                Some(p) => Some(p),
                None => match key_of(self.op_at(places[n - 1])) {
                    Some((k, _)) => if k == key {
                        Some(places[n - 1])
                    } else {
                        None
                    },
                    None => None,
                },
            }
        }
    }

    /// What is computed a second time at place `k`, if anything is.
    pub open spec fn redundancy_at(self, places: Seq<(usize, usize)>) -> spec_fn(int) -> Seq<
        Redundancy,
    > {
        |k: int|
            match key_of(self.op_at(places[k])) {
                Some((key, var)) => match self.first_keyed(places, key, k as nat) {
                    Some(origin) => match key_of(self.op_at(origin)) {
                        Some((_, original)) => seq![
                            Redundancy { var, place: places[k], original, origin },
                        ],
                        None => Seq::empty(),
                    },
                    None => Seq::empty(),
                },
                None => Seq::empty(),
            }
    }

    /// What is computed a second time.
    pub open spec fn redundancies(self) -> Seq<Redundancy> {
        seqs::flat(self.redundancy_at(self.places()), self.places().len())
    }

    /// What is computed at `origin` is known at instruction `i` of block `b`.
    pub open spec fn available_at(self, origin: (usize, usize), b: int, i: int) -> bool {
        if b == origin.0 {
            origin.1 < i
        } else {
            self.dominates(origin.0, b as usize)
        }
    }

    /// The function with uses of a redundant variable reading the original one where it is known;
    /// `flow` tells where that is.
    pub open spec fn forwarded(self, flow: SsaView<T>, r: Redundancy) -> SsaView<T> {
        SsaView {
            blocks: Seq::new(
                self.blocks.len(),
                |b: int|
                    self.blocks[b].with_instrs(
                        Seq::new(
                            self.blocks[b].instrs.len(),
                            |i: int|
                                if flow.available_at(r.origin, b, i) {
                                    self.blocks[b].instrs[i].reading(r.var, r.original)
                                } else {
                                    self.blocks[b].instrs[i]
                                },
                        ),
                    ),
            ),
            ..self
        }
    }

    /// How many uses at instruction `i` of block `b` change.
    pub open spec fn forwarded_at(self, flow: SsaView<T>, r: Redundancy, b: int) -> spec_fn(
        int,
    ) -> nat {
        |i: int|
            if flow.available_at(r.origin, b, i) {
                let uses = self.blocks[b].instrs[i].uses();
                reads_of(uses, r.var, uses.len())
            } else {
                0
            }
    }

    /// How many uses in block `b` change.
    pub open spec fn forwarded_in(self, flow: SsaView<T>, r: Redundancy) -> spec_fn(int) -> nat {
        |b: int| deadcode::total(self.forwarded_at(flow, r, b), self.blocks[b].instrs.len())
    }

    /// How many uses of a redundant variable change.
    pub open spec fn forwarded_count(self, flow: SsaView<T>, r: Redundancy) -> nat {
        deadcode::total(self.forwarded_in(flow, r), self.blocks.len())
    }

    /// The first `n` redundant variables give way to the original ones, one after the other.
    pub open spec fn all_forwarded(self, list: Seq<Redundancy>, n: nat) -> Forwarding<T>
        decreases n,
    {
        if n == 0 {
            Forwarding { ssa: self, counts: Seq::empty(), count: 0 }
        } else {
            let before = self.all_forwarded(list, (n - 1) as nat);
            let count = before.ssa.forwarded_count(self, list[n - 1]);
            Forwarding {
                ssa: before.ssa.forwarded(self, list[n - 1]),
                counts: before.counts.push(count),
                count: before.count + count,
            }
        }
    }

    /// Some instruction or phi node reads `v`.
    pub open spec fn is_read(self, v: SsaVarId) -> bool {
        !self.read_only_at(v, -1, -1)
    }

    /// The redundant variables among the first `n` that nothing reads any more are not computed.
    pub open spec fn without_unread(
        self,
        from: SsaView<T>,
        list: Seq<Redundancy>,
        n: nat,
    ) -> SsaView<T>
        decreases n,
    {
        if n == 0 {
            self
        } else {
            let before = self.without_unread(from, list, (n - 1) as nat);
            let r = list[n - 1];
            if from.is_read(r.var) {
                before
            } else {
                before.with_op(r.place.0 as int, r.place.1 as int, Op::Nop)
            }
        }
    }

    /// Some of the redundant variables is not read.
    pub open spec fn some_unread(self, list: Seq<Redundancy>) -> bool {
        exists|k: int| 0 <= k < list.len() && !self.is_read((#[trigger] list[k]).var)
    }

    /// What the pass makes of the function.
    ///
    /// A computation that was made before is eliminated where uses of it read the original one, and
    /// where nothing reads it. Where what comes of it is not well formed the function stays as it
    /// was.
    pub open spec fn value_numbered(self, method: T::MethodRef) -> Numbering<T> {
        let list = self.redundancies();
        let forwarded = self.all_forwarded(list, list.len());
        let removed = forwarded.ssa.without_unread(forwarded.ssa, list, list.len());
        let events = seqs::flat(forwarded.reports(list, method), list.len());
        if forwarded.count == 0 && !forwarded.ssa.some_unread(list) {
            Numbering { ssa: forwarded.ssa, events: Seq::empty(), count: 0, eliminated: false }
        } else {
            let good = removed.repaired().well_formed();
            Numbering {
                ssa: removed.committed(self),
                events: if good {
                    events
                } else {
                    Seq::empty()
                },
                count: if good {
                    forwarded.count
                } else {
                    0
                },
                eliminated: good,
            }
        }
    }
}

/// What comes of redundant variables giving way to the original ones.
pub struct Forwarding<T: Target> {
    /// The function.
    pub ssa: SsaView<T>,
    /// For each redundant variable, how many uses changed.
    pub counts: Seq<nat>,
    /// How many uses changed in all.
    pub count: nat,
}

impl<T: Target> Forwarding<T> {
    /// The computation `k` is eliminated: uses of it changed, or nothing reads it.
    pub open spec fn eliminates(self, list: Seq<Redundancy>, k: int) -> bool {
        self.counts[k] > 0 || !self.ssa.is_read(list[k].var)
    }

    /// What is reported of computation `k`, if it is eliminated.
    pub open spec fn reports(self, list: Seq<Redundancy>, method: T::MethodRef) -> spec_fn(
        int,
    ) -> Seq<EventView<T>> {
        |k: int|
            if self.eliminates(list, k) {
                seq![
                    EventView::of(
                        EventKind::ConstantFolded,
                        method,
                        "GVN: "@ + text::var_name(list[k].var) + " → "@ + text::var_name(
                            list[k].original,
                        ) + " ("@ + text::decimal(deadcode::capped(self.counts[k]) as nat)
                            + " uses)"@,
                    ),
                ]
            } else {
                Seq::empty()
            }
    }
}

/// What value numbering leaves behind.
pub struct Numbering<T: Target> {
    /// The function.
    pub ssa: SsaView<T>,
    /// The reported events, one for each eliminated computation.
    pub events: Seq<EventView<T>>,
    /// How many uses changed.
    pub count: nat,
    /// Whether a computation was eliminated.
    pub eliminated: bool,
}

/// Returns the first of the first `n` places that computes `key`.
fn find_keyed<T: Target>(
    ssa: &SsaFunction<T>,
    places: &Vec<(usize, usize)>,
    key: ValueKey,
    n: usize,
) -> (r: Option<(usize, usize)>)
    requires
        n <= places@.len(),
        forall|k: int|
            0 <= k < places@.len() ==> ssa@.has_instr(
                (#[trigger] places@[k]).0 as int,
                places@[k].1 as int,
            ),
    ensures
        r == ssa@.first_keyed(places@, key, n as nat),
        r matches Some(p) ==> ssa@.has_instr(p.0 as int, p.1 as int) && key_of(ssa@.op_at(p))
            is Some,
{
    let mut found: Option<(usize, usize)> = None;
    let mut k: usize = 0;
    while k < n
        invariant
            k <= n,
            n <= places@.len(),
            forall|k: int|
                0 <= k < places@.len() ==> ssa@.has_instr(
                    (#[trigger] places@[k]).0 as int,
                    places@[k].1 as int,
                ),
            found == ssa@.first_keyed(places@, key, k as nat),
            found matches Some(p) ==> ssa@.has_instr(p.0 as int, p.1 as int) && key_of(
                ssa@.op_at(p),
            ) is Some,
        decreases n - k,
    {
        let (b, i) = places[k];
        assert(ssa@.has_instr(places@[k as int].0 as int, places@[k as int].1 as int));
        assert(ssa.blocks@[b as int]@ == ssa@.blocks[b as int]);
        assert(ssa.blocks@[b as int].instrs@[i as int]@ == ssa@.op_at((b, i)));
        if found.is_none() {
            if let Some((other, _)) = ValueKey::from_op(&ssa.blocks[b].instrs[i].op) {
                if other == key {
                    found = Some((b, i));
                }
            }
        }
        k = k + 1;
    }
    found
}

/// Returns what is computed a second time.
fn find_redundancies<T: Target>(ssa: &SsaFunction<T>) -> (r: Vec<Redundancy>)
    ensures
        r@ == ssa@.redundancies(),
        forall|k: int|
            0 <= k < r@.len() ==> ssa@.has_instr(
                (#[trigger] r@[k]).place.0 as int,
                r@[k].place.1 as int,
            ) && ssa@.has_instr(r@[k].origin.0 as int, r@[k].origin.1 as int),
{
    let places: Vec<(usize, usize)> = ssa.instruction_places();
    let ghost f = ssa@.redundancy_at(places@);
    let mut r: Vec<Redundancy> = Vec::new();
    let mut k: usize = 0;
    while k < places.len()
        invariant
            k <= places@.len(),
            f == ssa@.redundancy_at(places@),
            forall|k: int|
                0 <= k < places@.len() ==> ssa@.has_instr(
                    (#[trigger] places@[k]).0 as int,
                    places@[k].1 as int,
                ),
            r@ == seqs::flat(f, k as nat),
            forall|k: int|
                0 <= k < r@.len() ==> ssa@.has_instr(
                    (#[trigger] r@[k]).place.0 as int,
                    r@[k].place.1 as int,
                ) && ssa@.has_instr(r@[k].origin.0 as int, r@[k].origin.1 as int),
        decreases places@.len() - k,
    {
        let ghost before = r@;
        let (b, i) = places[k];
        assert(ssa@.has_instr(places@[k as int].0 as int, places@[k as int].1 as int));
        assert(ssa.blocks@[b as int]@ == ssa@.blocks[b as int]);
        assert(ssa.blocks@[b as int].instrs@[i as int]@ == ssa@.op_at((b, i)));
        if let Some((key, var)) = ValueKey::from_op(&ssa.blocks[b].instrs[i].op) {
            if let Some((ob, oi)) = find_keyed(ssa, &places, key, k) {
                assert(ssa.blocks@[ob as int]@ == ssa@.blocks[ob as int]);
                assert(ssa.blocks@[ob as int].instrs@[oi as int]@ == ssa@.op_at((ob, oi)));
                if let Some((_, original)) = ValueKey::from_op(&ssa.blocks[ob].instrs[oi].op) {
                    r.push(Redundancy { var, place: (b, i), original, origin: (ob, oi) });
                }
            }
        }
        assert(r@ =~= before + f(k as int));
        k = k + 1;
    }
    r
}

/// Returns how often `v` is read by an operation.
pub(crate) fn count_reads<T: Target>(op: &SsaOp<T>, v: SsaVarId) -> (r: usize)
    ensures
        r == reads_of(op@.uses(), v, op@.uses().len()),
{
    let uses: Vec<SsaVarId> = op.uses();
    let mut count: usize = 0;
    let mut i: usize = 0;
    while i < uses.len()
        invariant
            i <= uses@.len(),
            count <= i,
            count == reads_of(uses@, v, i as nat),
        decreases uses@.len() - i,
    {
        if uses[i] == v {
            count = count + 1;
        }
        i = i + 1;
    }
    count
}

/// Returns whether what is computed at `origin` is known at instruction `i` of block `b`.
fn check_available<T: Target>(
    flow: &SsaFunction<T>,
    dominators: &Dominators,
    origin: (usize, usize),
    b: usize,
    i: usize,
) -> (r: bool)
    requires
        dominators.describes(flow@),
        b < flow@.blocks.len(),
        origin.0 < flow@.blocks.len(),
    ensures
        r == flow@.available_at(origin, b as int, i as int),
{
    if b == origin.0 {
        origin.1 < i
    } else {
        dominators.check(flow, origin.0, b)
    }
}

/// Makes uses of a redundant variable in one block read the original one where it is known, and
/// returns how many uses changed, together with `before`.
fn forward_block<T: Target>(
    block: &SsaBlock<T>,
    b: usize,
    flow: &SsaFunction<T>,
    dominators: &Dominators,
    redundancy: &Redundancy,
    before: usize,
    Ghost(counted): Ghost<nat>,
) -> (r: (SsaBlock<T>, usize))
    requires
        dominators.describes(flow@),
        b < flow@.blocks.len(),
        redundancy.origin.0 < flow@.blocks.len(),
        before == deadcode::capped(counted),
    ensures
        r.0@ == block@.with_instrs(
            Seq::new(
                block@.instrs.len(),
                |i: int|
                    if flow@.available_at(redundancy.origin, b as int, i) {
                        block@.instrs[i].reading(redundancy.var, redundancy.original)
                    } else {
                        block@.instrs[i]
                    },
            ),
        ),
        r.1 == deadcode::capped(
            counted + deadcode::total(
                |i: int|
                    if flow@.available_at(redundancy.origin, b as int, i) {
                        let uses = block@.instrs[i].uses();
                        reads_of(uses, redundancy.var, uses.len())
                    } else {
                        0
                    },
                block@.instrs.len(),
            ),
        ),
{
    let ghost f = |i: int|
        if flow@.available_at(redundancy.origin, b as int, i) {
            let uses = block@.instrs[i].uses();
            reads_of(uses, redundancy.var, uses.len())
        } else {
            0nat
        };
    let ghost goal = Seq::new(
        block@.instrs.len(),
        |i: int|
            if flow@.available_at(redundancy.origin, b as int, i) {
                block@.instrs[i].reading(redundancy.var, redundancy.original)
            } else {
                block@.instrs[i]
            },
    );
    let mut copy: SsaBlock<T> = block.duplicate();
    let n: usize = block.instrs.len();
    let mut count: usize = before;
    let mut i: usize = 0;
    while i < n
        invariant
            i <= n,
            n == block.instrs@.len(),
            dominators.describes(flow@),
            b < flow@.blocks.len(),
            redundancy.origin.0 < flow@.blocks.len(),
            f == (|i: int|
                if flow@.available_at(redundancy.origin, b as int, i) {
                    let uses = block@.instrs[i].uses();
                    reads_of(uses, redundancy.var, uses.len())
                } else {
                    0nat
                }),
            goal == Seq::new(
                block@.instrs.len(),
                |i: int|
                    if flow@.available_at(redundancy.origin, b as int, i) {
                        block@.instrs[i].reading(redundancy.var, redundancy.original)
                    } else {
                        block@.instrs[i]
                    },
            ),
            copy@ == block@.with_instrs(copy@.instrs),
            copy@.instrs.len() == n,
            forall|j: int| 0 <= j < i ==> #[trigger] copy@.instrs[j] == goal[j],
            forall|j: int| i <= j < n ==> #[trigger] copy@.instrs[j] == block@.instrs[j],
            count == deadcode::capped(counted + deadcode::total(f, i as nat)),
        decreases n - i,
    {
        assert(block.instrs@[i as int]@ == block@.instrs[i as int]);
        if check_available(flow, dominators, redundancy.origin, b, i) {
            let reads: usize = count_reads(&block.instrs[i].op, redundancy.var);
            assert(reads == f(i as int));
            count = count.saturating_add(reads);
            let mut op: SsaOp<T> = block.instrs[i].op.duplicate();
            op.replace_uses(redundancy.var, redundancy.original);
            copy.set_op(i, op);
        }
        i = i + 1;
    }
    assert(copy@.instrs =~= goal);
    (copy, count)
}

/// Makes uses of a redundant variable read the original one where it is known, and returns how many
/// uses changed.
fn forward<T: Target>(
    ssa: &mut SsaFunction<T>,
    flow: &SsaFunction<T>,
    dominators: &Dominators,
    redundancy: &Redundancy,
) -> (r: usize)
    requires
        dominators.describes(flow@),
        old(ssa)@.blocks.len() == flow@.blocks.len(),
        redundancy.origin.0 < flow@.blocks.len(),
    ensures
        final(ssa)@ == old(ssa)@.forwarded(flow@, *redundancy),
        r == deadcode::capped(old(ssa)@.forwarded_count(flow@, *redundancy)),
{
    let ghost s = ssa@;
    let ghost f = s.forwarded_in(flow@, *redundancy);
    let ghost goal = s.forwarded(flow@, *redundancy);
    let n: usize = ssa.blocks.len();
    let mut count: usize = 0;
    let mut b: usize = 0;
    while b < n
        invariant
            b <= n,
            n == s.blocks.len(),
            n == flow@.blocks.len(),
            dominators.describes(flow@),
            redundancy.origin.0 < flow@.blocks.len(),
            f == s.forwarded_in(flow@, *redundancy),
            goal == s.forwarded(flow@, *redundancy),
            ssa@ == (SsaView { blocks: ssa@.blocks, ..s }),
            ssa@.blocks.len() == n,
            forall|j: int| 0 <= j < b ==> #[trigger] ssa@.blocks[j] == goal.blocks[j],
            forall|j: int| b <= j < n ==> #[trigger] ssa@.blocks[j] == s.blocks[j],
            count == deadcode::capped(deadcode::total(f, b as nat)),
        decreases n - b,
    {
        assert(ssa.blocks@[b as int]@ == ssa@.blocks[b as int]);
        let ghost g = s.forwarded_at(flow@, *redundancy, b as int);
        let (block, counted) = forward_block(
            &ssa.blocks[b],
            b,
            flow,
            dominators,
            redundancy,
            count,
            Ghost(deadcode::total(f, b as nat)),
        );
        assert(g =~= |i: int|
            if flow@.available_at(redundancy.origin, b as int, i) {
                let uses = s.blocks[b as int].instrs[i].uses();
                reads_of(uses, redundancy.var, uses.len())
            } else {
                0nat
            });
        assert(f(b as int) == deadcode::total(g, s.blocks[b as int].instrs.len()));
        count = counted;
        ssa.set_block(b, block);
        b = b + 1;
    }
    assert(ssa@.blocks =~= goal.blocks);
    count
}

/// Returns whether some instruction or phi node reads `v`.
pub(crate) fn check_read<T: Target>(ssa: &SsaFunction<T>, v: SsaVarId) -> (r: bool)
    ensures
        r == ssa@.is_read(v),
{
    let mut k: usize = 0;
    while k < ssa.blocks.len()
        invariant
            k <= ssa.blocks@.len(),
            forall|j: int|
                0 <= j < k ==> (#[trigger] ssa@.blocks[j]).no_phi_reads(v)
                    && ssa@.blocks[j].no_instr_reads(v, -1),
        decreases ssa.blocks@.len() - k,
    {
        assert(ssa.blocks@[k as int]@ == ssa@.blocks[k as int]);
        if !check_no_phi_reads(&ssa.blocks[k], v) || !check_no_instr_reads(
            &ssa.blocks[k],
            v,
            None,
        ) {
            assert(!(ssa@.blocks[k as int].no_phi_reads(v) && ssa@.blocks[k as int].no_instr_reads(
                v,
                -1,
            )));
            return true;
        }
        k = k + 1;
    }
    false
}

proof fn lemma_forwarded_shape<T: Target>(s: SsaView<T>, list: Seq<Redundancy>, n: nat)
    ensures
        ({
            let after = s.all_forwarded(list, n);
            &&& after.counts.len() == n
            &&& after.ssa.blocks.len() == s.blocks.len()
            &&& forall|b: int|
                0 <= b < s.blocks.len() ==> (#[trigger] after.ssa.blocks[b]).instrs.len()
                    == s.blocks[b].instrs.len()
        }),
    decreases n,
{
    if n > 0 {
        lemma_forwarded_shape(s, list, (n - 1) as nat);
    }
}

/// Reports an eliminated computation.
fn report<T: Target>(
    redundancy: &Redundancy,
    replaced: usize,
    method: &T::MethodRef,
    events: &mut EventLog<T>,
)
    ensures
        final(events)@ == old(events)@.push(
            EventView::of(
                EventKind::ConstantFolded,
                *method,
                "GVN: "@ + text::var_name(redundancy.var) + " → "@ + text::var_name(
                    redundancy.original,
                ) + " ("@ + text::decimal(replaced as nat) + " uses)"@,
            ),
        ),
{
    let mut message: String = String::from_str("GVN: ");
    text::push_var(&mut message, redundancy.var);
    message.append(" → ");
    text::push_var(&mut message, redundancy.original);
    message.append(" (");
    text::push_number(&mut message, replaced);
    message.append(" uses)");
    events.record(EventKind::ConstantFolded, method, message);
}

/// Takes what is computed a second time from where it was computed first, and returns how many uses
/// changed and whether a computation was eliminated.
fn number_values<T: Target>(
    ssa: &mut SsaFunction<T>,
    method: &T::MethodRef,
    events: &mut EventLog<T>,
) -> (r: (usize, bool))
    ensures
        ({
            let outcome = old(ssa)@.value_numbered(*method);
            &&& final(ssa)@ == outcome.ssa
            &&& final(events)@ == old(events)@ + outcome.events
            &&& r.0 == deadcode::capped(outcome.count)
            &&& r.1 == outcome.eliminated
        }),
{
    let before: SsaFunction<T> = ssa.duplicate();
    let ghost s = ssa@;
    let list: Vec<Redundancy> = find_redundancies(ssa);
    let dominators: Dominators = compute_dominators(&before);
    let mut total_replaced: usize = 0;
    let mut counts: Vec<usize> = Vec::new();
    let mut k: usize = 0;
    while k < list.len()
        invariant
            k <= list@.len(),
            before@ == s,
            dominators.describes(before@),
            forall|k: int|
                0 <= k < list@.len() ==> s.has_instr(
                    (#[trigger] list@[k]).place.0 as int,
                    list@[k].place.1 as int,
                ) && s.has_instr(list@[k].origin.0 as int, list@[k].origin.1 as int),
            ssa@ == s.all_forwarded(list@, k as nat).ssa,
            ssa@.blocks.len() == s.blocks.len(),
            counts@.len() == k,
            s.all_forwarded(list@, k as nat).counts.len() == k,
            forall|j: int|
                0 <= j < k ==> #[trigger] counts@[j] == deadcode::capped(
                    s.all_forwarded(list@, k as nat).counts[j],
                ),
            total_replaced == deadcode::capped(s.all_forwarded(list@, k as nat).count),
        decreases list@.len() - k,
    {
        assert(s.has_instr(list@[k as int].origin.0 as int, list@[k as int].origin.1 as int));
        let replaced: usize = forward(ssa, &before, &dominators, &list[k]);
        counts.push(replaced);
        total_replaced = total_replaced.saturating_add(replaced);
        k = k + 1;
    }
    proof {
        lemma_forwarded_shape(s, list@, list@.len());
    }
    let ghost all = s.all_forwarded(list@, list@.len());
    let ghost forwarded = ssa@;
    let ghost f = all.reports(list@, *method);
    let mut unread: Vec<bool> = Vec::new();
    let mut some: bool = false;
    let mut log: EventLog<T> = EventLog::new();
    assert(log@ =~= seqs::flat(f, 0));
    let mut k: usize = 0;
    while k < list.len()
        invariant
            k <= list@.len(),
            ssa@ == forwarded,
            forwarded == all.ssa,
            f == all.reports(list@, *method),
            counts@.len() == list@.len(),
            all.counts.len() == list@.len(),
            forall|j: int|
                0 <= j < list@.len() ==> #[trigger] counts@[j] == deadcode::capped(all.counts[j]),
            log@ == seqs::flat(f, k as nat),
            unread@.len() == k,
            forall|j: int|
                0 <= j < k ==> #[trigger] unread@[j] == !forwarded.is_read(list@[j].var),
            some == exists|j: int| 0 <= j < k && !forwarded.is_read((#[trigger] list@[j]).var),
        decreases list@.len() - k,
    {
        let gone: bool = !check_read(ssa, list[k].var);
        unread.push(gone);
        assert(counts@[k as int] == deadcode::capped(all.counts[k as int]));
        let ghost logged = log@;
        if gone || counts[k] > 0 {
            report(&list[k], counts[k], method, &mut log);
        }
        assert(log@ =~= logged + f(k as int));
        if gone {
            some = true;
            assert(!forwarded.is_read(list@[k as int].var));
        }
        k = k + 1;
    }
    if total_replaced == 0 && !some {
        assert(events@ =~= old(events)@ + Seq::empty());
        return (0, false);
    }
    let mut k: usize = 0;
    while k < list.len()
        invariant
            k <= list@.len(),
            unread@.len() == list@.len(),
            forall|j: int|
                0 <= j < unread@.len() ==> #[trigger] unread@[j] == !forwarded.is_read(
                    list@[j].var,
                ),
            forwarded.blocks.len() == s.blocks.len(),
            forall|b: int|
                0 <= b < s.blocks.len() ==> (#[trigger] forwarded.blocks[b]).instrs.len()
                    == s.blocks[b].instrs.len(),
            forall|k: int|
                0 <= k < list@.len() ==> s.has_instr(
                    (#[trigger] list@[k]).place.0 as int,
                    list@[k].place.1 as int,
                ) && s.has_instr(list@[k].origin.0 as int, list@[k].origin.1 as int),
            ssa@ == forwarded.without_unread(forwarded, list@, k as nat),
            ssa@.blocks.len() == s.blocks.len(),
            forall|b: int|
                0 <= b < s.blocks.len() ==> (#[trigger] ssa@.blocks[b]).instrs.len()
                    == s.blocks[b].instrs.len(),
        decreases list@.len() - k,
    {
        assert(unread@[k as int] == !forwarded.is_read(list@[k as int].var));
        assert(s.has_instr(list@[k as int].place.0 as int, list@[k as int].place.1 as int));
        if unread[k] {
            assert(ssa@.blocks[list@[k as int].place.0 as int].instrs.len()
                == s.blocks[list@[k as int].place.0 as int].instrs.len());
            ssa.set_op(list[k].place.0, list[k].place.1, Op::Nop);
        }
        k = k + 1;
    }
    if ssa.commit(before) {
        events.append_all(log);
        (total_replaced, true)
    } else {
        assert(events@ =~= old(events)@ + Seq::empty());
        (0, false)
    }
}

/// Takes what is computed a second time from where it was computed first, and returns how many uses
/// changed.
pub fn run_gvn<T: Target>(
    ssa: &mut SsaFunction<T>,
    method: &T::MethodRef,
    events: &mut EventLog<T>,
) -> (r: usize)
    ensures
        ({
            let outcome = old(ssa)@.value_numbered(*method);
            &&& final(ssa)@ == outcome.ssa
            &&& final(events)@ == old(events)@ + outcome.events
            &&& r == deadcode::capped(outcome.count)
        }),
{
    number_values(ssa, method, events).0
}

/// Takes what is computed a second time from where it was computed first.
///
/// Returns whether a computation was eliminated, and reports each that was.
pub fn run<T: Target>(
    ssa: &mut SsaFunction<T>,
    method: &T::MethodRef,
    events: &mut EventLog<T>,
) -> (r: bool)
    ensures
        ({
            let outcome = old(ssa)@.value_numbered(*method);
            &&& final(ssa)@ == outcome.ssa
            &&& final(events)@ == old(events)@ + outcome.events
            &&& r == outcome.eliminated
        }),
{
    number_values(ssa, method, events).1
}

} // verus!
