//! Algebraic simplification: operations whose result is one of their operands, or a constant.
use crate::analysis::meaning;
use crate::analysis::steps;
use crate::events::{EventKind, EventLog, EventView};
use crate::ir::block::{BlockView, SsaBlock};
use crate::ir::function::{SsaFunction, SsaView};
use crate::ir::ops::{Op, OpView, SsaOp};
use crate::ir::value::ConstValue;
use crate::ir::variable::SsaVarId;
use crate::passes::outcome::Outcome;
use crate::passes::predicates;
use crate::passes::predicates::DefinitionCache;
use crate::pointer;
use crate::seqs;
use crate::target::Target;
use crate::text;
use vstd::prelude::*;
use vstd::string::StringExecFns;

verus! {

/// What an operation always computes.
#[derive(Debug, Clone, Copy, PartialEq, Eq, Structural)]
pub enum Identity {
    /// The value of a variable.
    Same(SsaVarId),
    /// A small number.
    Number(i32),
}

impl Identity {
    /// The operation that computes it into `dest`.
    pub open spec fn operation<T: Target>(self, dest: SsaVarId) -> OpView<T> {
        match self {
            Identity::Same(src) => Op::Copy { dest, src },
            Identity::Number(n) => Op::Const { dest, value: ConstValue::I32(n) },
        }
    }

    /// What is reported of it.
    pub open spec fn description(self) -> Seq<char> {
        match self {
            Identity::Same(src) => "simplified to "@ + text::var_name(src),
            Identity::Number(n) => "simplified to "@ + text::signed_decimal(n as int),
        }
    }

    fn make_op<T: Target>(self, dest: SsaVarId) -> (r: SsaOp<T>)
        ensures
            r@ == self.operation::<T>(dest),
    {
        match self {
            Identity::Same(src) => Op::Copy { dest, src },
            Identity::Number(n) => Op::Const { dest, value: ConstValue::I32(n) },
        }
    }

    fn make_description(self) -> (r: String)
        ensures
            r@ == self.description(),
    {
        let mut r: String = String::from_str("simplified to ");
        match self {
            Identity::Same(src) => text::push_var(&mut r, src),
            Identity::Number(n) => text::push_signed(&mut r, n as i64),
        }
        r
    }
}

impl<T: Target> SsaView<T> {
    /// What an operation on two variables in any order always computes where one of them is the
    /// number `neutral`: the other.
    pub open spec fn other_than(self, left: SsaVarId, right: SsaVarId, neutral: int) -> Option<
        Identity,
    > {
        if self.is_number(right, neutral) {
            Some(Identity::Same(left))
        } else if self.is_number(left, neutral) {
            Some(Identity::Same(right))
        } else {
            None
        }
    }

    /// What an operation on two variables in any order always computes where one of them is the
    /// number `absorbing`: that number.
    pub open spec fn absorbed_by(self, left: SsaVarId, right: SsaVarId, absorbing: int) -> Option<
        Identity,
    > {
        if self.is_number(right, absorbing) {
            Some(Identity::Same(right))
        } else if self.is_number(left, absorbing) {
            Some(Identity::Same(left))
        } else {
            None
        }
    }

    /// What an operation always computes, where an identity says so. An operation that sets flags
    /// stays as it is.
    pub open spec fn identity(self, op: OpView<T>) -> Option<Identity> {
        if op.flags_result() is Some {
            None
        } else {
            match op {
                Op::Add { left, right, .. } => self.other_than(left, right, 0),
                Op::Sub { left, right, .. } => if left == right {
                    Some(Identity::Number(0))
                } else if self.is_number(right, 0) {
                    Some(Identity::Same(left))
                } else {
                    None
                },
                Op::Mul { left, right, .. } => match self.absorbed_by(left, right, 0) {
                    Some(identity) => Some(identity),
                    None => self.other_than(left, right, 1),
                },
                Op::Div { left, right, .. } => if self.is_number(right, 1) {
                    Some(Identity::Same(left))
                } else {
                    None
                },
                Op::Rem { left, right, .. } => if self.is_number(right, 1) {
                    Some(Identity::Number(0))
                } else {
                    None
                },
                Op::And { left, right, .. } => if left == right {
                    Some(Identity::Same(left))
                } else {
                    match self.absorbed_by(left, right, 0) {
                        Some(identity) => Some(identity),
                        None => self.other_than(left, right, -1),
                    }
                },
                Op::Or { left, right, .. } => if left == right {
                    Some(Identity::Same(left))
                } else {
                    match self.absorbed_by(left, right, -1) {
                        Some(identity) => Some(identity),
                        None => self.other_than(left, right, 0),
                    }
                },
                Op::Xor { left, right, .. } => if left == right {
                    Some(Identity::Number(0))
                } else {
                    self.other_than(left, right, 0)
                },
                Op::Shl { value, amount, .. } => if self.is_number(amount, 0) {
                    Some(Identity::Same(value))
                } else {
                    None
                },
                Op::Shr { value, amount, .. } => if self.is_number(amount, 0) {
                    Some(Identity::Same(value))
                } else {
                    None
                },
                Op::Ceq { left, right, .. } => if left == right {
                    Some(Identity::Number(1))
                } else {
                    None
                },
                Op::Clt { left, right, .. } => if left == right {
                    Some(Identity::Number(0))
                } else {
                    None
                },
                Op::Cgt { left, right, .. } => if left == right {
                    Some(Identity::Number(0))
                } else {
                    None
                },
                _ => None,
            }
        }
    }

    /// The operation in place of `op`.
    pub open spec fn simplified_op(self, op: OpView<T>) -> OpView<T> {
        match (self.identity(op), op.result()) {
            (Some(identity), Some(dest)) => identity.operation(dest),
            _ => op,
        }
    }

    /// Block `b` with its operations simplified.
    pub open spec fn simplified_block(self, b: int) -> BlockView<T> {
        self.blocks[b].with_instrs(
            self.blocks[b].instrs.map_values(|op: OpView<T>| self.simplified_op(op)),
        )
    }

    /// What is reported of instruction `i` of block `b`.
    pub open spec fn identity_event(self, method: T::MethodRef, b: int) -> spec_fn(int) -> Seq<
        EventView<T>,
    > {
        |i: int|
            match self.identity(self.blocks[b].instrs[i]) {
                Some(identity) => seq![
                    EventView::at(EventKind::ConstantFolded, method, i, identity.description()),
                ],
                None => Seq::empty(),
            }
    }

    /// What is reported of the instructions of each block.
    pub open spec fn identity_events(self, method: T::MethodRef) -> spec_fn(int) -> Seq<
        EventView<T>,
    > {
        |b: int| seqs::flat(self.identity_event(method, b), self.blocks[b].instrs.len())
    }

    /// What the pass makes of the function.
    pub open spec fn algebraically_simplified(self, method: T::MethodRef) -> Outcome<T> {
        let events = seqs::flat(self.identity_events(method), self.blocks.len());
        Outcome {
            ssa: SsaView {
                blocks: Seq::new(self.blocks.len(), |b: int| self.simplified_block(b)),
                ..self
            },
            events,
            changed: events.len() > 0,
        }
    }
}

/// Returns whether `v` is defined as a constant that stands for `n`.
fn is_number<T: Target>(v: SsaVarId, n: i64, cache: &DefinitionCache<'_, T>) -> (r: bool)
    requires
        cache.wf(),
    ensures
        r == cache.ssa@.is_number(v, n as int),
{
    match cache.get_constant(v) {
        Some(c) => match c.as_i64() {
            Some(value) => value == n,
            None => false,
        },
        None => false,
    }
}

fn find_other<T: Target>(
    left: SsaVarId,
    right: SsaVarId,
    neutral: i64,
    cache: &DefinitionCache<'_, T>,
) -> (r: Option<Identity>)
    requires
        cache.wf(),
    ensures
        r == cache.ssa@.other_than(left, right, neutral as int),
{
    if is_number(right, neutral, cache) {
        Some(Identity::Same(left))
    } else if is_number(left, neutral, cache) {
        Some(Identity::Same(right))
    } else {
        None
    }
}

fn find_absorbing<T: Target>(
    left: SsaVarId,
    right: SsaVarId,
    absorbing: i64,
    cache: &DefinitionCache<'_, T>,
) -> (r: Option<Identity>)
    requires
        cache.wf(),
    ensures
        r == cache.ssa@.absorbed_by(left, right, absorbing as int),
{
    if is_number(right, absorbing, cache) {
        Some(Identity::Same(right))
    } else if is_number(left, absorbing, cache) {
        Some(Identity::Same(left))
    } else {
        None
    }
}

/// Returns what an operation always computes, where an identity says so.
#[must_use]
pub fn find_identity<T: Target>(op: &SsaOp<T>, cache: &DefinitionCache<'_, T>) -> (r: Option<
    Identity,
>)
    requires
        cache.wf(),
    ensures
        r == cache.ssa@.identity(op@),
{
    if op.flags_dest().is_some() {
        return None;
    }
    match op {
        Op::Add { left, right, .. } => find_other(*left, *right, 0, cache),
        Op::Sub { left, right, .. } => if left.0 == right.0 {
            Some(Identity::Number(0))
        } else if is_number(*right, 0, cache) {
            Some(Identity::Same(*left))
        } else {
            None
        },
        Op::Mul { left, right, .. } => match find_absorbing(*left, *right, 0, cache) {
            Some(identity) => Some(identity),
            None => find_other(*left, *right, 1, cache),
        },
        Op::Div { left, right, .. } => if is_number(*right, 1, cache) {
            Some(Identity::Same(*left))
        } else {
            None
        },
        Op::Rem { right, .. } => if is_number(*right, 1, cache) {
            Some(Identity::Number(0))
        } else {
            None
        },
        Op::And { left, right, .. } => if left.0 == right.0 {
            Some(Identity::Same(*left))
        } else {
            match find_absorbing(*left, *right, 0, cache) {
                Some(identity) => Some(identity),
                None => find_other(*left, *right, -1, cache),
            }
        },
        Op::Or { left, right, .. } => if left.0 == right.0 {
            Some(Identity::Same(*left))
        } else {
            match find_absorbing(*left, *right, -1, cache) {
                Some(identity) => Some(identity),
                None => find_other(*left, *right, 0, cache),
            }
        },
        Op::Xor { left, right, .. } => if left.0 == right.0 {
            Some(Identity::Number(0))
        } else {
            find_other(*left, *right, 0, cache)
        },
        Op::Shl { value, amount, .. } => if is_number(*amount, 0, cache) {
            Some(Identity::Same(*value))
        } else {
            None
        },
        Op::Shr { value, amount, .. } => if is_number(*amount, 0, cache) {
            Some(Identity::Same(*value))
        } else {
            None
        },
        Op::Ceq { left, right, .. } => if left.0 == right.0 {
            Some(Identity::Number(1))
        } else {
            None
        },
        Op::Clt { left, right, .. } => if left.0 == right.0 {
            Some(Identity::Number(0))
        } else {
            None
        },
        Op::Cgt { left, right, .. } => if left.0 == right.0 {
            Some(Identity::Number(0))
        } else {
            None
        },
        _ => None,
    }
}

/// Simplifies the operations of one block, and reports them.
fn simplify_block<T: Target>(
    b: usize,
    cache: &DefinitionCache<'_, T>,
    method: &T::MethodRef,
    log: &mut EventLog<T>,
) -> (r: SsaBlock<T>)
    requires
        cache.wf(),
        b < cache.ssa@.blocks.len(),
    ensures
        r@ == cache.ssa@.simplified_block(b as int),
        final(log)@ == old(log)@ + (cache.ssa@.identity_events(*method))(b as int),
{
    let ghost ssa = cache.ssa@;
    let block: &SsaBlock<T> = &cache.ssa.blocks[b];
    let ghost view = ssa.blocks[b as int];
    assert(block@ == view);
    let ghost event = ssa.identity_event(*method, b as int);
    let mut r: SsaBlock<T> = block.duplicate();
    assert(log@ =~= old(log)@ + seqs::flat(event, 0));
    let mut i: usize = 0;
    while i < block.instrs.len()
        invariant
            cache.wf(),
            ssa == cache.ssa@,
            block@ == view,
            view == ssa.blocks[b as int],
            event == ssa.identity_event(*method, b as int),
            i <= view.instrs.len(),
            r@ == view.with_instrs(r@.instrs),
            r@.instrs.len() == view.instrs.len(),
            forall|j: int|
                0 <= j < i ==> #[trigger] r@.instrs[j] == ssa.simplified_op(view.instrs[j]),
            forall|j: int| i <= j < view.instrs.len() ==> #[trigger] r@.instrs[j] == view.instrs[j],
            log@ == old(log)@ + seqs::flat(event, i as nat),
        decreases view.instrs.len() - i,
    {
        let ghost before = log@;
        assert(block.instrs@[i as int]@ == view.instrs[i as int]);
        let op: &SsaOp<T> = &block.instrs[i].op;
        if let Some(identity) = find_identity(op, cache) {
            log.record_at(EventKind::ConstantFolded, method, i, identity.make_description());
            if let Some(dest) = op.dest() {
                r.set_op(i, identity.make_op(dest));
            }
        }
        assert(log@ =~= before + event(i as int));
        assert(log@ =~= old(log)@ + seqs::flat(event, (i + 1) as nat));
        i = i + 1;
    }
    assert(r@.instrs =~= view.instrs.map_values(|op: OpView<T>| ssa.simplified_op(op)));
    r
}

/// Simplifies the operations of a function whose result is one of their operands, or a constant.
///
/// Returns whether any operation was rewritten.
pub fn run<T: Target>(ssa: &mut SsaFunction<T>, method: &T::MethodRef, events: &mut EventLog<T>)
    -> (r: bool)
    ensures
        ({
            let outcome = old(ssa)@.algebraically_simplified(*method);
            &&& final(ssa)@ == outcome.ssa
            &&& final(events)@ == old(events)@ + outcome.events
            &&& r == outcome.changed
        }),
{
    let ghost start = ssa@;
    let ghost event = start.identity_events(*method);
    let mut blocks: Vec<SsaBlock<T>> = Vec::new();
    let mut log: EventLog<T> = EventLog::new();
    {
        let cache: DefinitionCache<'_, T> = DefinitionCache::build(ssa);
        let mut b: usize = 0;
        while b < cache.ssa.blocks.len()
            invariant
                cache.wf(),
                cache.ssa@ == start,
                event == start.identity_events(*method),
                b <= start.blocks.len(),
                blocks@.len() == b,
                forall|j: int| 0 <= j < b ==> (#[trigger] blocks@[j])@ == start.simplified_block(j),
                log@ == seqs::flat(event, b as nat),
            decreases start.blocks.len() - b,
        {
            let block: SsaBlock<T> = simplify_block(b, &cache, method, &mut log);
            blocks.push(block);
            b = b + 1;
        }
    }
    ssa.blocks = blocks;
    assert(ssa@.blocks =~= start.algebraically_simplified(*method).ssa.blocks);
    assert(ssa@.vars =~= start.vars);
    let changed: bool = log.len() > 0;
    events.append_all(log);
    changed
}

proof fn lemma_round_trip(x: u64)
    ensures
        meaning::register(meaning::signed(x)) == x,
        meaning::register(x as int) == x,
{
    let m = pointer::modulus(64);
    vstd::arithmetic::div_mod::lemma_small_mod(x as nat, m as nat);
    if meaning::signed(x) != x {
        assert(meaning::signed(x) == x - m);
        vstd::arithmetic::div_mod::lemma_mod_add_multiples_vanish(x - m, m);
        assert((m + (x - m)) % m == (x - m) % m);
    }
}

proof fn lemma_bits(x: u64)
    ensures
        x & 0 == 0,
        0 & x == 0,
        x & x == x,
        x & u64::MAX == x,
        u64::MAX & x == x,
        x | 0 == x,
        0 | x == x,
        x | x == x,
        x | u64::MAX == u64::MAX,
        u64::MAX | x == u64::MAX,
        x ^ 0 == x,
        0 ^ x == x,
        x ^ x == 0,
        x << 0u64 == x,
        x >> 0u64 == x,
{
    assert(x & 0 == 0 && 0 & x == 0 && x & x == x && x & u64::MAX == x && u64::MAX & x == x
        && x | 0 == x && 0 | x == x && x | x == x && x | u64::MAX == u64::MAX && u64::MAX | x
        == u64::MAX && x ^ 0 == x && 0 ^ x == x && x ^ x == 0 && x << 0u64 == x && x >> 0u64
        == x) by (bit_vector);
}

/// What takes the place of an operation computes the same, for all values that the variables can
/// have.
pub proof fn identities_compute_the_same<T: Target>(
    ssa: SsaView<T>,
    op: OpView<T>,
    env: spec_fn(SsaVarId) -> u64,
    args: spec_fn(usize) -> u64,
)
    requires
        ssa.admits(env, args),
    ensures
        ssa.identity(op) is Some ==> op.result() is Some,
        meaning::result(ssa.simplified_op(op), env, args) == meaning::result(op, env, args),
{
    if let Some(identity) = ssa.identity(op) {
        let m = pointer::modulus(64);
        assert(meaning::register(0) == 0 && meaning::register(1) == 1) by {
            lemma_round_trip(0);
            lemma_round_trip(1);
        }
        assert(meaning::register(-1) == u64::MAX) by {
            vstd::arithmetic::div_mod::lemma_mod_add_multiples_vanish(-1, m);
            vstd::arithmetic::div_mod::lemma_small_mod(u64::MAX as nat, m as nat);
        }
        assert(meaning::signed(1) == 1);
        assert(ConstValue::I32(0).number() == Some(0int));
        assert(ConstValue::I32(1).number() == Some(1int));
        match op {
            Op::Add { left, right, .. }
            | Op::Sub { left, right, .. }
            | Op::Mul { left, right, .. }
            | Op::Div { left, right, .. }
            | Op::Rem { left, right, .. }
            | Op::And { left, right, .. }
            | Op::Or { left, right, .. }
            | Op::Xor { left, right, .. } => {
                predicates::lemma_number(ssa, env, args, left);
                predicates::lemma_number(ssa, env, args, right);
                lemma_round_trip(env(left));
                lemma_round_trip(env(right));
                lemma_bits(env(left));
                lemma_bits(env(right));
                let x = env(left) as int;
                let y = env(right) as int;
                assert(x * 0 == 0 && 0 * y == 0 && x * 1 == x && 1 * y == y) by (nonlinear_arith);
                if op is Div || op is Rem {
                    let s = meaning::signed(env(left));
                    assert(meaning::magnitude(s) / 1 == meaning::magnitude(s));
                    assert(meaning::magnitude(s) % 1 == 0);
                    assert(env(left) / 1 == env(left));
                    assert(env(left) % 1 == 0);
                }
            },
            Op::Shl { value, amount, .. } | Op::Shr { value, amount, .. } => {
                predicates::lemma_number(ssa, env, args, amount);
                lemma_round_trip(env(value));
                lemma_bits(env(value));
                vstd::arithmetic::power2::lemma2_to64();
                let e = env(amount) % 64;
                assert(e == 0);
                assert(env(value) << e == env(value));
                assert(env(value) >> e == env(value));
                assert(vstd::arithmetic::power2::pow2(e as nat) == 1);
                let s = meaning::signed(env(value));
                assert(s / vstd::arithmetic::power2::pow2(e as nat) as int == s);
            },
            _ => {},
        }
    }
}

/// Every instruction of the simplified function computes the same into the same variable, goes on to
/// the same block, and the phi nodes are as they were.
pub proof fn simplifying_keeps_results<T: Target>(
    ssa: SsaView<T>,
    method: T::MethodRef,
    b: int,
    i: int,
    env: spec_fn(SsaVarId) -> u64,
    args: spec_fn(usize) -> u64,
)
    requires
        ssa.admits(env, args),
        ssa.has_instr(b, i),
    ensures
        ({
            let next = ssa.algebraically_simplified(method).ssa;
            let was = ssa.blocks[b].instrs[i];
            let now = next.blocks[b].instrs[i];
            &&& next.blocks.len() == ssa.blocks.len()
            &&& next.blocks[b].instrs.len() == ssa.blocks[b].instrs.len()
            &&& next.blocks[b].phis == ssa.blocks[b].phis
            &&& meaning::result(now, env, args) == meaning::result(was, env, args)
            &&& now.result() == was.result()
            &&& now.flags_result() == was.flags_result()
            &&& steps::next_block(now, env) == steps::next_block(was, env)
            &&& steps::acts(now) ==> now == was
            &&& steps::acts(was) && now != was ==> was is Div || was is Rem
        }),
{
    identities_compute_the_same(ssa, ssa.blocks[b].instrs[i], env, args);
}

/// No operation is left whose result one operand or the two being the same already tells.
pub proof fn simplifying_leaves_no_identity<T: Target>(
    ssa: SsaView<T>,
    method: T::MethodRef,
    b: int,
    i: int,
)
    requires
        ssa.has_instr(b, i),
        ssa.blocks[b].instrs[i].flags_result() is None,
    ensures
        match ssa.algebraically_simplified(method).ssa.blocks[b].instrs[i] {
            Op::Add { left, right, .. } => !ssa.is_number(left, 0) && !ssa.is_number(right, 0),
            Op::Sub { left, right, .. } => left != right && !ssa.is_number(right, 0),
            Op::Mul { left, right, .. } => !ssa.is_number(left, 0) && !ssa.is_number(right, 0)
                && !ssa.is_number(left, 1) && !ssa.is_number(right, 1),
            Op::Div { right, .. } => !ssa.is_number(right, 1),
            Op::Rem { right, .. } => !ssa.is_number(right, 1),
            Op::And { left, right, .. } => left != right && !ssa.is_number(left, 0)
                && !ssa.is_number(right, 0) && !ssa.is_number(left, -1) && !ssa.is_number(
                right,
                -1,
            ),
            Op::Or { left, right, .. } => left != right && !ssa.is_number(left, 0)
                && !ssa.is_number(right, 0) && !ssa.is_number(left, -1) && !ssa.is_number(
                right,
                -1,
            ),
            Op::Xor { left, right, .. } => left != right && !ssa.is_number(left, 0)
                && !ssa.is_number(right, 0),
            Op::Shl { amount, .. } => !ssa.is_number(amount, 0),
            Op::Shr { amount, .. } => !ssa.is_number(amount, 0),
            Op::Ceq { left, right, .. } => left != right,
            Op::Clt { left, right, .. } => left != right,
            Op::Cgt { left, right, .. } => left != right,
            _ => true,
        },
{
}

} // verus!
