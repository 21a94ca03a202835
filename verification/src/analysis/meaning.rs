//! What operations compute in 64-bit registers.
use crate::ir::function::SsaView;
use crate::ir::ops::{Op, OpView};
use crate::ir::value::ConstValue;
use crate::ir::variable::SsaVarId;
use crate::pointer;
use crate::target::Target;
use vstd::prelude::*;

verus! {

/// The register that holds a number.
pub open spec fn register(n: int) -> u64 {
    pointer::wrap_unsigned(n, pointer::modulus(64)) as u64
}

/// What a register holds, read as a signed number.
pub open spec fn signed(x: u64) -> int {
    pointer::wrap_signed(x as int, pointer::modulus(64))
}

/// The register that holds a truth value.
pub open spec fn truth(b: bool) -> u64 {
    if b {
        1
    } else {
        0
    }
}

/// The magnitude of a number.
pub open spec fn magnitude(n: int) -> int {
    if n < 0 {
        -n
    } else {
        n
    }
}

/// The quotient of two numbers, rounded toward zero.
pub open spec fn quotient(a: int, b: int) -> int {
    if (a < 0) == (b < 0) {
        magnitude(a) / magnitude(b)
    } else {
        -(magnitude(a) / magnitude(b))
    }
}

/// What the division leaves; it has the sign of the dividend.
pub open spec fn remainder(a: int, b: int) -> int {
    if a < 0 {
        -(magnitude(a) % magnitude(b))
    } else {
        magnitude(a) % magnitude(b)
    }
}

/// `a` comes before `b`, both read as unsigned or as signed numbers.
pub open spec fn less(a: u64, b: u64, unsigned: bool) -> bool {
    if unsigned {
        a < b
    } else {
        signed(a) < signed(b)
    }
}

/// What an operation that only computes makes of its operands and of the arguments; nothing where
/// it divides by zero, and nothing for any other operation.
pub open spec fn result<T: Target, B, A>(
    op: Op<T, B, A>,
    env: spec_fn(SsaVarId) -> u64,
    args: spec_fn(usize) -> u64,
) -> Option<u64> {
    match op {
        Op::Const { value, .. } => match value {
            ConstValue::Null => Some(0u64),
            _ => match value.number() {
                Some(n) => Some(register(n)),
                None => None,
            },
        },
        Op::Copy { src, .. } => Some(env(src)),
        Op::Add { left, right, .. } => Some(register(env(left) + env(right))),
        Op::Sub { left, right, .. } => Some(register(env(left) - env(right))),
        Op::Mul { left, right, .. } => Some(register(env(left) * env(right))),
        Op::Div { left, right, unsigned, .. } => if env(right) == 0 {
            None
        } else if unsigned {
            Some(env(left) / env(right))
        } else {
            Some(register(quotient(signed(env(left)), signed(env(right)))))
        },
        Op::Rem { left, right, unsigned, .. } => if env(right) == 0 {
            None
        } else if unsigned {
            Some(env(left) % env(right))
        } else {
            Some(register(remainder(signed(env(left)), signed(env(right)))))
        },
        Op::And { left, right, .. } => Some(env(left) & env(right)),
        Op::Or { left, right, .. } => Some(env(left) | env(right)),
        Op::Xor { left, right, .. } => Some(env(left) ^ env(right)),
        Op::Shl { value, amount, .. } => Some(env(value) << (env(amount) % 64)),
        Op::Shr { value, amount, unsigned, .. } => if unsigned {
            Some(env(value) >> (env(amount) % 64))
        } else {
            Some(
                register(
                    signed(env(value)) / vstd::arithmetic::power2::pow2(
                        (env(amount) % 64) as nat,
                    ) as int,
                ),
            )
        },
        Op::Neg { operand, .. } => Some(register(-env(operand))),
        Op::Not { operand, .. } => Some(!env(operand)),
        Op::Ceq { left, right, .. } => Some(truth(env(left) == env(right))),
        Op::Clt { left, right, unsigned, .. } => Some(
            truth(less(env(left), env(right), unsigned)),
        ),
        Op::Cgt { left, right, unsigned, .. } => Some(
            truth(less(env(right), env(left), unsigned)),
        ),
        Op::LoadArg { arg_index, .. } => Some(args(arg_index as usize)),
        _ => None,
    }
}

impl<T: Target> SsaView<T> {
    /// The value that `env` gives to `v` is one that its definition can give it.
    pub open spec fn allows(
        self,
        env: spec_fn(SsaVarId) -> u64,
        args: spec_fn(usize) -> u64,
        v: SsaVarId,
    ) -> bool {
        match self.def_op(v) {
            Some(op) => {
                &&& result(op, env, args) matches Some(x) ==> env(v) == x
                &&& op is ArrayLength || op.is_checked_square() ==> signed(env(v)) >= 0
                &&& op is NewObj || op is NewArr || op is Box || op is LoadToken ==> env(v) != 0
            },
            None => true,
        }
    }

    /// Every variable has a value that its definition can give it.
    pub open spec fn admits(
        self,
        env: spec_fn(SsaVarId) -> u64,
        args: spec_fn(usize) -> u64,
    ) -> bool {
        forall|v: SsaVarId| #[trigger] self.allows(env, args, v)
    }
}

/// An operation that reads a variable of equal value in place of another computes the same.
pub proof fn equal_operands_compute_the_same<T: Target>(
    op: OpView<T>,
    v: SsaVarId,
    to: SsaVarId,
    env: spec_fn(SsaVarId) -> u64,
    args: spec_fn(usize) -> u64,
)
    requires
        env(v) == env(to),
    ensures
        result(op.reading(v, to), env, args) == result(op, env, args),
{
}

} // verus!
