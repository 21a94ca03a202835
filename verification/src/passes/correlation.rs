//! Conditions that an earlier branch on the same way decides.
//!
//! Where a branch was taken because `x > 5`, a later test of `x < 3` fails.
use crate::analysis::closure;
use crate::analysis::loops;
use crate::analysis::loops::Dominators;
use crate::analysis::meaning;
use crate::ir::function::{SsaFunction, SsaView};
use crate::ir::ops::Op;
use crate::ir::variable::SsaVarId;
use crate::passes::predicates;
use crate::passes::predicates::DefinitionCache;
use crate::seqs;
use crate::target::Target;
use vstd::prelude::*;

verus! {

/// The signed numbers from `min` to `max`, as values of a variable.
#[derive(Debug, Clone, Copy, PartialEq, Eq, Structural)]
pub struct Span {
    /// The variable.
    pub var: SsaVarId,
    /// The smallest of the numbers.
    pub min: i64,
    /// The largest of the numbers.
    pub max: i64,
}

impl Span {
    /// `n` is one of the numbers.
    pub open spec fn holds(self, n: int) -> bool {
        self.min <= n <= self.max
    }

    /// Whether the variable lies in `inner`, where that is known from its lying in this span
    /// (`inside`) or outside of it.
    pub open spec fn settles(self, inside: bool, inner: Span) -> Option<bool> {
        if self.var != inner.var {
            None
        } else if inside {
            if inner.min <= self.min && self.max <= inner.max {
                Some(true)
            } else if self.max < inner.min || inner.max < self.min {
                Some(false)
            } else {
                None
            }
        } else if self.min <= inner.min && inner.max <= self.max {
            Some(false)
        } else if (self.min == i64::MIN && inner.max == i64::MAX && inner.min <= self.max + 1) || (
        inner.min == i64::MIN && self.max == i64::MAX && self.min <= inner.max + 1) {
            Some(true)
        } else {
            None
        }
    }

    /// Returns whether the variable lies in `inner`, where that is known from its lying in this span
    /// (`inside`) or outside of it.
    #[must_use]
    pub fn compare(self, inside: bool, inner: Span) -> (r: Option<bool>)
        ensures
            r == self.settles(inside, inner),
    {
        if self.var.0 != inner.var.0 {
            return None;
        }
        if inside {
            if inner.min <= self.min && self.max <= inner.max {
                Some(true)
            } else if self.max < inner.min || inner.max < self.min {
                Some(false)
            } else {
                None
            }
        } else if self.min <= inner.min && inner.max <= self.max {
            Some(false)
        } else if (self.min == i64::MIN && inner.max == i64::MAX && (self.max == i64::MAX
            || inner.min <= self.max + 1)) || (inner.min == i64::MIN && self.max == i64::MAX && (
        inner.max == i64::MAX || self.min <= inner.max + 1)) {
            Some(true)
        } else {
            None
        }
    }
}

/// What a span settles holds of every number.
pub proof fn settled_spans_hold(outer: Span, inside: bool, inner: Span, n: i64)
    requires
        outer.settles(inside, inner) is Some,
        outer.holds(n as int) == inside,
    ensures
        outer.settles(inside, inner) == Some(inner.holds(n as int)),
{
}

impl<T: Target> SsaView<T> {
    /// Where `x < y` holds, one of the two being a constant.
    pub open spec fn span_of_less(self, x: SsaVarId, y: SsaVarId) -> Option<Span> {
        match (self.signed_const(x), self.signed_const(y)) {
            (None, Some(n)) => if n > i64::MIN {
                Some(Span { var: x, min: i64::MIN, max: (n - 1) as i64 })
            } else {
                None
            },
            (Some(n), None) => if n < i64::MAX {
                Some(Span { var: y, min: (n + 1) as i64, max: i64::MAX })
            } else {
                None
            },
            _ => None,
        }
    }

    /// The values of a variable for which the signed comparison or the equality that defines `c`
    /// holds.
    pub open spec fn span_of(self, c: SsaVarId) -> Option<Span> {
        match self.def_op(c) {
            Some(Op::Clt { left, right, unsigned, .. }) => if unsigned {
                None
            } else {
                self.span_of_less(left, right)
            },
            Some(Op::Cgt { left, right, unsigned, .. }) => if unsigned {
                None
            } else {
                self.span_of_less(right, left)
            },
            Some(Op::Ceq { left, right, .. }) => match (
                self.signed_const(left),
                self.signed_const(right),
            ) {
                (None, Some(n)) => Some(Span { var: left, min: n, max: n }),
                (Some(n), None) => Some(Span { var: right, min: n, max: n }),
                _ => None,
            },
            _ => None,
        }
    }

    /// What is known of the condition `inner` where the condition `outer` has the given truth
    /// value.
    pub open spec fn follows_from(self, outer: SsaVarId, holds: bool, inner: SsaVarId) -> Option<
        bool,
    > {
        if outer == inner {
            Some(holds)
        } else {
            match (self.span_of(outer), self.span_of(inner)) {
                (Some(a), Some(b)) => a.settles(holds, b),
                _ => None,
            }
        }
    }

    /// Control enters `s` only from `d`, and passes `s` wherever it reaches `b`.
    pub open spec fn is_gate(self, d: usize, s: usize, b: usize) -> bool {
        &&& s != 0
        &&& s < self.blocks.len()
        &&& self.predecessors(s) == seq![d]
        &&& self.dominates(s, b)
    }

    /// The condition on which block `d` branches, and the truth value that it had where control
    /// reaches `b`.
    pub open spec fn taken(self, d: usize, b: usize) -> Option<(SsaVarId, bool)> {
        match self.blocks[d as int].terminator() {
            Some(Op::Branch { condition, true_target, false_target }) => if true_target
                == false_target {
                None
            } else if self.is_gate(d, true_target, b) {
                Some((condition, true))
            } else if self.is_gate(d, false_target, b) {
                Some((condition, false))
            } else {
                None
            },
            _ => None,
        }
    }

    /// What the first of the first `n` blocks whose branch decides it says of `v` in block `b`.
    pub open spec fn correlated(self, b: usize, v: SsaVarId, n: nat) -> Option<bool>
        decreases n,
    {
        if n == 0 {
            None
        } else {
            match self.correlated(b, v, (n - 1) as nat) {
                Some(truth) => Some(truth),
                None => match self.taken((n - 1) as usize, b) {
                    Some((outer, holds)) => self.follows_from(outer, holds, v),
                    None => None,
                },
            }
        }
    }

    /// What the branches on every way to block `b` say of `v`; nothing in a function with exception
    /// handlers, whose blocks are entered in other ways too.
    pub open spec fn known_on_the_way(self, b: usize, v: SsaVarId) -> Option<bool> {
        if self.handlers.len() == 0 {
            self.correlated(b, v, self.blocks.len())
        } else {
            None
        }
    }
}

/// Returns the constant that `v` is defined as.
fn signed_constant<T: Target>(v: SsaVarId, cache: &DefinitionCache<'_, T>) -> (r: Option<i64>)
    requires
        cache.wf(),
    ensures
        r == cache.ssa@.signed_const(v),
{
    match cache.get_constant(v) {
        Some(c) => c.as_i64(),
        None => None,
    }
}

fn find_span_of_less<T: Target>(x: SsaVarId, y: SsaVarId, cache: &DefinitionCache<'_, T>) -> (r:
    Option<Span>)
    requires
        cache.wf(),
    ensures
        r == cache.ssa@.span_of_less(x, y),
{
    match (signed_constant(x, cache), signed_constant(y, cache)) {
        (None, Some(n)) => if n > i64::MIN {
            Some(Span { var: x, min: i64::MIN, max: n - 1 })
        } else {
            None
        },
        (Some(n), None) => if n < i64::MAX {
            Some(Span { var: y, min: n + 1, max: i64::MAX })
        } else {
            None
        },
        _ => None,
    }
}

/// Returns the values of a variable for which the comparison that defines `c` holds.
pub fn find_span<T: Target>(c: SsaVarId, cache: &DefinitionCache<'_, T>) -> (r: Option<Span>)
    requires
        cache.wf(),
    ensures
        r == cache.ssa@.span_of(c),
{
    match cache.get_definition(c) {
        Some(Op::Clt { left, right, unsigned, .. }) => if *unsigned {
            None
        } else {
            find_span_of_less(*left, *right, cache)
        },
        Some(Op::Cgt { left, right, unsigned, .. }) => if *unsigned {
            None
        } else {
            find_span_of_less(*right, *left, cache)
        },
        Some(Op::Ceq { left, right, .. }) => match (
            signed_constant(*left, cache),
            signed_constant(*right, cache),
        ) {
            (None, Some(n)) => Some(Span { var: *left, min: n, max: n }),
            (Some(n), None) => Some(Span { var: *right, min: n, max: n }),
            _ => None,
        },
        _ => None,
    }
}

fn infer<T: Target>(
    outer: SsaVarId,
    holds: bool,
    inner: SsaVarId,
    cache: &DefinitionCache<'_, T>,
) -> (r: Option<bool>)
    requires
        cache.wf(),
    ensures
        r == cache.ssa@.follows_from(outer, holds, inner),
{
    if outer.0 == inner.0 {
        return Some(holds);
    }
    match (find_span(outer, cache), find_span(inner, cache)) {
        (Some(a), Some(b)) => a.compare(holds, b),
        _ => None,
    }
}

fn check_gate<T: Target>(
    ssa: &SsaFunction<T>,
    dominators: &Dominators,
    d: usize,
    s: usize,
    b: usize,
) -> (r: bool)
    requires
        dominators.describes(ssa@),
        b < ssa@.blocks.len(),
    ensures
        r == ssa@.is_gate(d, s, b),
{
    if s == 0 || !dominators.check(ssa, s, b) {
        return false;
    }
    let list: Vec<usize> = ssa.block_predecessors(s);
    let only: bool = list.len() == 1 && list[0] == d;
    proof {
        if only {
            assert(list@ =~= seq![d]);
        }
    }
    only
}

/// Returns what the branches on every way to block `b` say of `v`.
pub fn find_on_the_way<T: Target>(
    b: usize,
    v: SsaVarId,
    cache: &DefinitionCache<'_, T>,
    dominators: &Dominators,
) -> (r: Option<bool>)
    requires
        cache.wf(),
        dominators.describes(cache.ssa@),
        b < cache.ssa@.blocks.len(),
    ensures
        r == cache.ssa@.known_on_the_way(b, v),
{
    let ssa: &SsaFunction<T> = cache.ssa;
    if ssa.handlers.len() > 0 {
        return None;
    }
    let mut r: Option<bool> = None;
    let mut d: usize = 0;
    while d < ssa.blocks.len()
        invariant
            cache.wf(),
            ssa == cache.ssa,
            dominators.describes(ssa@),
            b < ssa@.blocks.len(),
            d <= ssa@.blocks.len(),
            r == ssa@.correlated(b, v, d as nat),
        decreases ssa@.blocks.len() - d,
    {
        assert(ssa.blocks@[d as int]@ == ssa@.blocks[d as int]);
        if r.is_none() {
            if let Some(Op::Branch { condition, true_target, false_target }) =
                ssa.blocks[d].terminator_op() {
                if *true_target != *false_target {
                    if check_gate(ssa, dominators, d, *true_target, b) {
                        r = infer(*condition, true, v, cache);
                    } else if check_gate(ssa, dominators, d, *false_target, b) {
                        r = infer(*condition, false, v, cache);
                    }
                }
            }
        }
        d = d + 1;
    }
    r
}

proof fn lemma_span<T: Target>(
    ssa: SsaView<T>,
    c: SsaVarId,
    env: spec_fn(SsaVarId) -> u64,
    args: spec_fn(usize) -> u64,
)
    requires
        ssa.admits(env, args),
        ssa.span_of(c) is Some,
    ensures
        (env(c) != 0) == ssa.span_of(c).unwrap().holds(
            meaning::signed(env(ssa.span_of(c).unwrap().var)),
        ),
{
    assert(ssa.allows(env, args, c));
    match ssa.def_op(c) {
        Some(Op::Clt { left, right, .. })
        | Some(Op::Cgt { left, right, .. })
        | Some(Op::Ceq { left, right, .. }) => {
            predicates::lemma_number(ssa, env, args, left);
            predicates::lemma_number(ssa, env, args, right);
        },
        _ => {},
    }
}

/// What follows from the truth value of one condition holds of another, for all values that the
/// variables can have.
pub proof fn correlated_conditions_hold<T: Target>(
    ssa: SsaView<T>,
    outer: SsaVarId,
    inner: SsaVarId,
    env: spec_fn(SsaVarId) -> u64,
    args: spec_fn(usize) -> u64,
)
    requires
        ssa.admits(env, args),
        ssa.follows_from(outer, env(outer) != 0, inner) is Some,
    ensures
        ssa.follows_from(outer, env(outer) != 0, inner) == Some(env(inner) != 0),
{
    if outer != inner {
        lemma_span(ssa, outer, env, args);
        lemma_span(ssa, inner, env, args);
        let n = meaning::signed(env(ssa.span_of(outer).unwrap().var));
        settled_spans_hold(
            ssa.span_of(outer).unwrap(),
            env(outer) != 0,
            ssa.span_of(inner).unwrap(),
            n as i64,
        );
    }
}

/// Every way from the entry to `b` takes the step from `d` to `s`, where `s` is a gate for `b`.
pub proof fn gates_are_passed<T: Target>(
    ssa: SsaView<T>,
    d: usize,
    s: usize,
    b: usize,
    way: Seq<usize>,
) -> (k: int)
    requires
        ssa.is_gate(d, s, b),
        closure::is_walk(ssa.blocks.len(), seq![0usize], ssa.edges(), way),
        way.last() == b,
    ensures
        0 <= k < way.len() - 1,
        way[k] == d,
        way[k + 1] == s,
{
    let n = ssa.blocks.len();
    loops::dominators_are_passed(ssa, s, b, way);
    let j = choose|j: int| 0 <= j < way.len() && way[j] == s;
    assert(seq![0usize].contains(way[0]));
    assert(j > 0);
    assert(ssa.edges().contains((way[j - 1], way[j])));
    let a = seqs::lemma_flat_source(ssa.edges_from(), n, (way[j - 1], way[j]));
    let successors = ssa.blocks[a].successors();
    let m = choose|m: int|
        0 <= m < successors.len() && (a as usize, successors[m]) == (way[j - 1], way[j]);
    assert(successors[m] == s);
    assert((ssa.enters(s))(a) == seq![a as usize]);
    assert(seq![a as usize][0] == a as usize);
    seqs::lemma_flat_contains(ssa.enters(s), n, a, a as usize);
    assert(ssa.predecessors(s).contains(a as usize));
    j - 1
}

} // verus!
