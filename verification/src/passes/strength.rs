//! Strength reduction: expensive operations become cheaper ones.
//!
//! A multiplication by a power of two becomes a left shift, a division a right shift, and a
//! remainder a conjunction with a mask. Signed divisions and remainders are rewritten only where
//! the dividend is known not to be negative: a signed division rounds towards zero, an arithmetic
//! shift towards negative infinity.
use crate::analysis::meaning;
use crate::events::{EventKind, EventLog, EventView};
use crate::ir::function::{SsaFunction, SsaView};
use crate::ir::ops::{Op, OpView, SsaOp};
use crate::ir::value::{ArithKind, ConstValue};
use crate::ir::variable::SsaVarId;
use crate::passes::outcome::Outcome;
use crate::passes::predicates::DefinitionCache;
use crate::passes::utils::is_power_of_two;
use crate::pointer;
use crate::target::Target;
use crate::text;
use vstd::prelude::*;
use vstd::string::StringExecFns;

verus! {

/// What an operation by a power of two is reduced to.
#[derive(Debug, Clone, Copy, PartialEq, Eq, Structural)]
pub enum Reduction {
    /// A multiplication becomes a left shift.
    Shift,
    /// A division becomes a right shift.
    Divide { unsigned: bool },
    /// A remainder becomes a conjunction.
    Mask { unsigned: bool },
}

/// An opportunity: the operation at `place` on `value_var` and the constant `2^exponent`.
#[derive(Debug, Clone, Copy, PartialEq, Eq)]
pub struct ReductionCandidate {
    /// Block and index of the operation.
    pub place: (usize, usize),
    /// Result of the operation.
    pub dest: SsaVarId,
    /// The operand that is not the constant.
    pub value_var: SsaVarId,
    /// The variable that holds the constant.
    pub const_var: SsaVarId,
    /// Block and index of the instruction that loads the constant.
    pub const_place: (usize, usize),
    /// The constant.
    pub value: i64,
    /// Its exponent.
    pub exponent: u8,
    /// What the operation is reduced to.
    pub reduction: Reduction,
}

/// A power of two and its exponent.
pub open spec fn power(value: i64) -> Option<u8> {
    if exists|e: u8| e < 63 && value == #[trigger] vstd::arithmetic::power2::pow2(e as nat) {
        Some(
            choose|e: u8| e < 63 && value == #[trigger] vstd::arithmetic::power2::pow2(e as nat),
        )
    } else {
        None
    }
}

impl ReductionCandidate {
    /// The constant in place of the power: the exponent, or the mask, in 32 bits where it fits.
    pub open spec fn new_const(self) -> ConstValue {
        match self.reduction {
            Reduction::Mask { .. } => if self.value - 1 <= i32::MAX {
                ConstValue::I32((self.value - 1) as i32)
            } else {
                ConstValue::I64((self.value - 1) as i64)
            },
            _ => ConstValue::I32(self.exponent as i32),
        }
    }

    /// The cheaper operation.
    pub open spec fn new_op<T: Target>(self) -> OpView<T> {
        match self.reduction {
            Reduction::Shift => Op::Shl {
                dest: self.dest,
                value: self.value_var,
                amount: self.const_var,
                flags: None,
            },
            Reduction::Divide { unsigned } => Op::Shr {
                dest: self.dest,
                value: self.value_var,
                amount: self.const_var,
                unsigned,
                flags: None,
            },
            Reduction::Mask { .. } => Op::And {
                dest: self.dest,
                left: self.value_var,
                right: self.const_var,
                flags: None,
            },
        }
    }

    /// What was done.
    pub open spec fn description(self) -> Seq<char> {
        let value = text::signed_decimal(self.value as int);
        let exponent = text::decimal(self.exponent as nat);
        let mask = text::signed_decimal(self.value - 1);
        match self.reduction {
            Reduction::Shift => "mul x, "@ + value + " → shl x, "@ + exponent,
            Reduction::Divide { unsigned: true } => "div.un x, "@ + value + " → shr.un x, "@
                + exponent,
            Reduction::Divide { unsigned: false } => "div x, "@ + value + " → shr x, "@ + exponent
                + " (x >= 0)"@,
            Reduction::Mask { unsigned: true } => "rem.un x, "@ + value + " → and x, "@ + mask,
            Reduction::Mask { unsigned: false } => "rem x, "@ + value + " → and x, "@ + mask
                + " (x >= 0)"@,
        }
    }

    /// Returns the constant in place of the power.
    fn make_const(&self) -> (r: ConstValue)
        requires
            self.value > 0,
        ensures
            r == self.new_const(),
    {
        match self.reduction {
            Reduction::Mask { .. } => {
                let mask: i64 = self.value - 1;
                if mask <= 0x7fff_ffff {
                    ConstValue::I32(mask as i32)
                } else {
                    ConstValue::I64(mask)
                }
            },
            _ => ConstValue::I32(self.exponent as i32),
        }
    }

    /// Returns the cheaper operation.
    fn make_op<T: Target>(&self) -> (r: SsaOp<T>)
        ensures
            r@ == self.new_op::<T>(),
    {
        match self.reduction {
            Reduction::Shift => Op::Shl {
                dest: self.dest,
                value: self.value_var,
                amount: self.const_var,
                flags: None,
            },
            Reduction::Divide { unsigned } => Op::Shr {
                dest: self.dest,
                value: self.value_var,
                amount: self.const_var,
                unsigned,
                flags: None,
            },
            Reduction::Mask { .. } => Op::And {
                dest: self.dest,
                left: self.value_var,
                right: self.const_var,
                flags: None,
            },
        }
    }

    /// Returns what was done.
    fn make_description(&self) -> (r: String)
        requires
            self.value > 0,
        ensures
            r@ == self.description(),
    {
        let (before, between, after) = match self.reduction {
            Reduction::Shift => ("mul x, ", " → shl x, ", None),
            Reduction::Divide { unsigned } => if unsigned {
                ("div.un x, ", " → shr.un x, ", None)
            } else {
                ("div x, ", " → shr x, ", Some(" (x >= 0)"))
            },
            Reduction::Mask { unsigned } => if unsigned {
                ("rem.un x, ", " → and x, ", None)
            } else {
                ("rem x, ", " → and x, ", Some(" (x >= 0)"))
            },
        };
        let mut r: String = String::from_str(before);
        text::push_signed(&mut r, self.value);
        r.append(between);
        match self.reduction {
            Reduction::Mask { .. } => {
                text::push_signed(&mut r, self.value - 1);
            },
            _ => {
                text::push_decimal(&mut r, self.exponent as u64);
            },
        }
        if let Some(tail) = after {
            r.append(tail);
        }
        r
    }
}

/// An earlier opportunity changes the constant in `v`.
pub open spec fn claimed(earlier: Seq<ReductionCandidate>, v: SsaVarId) -> bool {
    exists|k: int| 0 <= k < earlier.len() && (#[trigger] earlier[k]).const_var == v
}

impl<T: Target> SsaView<T> {
    /// The opportunity of an operation with the constant in `const_var`.
    ///
    /// The constant must be a power of two that nothing else reads and no earlier opportunity
    /// changes.
    pub open spec fn reduction_by(
        self,
        place: (usize, usize),
        dest: SsaVarId,
        value_var: SsaVarId,
        const_var: SsaVarId,
        reduction: Reduction,
        earlier: Seq<ReductionCandidate>,
    ) -> Option<ReductionCandidate> {
        match (self.definition(const_var), self.signed_const(const_var)) {
            (Some((cb, ci)), Some(value)) => match power(value) {
                Some(exponent) => if self.use_count(const_var) == 1 && !claimed(
                    earlier,
                    const_var,
                ) {
                    Some(
                        ReductionCandidate {
                            place,
                            dest,
                            value_var,
                            const_var,
                            const_place: (cb as usize, ci as usize),
                            value,
                            exponent,
                            reduction,
                        },
                    )
                } else {
                    None
                },
                None => None,
            },
            _ => None,
        }
    }

    /// The opportunity at a place, given earlier ones; `told` is what was said of the dividend.
    pub open spec fn reduction_at(
        self,
        place: (usize, usize),
        told: bool,
        earlier: Seq<ReductionCandidate>,
    ) -> Option<ReductionCandidate> {
        match self.blocks[place.0 as int].instrs[place.1 as int] {
            Op::Mul { dest, left, right, .. } => match self.reduction_by(
                place,
                dest,
                left,
                right,
                Reduction::Shift,
                earlier,
            ) {
                Some(c) => Some(c),
                None => self.reduction_by(place, dest, right, left, Reduction::Shift, earlier),
            },
            Op::Div { dest, left, right, unsigned, .. } => if unsigned || told {
                self.reduction_by(
                    place,
                    dest,
                    left,
                    right,
                    Reduction::Divide { unsigned },
                    earlier,
                )
            } else {
                None
            },
            Op::Rem { dest, left, right, unsigned, .. } => if unsigned || told {
                self.reduction_by(
                    place,
                    dest,
                    left,
                    right,
                    Reduction::Mask { unsigned },
                    earlier,
                )
            } else {
                None
            },
            _ => None,
        }
    }

    /// The opportunities among the first `n` of `places`; `told` is what was said of the dividend at
    /// each.
    pub open spec fn reductions(
        self,
        places: Seq<(usize, usize)>,
        told: Seq<bool>,
        n: nat,
    ) -> Seq<ReductionCandidate>
        decreases n,
    {
        if n == 0 {
            Seq::empty()
        } else {
            let earlier = self.reductions(places, told, (n - 1) as nat);
            match self.reduction_at(places[n - 1], told[n - 1], earlier) {
                Some(c) => earlier.push(c),
                None => earlier,
            }
        }
    }

    /// The function after the first `n` opportunities are taken.
    pub open spec fn with_reductions(self, candidates: Seq<ReductionCandidate>, n: nat) -> SsaView<T>
        decreases n,
    {
        if n == 0 {
            self
        } else {
            let c = candidates[n - 1];
            self.with_reductions(candidates, (n - 1) as nat).with_op(
                c.const_place.0 as int,
                c.const_place.1 as int,
                Op::Const { dest: c.const_var, value: c.new_const() },
            ).with_op(c.place.0 as int, c.place.1 as int, c.new_op())
        }
    }

    /// What the pass makes of the function, given what was said of the dividend at each place.
    pub open spec fn strength_reduced(self, method: T::MethodRef, told: Seq<bool>) -> Outcome<T> {
        let candidates = self.reductions(self.places(), told, self.places().len());
        Outcome {
            ssa: self.with_reductions(candidates, candidates.len()),
            events: candidates.map_values(
                |c: ReductionCandidate|
                    EventView::<T>::at(
                        EventKind::StrengthReduced,
                        method,
                        c.place.1 as int,
                        c.description(),
                    ),
            ),
            changed: candidates.len() > 0,
        }
    }
}

impl<T: Target> SsaView<T> {
    /// The dividend of the signed division or remainder at a place.
    pub open spec fn signed_dividend(self, place: (usize, usize)) -> Option<SsaVarId> {
        match self.blocks[place.0 as int].instrs[place.1 as int] {
            Op::Div { left, unsigned: false, .. } => Some(left),
            Op::Rem { left, unsigned: false, .. } => Some(left),
            _ => None,
        }
    }
}

/// A predicate can be asked about the dividend of every signed division and remainder.
pub open spec fn can_be_asked<T: Target, F: Fn(SsaVarId) -> bool>(ssa: SsaView<T>, f: F) -> bool {
    forall|b: usize, i: usize|
        ssa.has_instr(b as int, i as int) && #[trigger] ssa.signed_dividend((b, i)) is Some
            ==> call_requires(f, (ssa.signed_dividend((b, i)).unwrap(),))
}

/// What a predicate may have said at a place: of a signed dividend one of its answers, and nothing
/// of anything else.
pub open spec fn may_say<T: Target, F: Fn(SsaVarId) -> bool>(
    ssa: SsaView<T>,
    f: F,
    place: (usize, usize),
    said: bool,
) -> bool {
    match ssa.signed_dividend(place) {
        Some(v) => call_ensures(f, (v,), said),
        None => !said,
    }
}

/// `told` lists for each place an answer that the predicate gave there.
pub open spec fn was_told<T: Target, F: Fn(SsaVarId) -> bool>(
    ssa: SsaView<T>,
    f: F,
    told: Seq<bool>,
) -> bool {
    &&& told.len() == ssa.places().len()
    &&& forall|k: int| 0 <= k < told.len() ==> may_say(ssa, f, ssa.places()[k], #[trigger] told[k])
}

/// Computes [`power`].
fn find_power(value: i64) -> (r: Option<u8>)
    ensures
        r == power(value),
        r is Some ==> value > 0,
{
    let r: Option<u8> = is_power_of_two(value);
    proof {
        if let Some(e) = r {
            assert(e < 63 && value == vstd::arithmetic::power2::pow2(e as nat));
            vstd::arithmetic::power2::lemma_pow2_pos(e as nat);
            let f = choose|f: u8|
                f < 63 && value == #[trigger] vstd::arithmetic::power2::pow2(f as nat);
            if f < e {
                vstd::arithmetic::power2::lemma_pow2_strictly_increases(f as nat, e as nat);
            } else if e < f {
                vstd::arithmetic::power2::lemma_pow2_strictly_increases(e as nat, f as nat);
            }
        }
    }
    r
}

/// Finds opportunities, remembering the constants that earlier ones change.
struct ReductionChecker<'a, T: Target> {
    cache: DefinitionCache<'a, T>,
    used_constants: Vec<bool>,
    found: Vec<ReductionCandidate>,
}

impl<'a, T: Target> ReductionChecker<'a, T> {
    /// The opportunities found name instructions of the function, and their constants are noted.
    spec fn wf(&self) -> bool {
        &&& self.cache.wf()
        &&& self.used_constants@.len() == self.cache.ssa@.vars.len()
        &&& forall|v: int|
            0 <= v < self.used_constants@.len() ==> #[trigger] self.used_constants@[v] == claimed(
                self.found@,
                SsaVarId(v as usize),
            )
        &&& forall|k: int|
            0 <= k < self.found@.len() ==> valid_candidate(
                #[trigger] self.found@[k],
                self.cache.ssa@,
            )
    }

    /// Returns the opportunity of an operation with the constant in `const_var`.
    fn try_reduction(
        &self,
        place: (usize, usize),
        dest: SsaVarId,
        value_var: SsaVarId,
        const_var: SsaVarId,
        reduction: Reduction,
    ) -> (r: Option<ReductionCandidate>)
        requires
            self.wf(),
            self.cache.ssa@.has_instr(place.0 as int, place.1 as int),
        ensures
            r == self.cache.ssa@.reduction_by(
                place,
                dest,
                value_var,
                const_var,
                reduction,
                self.found@,
            ),
            r matches Some(c) ==> valid_candidate(c, self.cache.ssa@),
    {
        let const_place: (usize, usize) = match self.cache.index.full_definition(
            self.cache.ssa,
            const_var,
        ) {
            Some(found) => found,
            None => return None,
        };
        let value: i64 = match self.cache.get_constant(const_var) {
            Some(c) => match c.as_i64() {
                Some(v) => v,
                None => return None,
            },
            None => return None,
        };
        let exponent: u8 = match find_power(value) {
            Some(e) => e,
            None => return None,
        };
        if self.cache.index.use_count(self.cache.ssa, const_var) != 1 {
            return None;
        }
        if self.used_constants[const_var.0] {
            return None;
        }
        Some(
            ReductionCandidate {
                place,
                dest,
                value_var,
                const_var,
                const_place,
                value,
                exponent,
                reduction,
            },
        )
    }

    /// Returns the opportunity at a place, and what the predicate said of the dividend there.
    fn check_reduction<F: Fn(SsaVarId) -> bool>(&self, place: (usize, usize), is_non_negative: &F)
        -> (r: (Option<ReductionCandidate>, bool))
        requires
            self.wf(),
            self.cache.ssa@.has_instr(place.0 as int, place.1 as int),
            can_be_asked(self.cache.ssa@, *is_non_negative),
        ensures
            may_say(self.cache.ssa@, *is_non_negative, place, r.1),
            r.0 == self.cache.ssa@.reduction_at(place, r.1, self.found@),
            r.0 matches Some(c) ==> valid_candidate(c, self.cache.ssa@),
    {
        let op: &SsaOp<T> = &self.cache.ssa.blocks[place.0].instrs[place.1].op;
        assert(op@ == self.cache.ssa@.blocks[place.0 as int].instrs[place.1 as int]);
        assert(self.cache.ssa@.signed_dividend((place.0, place.1)) is Some ==> call_requires(
            is_non_negative,
            (self.cache.ssa@.signed_dividend(place).unwrap(),),
        ));
        match op {
            Op::Mul { dest, left, right, .. } => {
                match self.try_reduction(place, *dest, *left, *right, Reduction::Shift) {
                    Some(c) => (Some(c), false),
                    None => (
                        self.try_reduction(place, *dest, *right, *left, Reduction::Shift),
                        false,
                    ),
                }
            },
            Op::Div { dest, left, right, unsigned, .. } => {
                let told: bool = !*unsigned && is_non_negative(*left);
                let found: Option<ReductionCandidate> = if *unsigned || told {
                    self.try_reduction(
                        place,
                        *dest,
                        *left,
                        *right,
                        Reduction::Divide { unsigned: *unsigned },
                    )
                } else {
                    None
                };
                (found, told)
            },
            Op::Rem { dest, left, right, unsigned, .. } => {
                let told: bool = !*unsigned && is_non_negative(*left);
                let found: Option<ReductionCandidate> = if *unsigned || told {
                    self.try_reduction(
                        place,
                        *dest,
                        *left,
                        *right,
                        Reduction::Mask { unsigned: *unsigned },
                    )
                } else {
                    None
                };
                (found, told)
            },
            _ => (None, false),
        }
    }
}

/// The opportunity names instructions of the function, and a positive constant.
pub open spec fn valid_candidate<T: Target>(c: ReductionCandidate, ssa: SsaView<T>) -> bool {
    &&& ssa.has_instr(c.place.0 as int, c.place.1 as int)
    &&& ssa.has_instr(c.const_place.0 as int, c.const_place.1 as int)
    &&& c.value > 0
    &&& c.const_var.0 < ssa.vars.len()
}

/// Returns the opportunities of a function, in program order, and what the predicate said at each
/// place.
fn find_candidates<T: Target, F: Fn(SsaVarId) -> bool>(
    ssa: &SsaFunction<T>,
    is_non_negative: &F,
) -> (r: (Vec<ReductionCandidate>, Ghost<Seq<bool>>))
    requires
        can_be_asked(ssa@, *is_non_negative),
    ensures
        was_told(ssa@, *is_non_negative, r.1@),
        r.0@ == ssa@.reductions(ssa@.places(), r.1@, ssa@.places().len()),
        forall|k: int| 0 <= k < r.0@.len() ==> valid_candidate(#[trigger] r.0@[k], ssa@),
{
    let mut used_constants: Vec<bool> = Vec::new();
    let n: usize = ssa.var_id_capacity();
    let mut v: usize = 0;
    while v < n
        invariant
            v <= n,
            used_constants@.len() == v,
            forall|j: int| 0 <= j < v ==> !#[trigger] used_constants@[j],
        decreases n - v,
    {
        used_constants.push(false);
        v = v + 1;
    }
    let mut checker: ReductionChecker<'_, T> = ReductionChecker {
        cache: DefinitionCache::build(ssa),
        used_constants,
        found: Vec::new(),
    };
    let places: Vec<(usize, usize)> = ssa.instruction_places();
    let ghost mut told: Seq<bool> = Seq::empty();
    let mut k: usize = 0;
    while k < places.len()
        invariant
            k <= places@.len(),
            places@ == ssa@.places(),
            can_be_asked(ssa@, *is_non_negative),
            told.len() == k,
            forall|j: int|
                0 <= j < k ==> may_say(ssa@, *is_non_negative, places@[j], #[trigger] told[j]),
            checker.wf(),
            checker.cache.ssa == ssa,
            forall|j: int|
                0 <= j < places@.len() ==> ssa@.has_instr(
                    (#[trigger] places@[j]).0 as int,
                    places@[j].1 as int,
                ),
            checker.found@ == ssa@.reductions(places@, told, k as nat),
        decreases places@.len() - k,
    {
        let place: (usize, usize) = places[k];
        assert(place == places@[k as int]);
        let (candidate, said): (Option<ReductionCandidate>, bool) = checker.check_reduction(
            place,
            is_non_negative,
        );
        proof {
            lemma_told_more(ssa@, places@, told, said, k as nat);
            told = told.push(said);
        }
        if let Some(c) = candidate {
            let ghost before = checker.found@;
            let ghost noted = checker.used_constants@;
            checker.used_constants.set(c.const_var.0, true);
            checker.found.push(c);
            proof {
                assert forall|v: int| 0 <= v < noted.len() implies #[trigger]
                    checker.used_constants@[v] == claimed(
                    checker.found@,
                    SsaVarId(v as usize),
                ) by {
                    let w = SsaVarId(v as usize);
                    assert(noted[v] == claimed(before, w));
                    if claimed(before, w) {
                        let k = choose|k: int|
                            0 <= k < before.len() && (#[trigger] before[k]).const_var == w;
                        assert(checker.found@[k].const_var == w);
                    }
                    if claimed(checker.found@, w) && w != c.const_var {
                        let k = choose|k: int|
                            0 <= k < checker.found@.len() && (
                            #[trigger] checker.found@[k]).const_var == w;
                        assert(before[k].const_var == w);
                    }
                    assert(checker.found@[before.len() as int].const_var == c.const_var);
                }
            }
        }
        k = k + 1;
    }
    (checker.found, Ghost(told))
}

proof fn lemma_told_more<T: Target>(
    ssa: SsaView<T>,
    places: Seq<(usize, usize)>,
    told: Seq<bool>,
    said: bool,
    n: nat,
)
    requires
        n <= told.len(),
    ensures
        ssa.reductions(places, told.push(said), n) == ssa.reductions(places, told, n),
    decreases n,
{
    if n > 0 {
        lemma_told_more(ssa, places, told, said, (n - 1) as nat);
    }
}

/// Takes the opportunities in order.
fn apply_reductions<T: Target>(
    ssa: &mut SsaFunction<T>,
    candidates: &Vec<ReductionCandidate>,
    method: &T::MethodRef,
    events: &mut EventLog<T>,
)
    requires
        forall|k: int|
            0 <= k < candidates@.len() ==> valid_candidate(#[trigger] candidates@[k], old(ssa)@),
    ensures
        final(ssa)@ == old(ssa)@.with_reductions(candidates@, candidates@.len()),
        final(events)@ == old(events)@ + candidates@.map_values(
            |c: ReductionCandidate|
                EventView::<T>::at(
                    EventKind::StrengthReduced,
                    *method,
                    c.place.1 as int,
                    c.description(),
                ),
        ),
{
    let ghost reports = candidates@.map_values(
        |c: ReductionCandidate|
            EventView::<T>::at(
                EventKind::StrengthReduced,
                *method,
                c.place.1 as int,
                c.description(),
            ),
    );
    let mut k: usize = 0;
    while k < candidates.len()
        invariant
            k <= candidates@.len(),
            reports.len() == candidates@.len(),
            forall|j: int|
                0 <= j < reports.len() ==> #[trigger] reports[j] == EventView::<T>::at(
                    EventKind::StrengthReduced,
                    *method,
                    candidates@[j].place.1 as int,
                    candidates@[j].description(),
                ),
            forall|j: int|
                0 <= j < candidates@.len() ==> valid_candidate(
                    #[trigger] candidates@[j],
                    old(ssa)@,
                ),
            ssa@.same_shape(old(ssa)@),
            ssa@ == old(ssa)@.with_reductions(candidates@, k as nat),
            events@ =~= old(events)@ + reports.take(k as int),
        decreases candidates@.len() - k,
    {
        let c: ReductionCandidate = candidates[k];
        assert(valid_candidate(candidates@[k as int], old(ssa)@));
        assert(ssa@.blocks[c.place.0 as int].instrs.len() == old(
            ssa,
        )@.blocks[c.place.0 as int].instrs.len());
        assert(ssa@.blocks[c.const_place.0 as int].instrs.len() == old(
            ssa,
        )@.blocks[c.const_place.0 as int].instrs.len());
        ssa.set_op(
            c.const_place.0,
            c.const_place.1,
            Op::Const { dest: c.const_var, value: c.make_const() },
        );
        ssa.set_op(c.place.0, c.place.1, c.make_op());
        let message: String = c.make_description();
        events.record_at(EventKind::StrengthReduced, method, c.place.1, message);
        k = k + 1;
    }
    assert(reports.take(k as int) =~= reports);
}

/// Reduces the strength of the operations of a function.
///
/// `is_non_negative` tells of which variables it is known that they are not negative. Returns
/// whether any operation was rewritten.
pub fn run<T: Target, F: Fn(SsaVarId) -> bool>(
    ssa: &mut SsaFunction<T>,
    method: &T::MethodRef,
    events: &mut EventLog<T>,
    is_non_negative: &F,
) -> (r: bool)
    requires
        can_be_asked(old(ssa)@, *is_non_negative),
    ensures
        exists|told: Seq<bool>| #[trigger]
            was_told(old(ssa)@, *is_non_negative, told) && {
                let outcome = old(ssa)@.strength_reduced(*method, told);
                &&& final(ssa)@ == outcome.ssa
                &&& final(events)@ == old(events)@ + outcome.events
                &&& r == outcome.changed
            },
{
    let (candidates, told): (Vec<ReductionCandidate>, Ghost<Seq<bool>>) = find_candidates(
        ssa,
        is_non_negative,
    );
    assert(was_told(old(ssa)@, *is_non_negative, told@));
    apply_reductions(ssa, &candidates, method, events);
    candidates.len() > 0
}

proof fn lemma_shl_is_wrapping_mul(x: u64, e: u64)
    requires
        e < 64,
    ensures
        x << e == pointer::wrap_unsigned(
            x * vstd::arithmetic::power2::pow2(e as nat),
            pointer::modulus(64),
        ),
    decreases e,
{
    let m = pointer::modulus(64);
    if e == 0 {
        vstd::arithmetic::power2::lemma2_to64();
        assert(x << 0u64 == x) by (bit_vector);
        vstd::arithmetic::div_mod::lemma_small_mod(x as nat, m as nat);
    } else {
        let d: u64 = (e - 1) as u64;
        lemma_shl_is_wrapping_mul(x, d);
        let p: u64 = x << d;
        assert(p << 1u64 == x << e) by (bit_vector)
            requires
                p == x << d,
                d < 63,
                e == d + 1,
        ;
        assert(p << 1u64 == (p * 2) % 0x1_0000_0000_0000_0000) by (bit_vector);
        let y = x * vstd::arithmetic::power2::pow2(d as nat);
        vstd::arithmetic::power2::lemma_pow2_unfold(e as nat);
        assert(x * vstd::arithmetic::power2::pow2(e as nat) == y * 2) by (nonlinear_arith)
            requires
                vstd::arithmetic::power2::pow2(e as nat) == 2
                    * vstd::arithmetic::power2::pow2(d as nat),
                y == x * vstd::arithmetic::power2::pow2(d as nat),
        ;
        vstd::arithmetic::div_mod::lemma_mul_mod_noop_left(y, 2, m);
    }
}

/// In 64-bit registers the cheaper operation computes what the expensive one does: a left shift by
/// `e` multiplies by `2^e`, a right shift divides by it, and the mask keeps the remainder. On
/// values that are not negative this holds of the signed operations too.
pub proof fn reduction_computes_the_same(x: u64, e: u8)
    requires
        e < 63,
    ensures
        x << (e as u64) == ArithKind::Mul.on_u64(
            x,
            vstd::arithmetic::power2::pow2(e as nat) as u64,
        ),
        x >> (e as u64) == x as nat / vstd::arithmetic::power2::pow2(e as nat),
        x & ((vstd::arithmetic::power2::pow2(e as nat) - 1) as u64) == x as nat
            % vstd::arithmetic::power2::pow2(e as nat),
{
    vstd::bits::lemma_u64_pow2_no_overflow(e as nat);
    lemma_shl_is_wrapping_mul(x, e as u64);
    vstd::bits::lemma_u64_shr_is_div(x, e as u64);
    vstd::bits::lemma_u64_low_bits_mask_is_mod(x, e as nat);
}

impl ReductionCandidate {
    /// `op` is the operation that is reduced: it takes the value and the power.
    pub open spec fn reduces<T: Target>(self, op: OpView<T>) -> bool {
        match (self.reduction, op) {
            (Reduction::Shift, Op::Mul { left, right, .. }) => (left == self.value_var && right
                == self.const_var) || (left == self.const_var && right == self.value_var),
            (Reduction::Divide { unsigned: by }, Op::Div { left, right, unsigned, .. }) => left
                == self.value_var && right == self.const_var && by == unsigned,
            (Reduction::Mask { unsigned: by }, Op::Rem { left, right, unsigned, .. }) => left
                == self.value_var && right == self.const_var && by == unsigned,
            _ => false,
        }
    }

    /// The operation is signed, and asks for a value that is not negative.
    pub open spec fn is_signed(self) -> bool {
        match self.reduction {
            Reduction::Shift => false,
            Reduction::Divide { unsigned } => !unsigned,
            Reduction::Mask { unsigned } => !unsigned,
        }
    }
}

/// The cheaper operation on the constant that takes the place of the power computes what the
/// expensive one computed on the power; where the operation is signed, on values that are not
/// negative.
pub proof fn reduced_operation_computes_the_same<T: Target>(
    c: ReductionCandidate,
    op: OpView<T>,
    before: spec_fn(SsaVarId) -> u64,
    after: spec_fn(SsaVarId) -> u64,
    args: spec_fn(usize) -> u64,
)
    requires
        c.reduces(op),
        power(c.value) == Some(c.exponent),
        before(c.const_var) == meaning::register(c.value as int),
        after(c.const_var) == meaning::register(c.new_const().number().unwrap()),
        after(c.value_var) == before(c.value_var),
        c.is_signed() ==> meaning::signed(before(c.value_var)) >= 0,
    ensures
        c.new_const().number() == Some(
            if c.reduction is Mask {
                c.value - 1
            } else {
                c.exponent as int
            },
        ),
        meaning::result(c.new_op::<T>(), after, args) == meaning::result(op, before, args),
{
    let e = c.exponent;
    let x = before(c.value_var);
    let p = vstd::arithmetic::power2::pow2(e as nat);
    let m = pointer::modulus(64);
    assert(e < 63 && c.value == p);
    vstd::arithmetic::power2::lemma_pow2_pos(e as nat);
    reduction_computes_the_same(x, e);
    vstd::arithmetic::div_mod::lemma_small_mod(c.value as nat, m as nat);
    vstd::arithmetic::div_mod::lemma_small_mod(e as nat, m as nat);
    vstd::arithmetic::div_mod::lemma_small_mod((c.value - 1) as nat, m as nat);
    assert(before(c.const_var) == p);
    match c.reduction {
        Reduction::Shift => {
            assert(after(c.const_var) == e);
            assert(x * p == p * x) by (nonlinear_arith);
        },
        Reduction::Divide { unsigned } => {
            assert(after(c.const_var) == e);
            assert(meaning::signed(p as u64) == p);
        },
        Reduction::Mask { unsigned } => {
            assert(after(c.const_var) == p - 1);
            assert(meaning::signed(p as u64) == p);
        },
    }
}

} // verus!
