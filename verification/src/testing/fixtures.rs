//! Sample functions, and questions about the operations in a function.
use crate::ir::block::{BlockView, SsaBlock, SsaInstruction};
use crate::ir::function::{SsaFunction, SsaView};
use crate::ir::ops::{AtomicAccessWidth, AtomicOrdering, FenceKind, Op, OpView, SsaOp};
use crate::ir::phi::{PhiNode, PhiOperand, PhiView};
use crate::ir::value::ConstValue;
use crate::ir::variable::{DefSite, SsaDefSpec, SsaVarId, VarView, VariableOrigin};
use crate::passes::deadcode;
use crate::testing::mock::{MockTarget, MockType};
use vstd::prelude::*;

verus! {

/// A 32-bit intermediate value.
#[must_use]
pub fn mock_i32() -> (r: SsaDefSpec<MockTarget>)
    ensures
        r == (SsaDefSpec::<MockTarget> { origin: VariableOrigin::Temp, var_type: MockType::I32 }),
{
    SsaDefSpec::tmp(MockType::I32)
}

/// A 64-bit intermediate value.
#[must_use]
pub fn mock_i64() -> (r: SsaDefSpec<MockTarget>)
    ensures
        r == (SsaDefSpec::<MockTarget> { origin: VariableOrigin::Temp, var_type: MockType::I64 }),
{
    SsaDefSpec::tmp(MockType::I64)
}

/// An intermediate native pointer.
#[must_use]
pub fn mock_ptr() -> (r: SsaDefSpec<MockTarget>)
    ensures
        r == (SsaDefSpec::<MockTarget> { origin: VariableOrigin::Temp, var_type: MockType::Ptr }),
{
    SsaDefSpec::tmp(MockType::Ptr)
}

/// An intermediate managed reference.
#[must_use]
pub fn mock_ref() -> (r: SsaDefSpec<MockTarget>)
    ensures
        r == (SsaDefSpec::<MockTarget> { origin: VariableOrigin::Temp, var_type: MockType::Ref }),
{
    SsaDefSpec::tmp(MockType::Ref)
}

/// An intermediate vector of four 32-bit lanes.
#[must_use]
pub fn mock_v4i32() -> (r: SsaDefSpec<MockTarget>)
    ensures
        r == (SsaDefSpec::<MockTarget> { origin: VariableOrigin::Temp, var_type: MockType::V4I32 }),
{
    SsaDefSpec::tmp(MockType::V4I32)
}

/// An intermediate mask of four lanes.
#[must_use]
pub fn mock_mask4() -> (r: SsaDefSpec<MockTarget>)
    ensures
        r == (SsaDefSpec::<MockTarget> { origin: VariableOrigin::Temp, var_type: MockType::Mask4 }),
{
    SsaDefSpec::tmp(MockType::Mask4)
}

/// The function with variables of these origins, definitions and types, and with these blocks; its
/// uses are recorded.
pub open spec fn assembled(
    num_locals: usize,
    defs: Seq<(VariableOrigin, DefSite, MockType)>,
    blocks: Seq<BlockView<MockTarget>>,
) -> SsaView<MockTarget> {
    SsaView {
        num_args: 0,
        num_locals,
        vars: Seq::new(
            defs.len(),
            |i: int|
                VarView {
                    id: SsaVarId(i as usize),
                    origin: defs[i].0,
                    version: 0,
                    def_site: defs[i].1,
                    var_type: defs[i].2,
                    uses: Seq::empty(),
                    orphan: false,
                },
        ),
        blocks,
        handlers: Seq::empty(),
    }.with_uses()
}

/// Makes a block of phi nodes and operations.
fn block_of(id: usize, phis: Vec<PhiNode>, ops: Vec<SsaOp<MockTarget>>) -> (r: SsaBlock<MockTarget>)
    ensures
        r@ == (BlockView::<MockTarget> {
            id,
            phis: phis@.map_values(|p: PhiNode| p@),
            instrs: ops@.map_values(|o: SsaOp<MockTarget>| o@),
        }),
{
    let mut instrs: Vec<SsaInstruction<MockTarget>> = Vec::new();
    let ghost all = ops@;
    let mut rest: Vec<SsaOp<MockTarget>> = ops;
    while rest.len() > 0
        invariant
            rest@.len() <= all.len(),
            rest@ == all.take(rest@.len() as int),
            instrs@.len() == all.len() - rest@.len(),
            forall|j: int|
                0 <= j < instrs@.len() ==> (#[trigger] instrs@[j])@ == all[rest@.len() + j]@,
        decreases rest@.len(),
    {
        let ghost before = instrs@;
        let ghost m = rest@.len();
        if let Some(op) = rest.pop() {
            assert(op == all[m - 1]);
            let instr = SsaInstruction::synthetic(op);
            instrs.insert(0, instr);
            assert(instrs@ == before.insert(0, instr));
            assert forall|j: int| 0 <= j < instrs@.len() implies (#[trigger] instrs@[j])@ == all[m - 1
                + j]@ by {
                if j > 0 {
                    assert(instrs@[j] == before[j - 1]);
                }
            }
            assert(rest@ =~= all.take(m - 1));
        }
    }
    let r = SsaBlock { id, phis, instrs };
    assert(r@.instrs =~= all.map_values(|o: SsaOp<MockTarget>| o@));
    assert(r@.phis =~= phis@.map_values(|p: PhiNode| p@));
    r
}

/// Makes the function with these variables and blocks.
fn assemble(
    num_locals: usize,
    defs: Vec<(VariableOrigin, DefSite, MockType)>,
    blocks: Vec<SsaBlock<MockTarget>>,
) -> (r: SsaFunction<MockTarget>)
    ensures
        r@ == assembled(
            num_locals,
            defs@,
            blocks@.map_values(|b: SsaBlock<MockTarget>| b@),
        ),
{
    let ghost target = SsaView {
        num_args: 0,
        num_locals,
        vars: Seq::new(
            defs@.len(),
            |i: int|
                VarView::<MockTarget> {
                    id: SsaVarId(i as usize),
                    origin: defs@[i].0,
                    version: 0,
                    def_site: defs@[i].1,
                    var_type: defs@[i].2,
                    uses: Seq::empty(),
                    orphan: false,
                },
        ),
        blocks: blocks@.map_values(|b: SsaBlock<MockTarget>| b@),
        handlers: Seq::empty(),
    };
    let mut r: SsaFunction<MockTarget> = SsaFunction::new(0, num_locals);
    let mut i: usize = 0;
    while i < defs.len()
        invariant
            i <= defs@.len(),
            target.vars.len() == defs@.len(),
            forall|j: int|
                0 <= j < defs@.len() ==> (#[trigger] target.vars[j]) == (VarView::<MockTarget> {
                    id: SsaVarId(j as usize),
                    origin: defs@[j].0,
                    version: 0,
                    def_site: defs@[j].1,
                    var_type: defs@[j].2,
                    uses: Seq::empty(),
                    orphan: false,
                }),
            r@.vars == target.vars.take(i as int),
            r@ == (SsaView::<MockTarget> {
                num_args: 0,
                num_locals,
                vars: r@.vars,
                blocks: Seq::empty(),
                handlers: Seq::empty(),
            }),
        decreases defs@.len() - i,
    {
        let (origin, def_site, var_type) = defs[i];
        let _ = r.create_variable(origin, 0, def_site, var_type);
        assert(r@.vars =~= target.vars.take(i + 1));
        i = i + 1;
    }
    r.blocks = blocks;
    assert(r@.vars =~= target.vars);
    assert(r@.blocks =~= target.blocks);
    assert(r@.handlers =~= target.handlers);
    r.recompute_uses();
    r
}

/// The definition of an intermediate value of some type.
pub open spec fn typed_at(
    block: usize,
    instr: usize,
    var_type: MockType,
) -> (VariableOrigin, DefSite, MockType) {
    (VariableOrigin::Temp, DefSite { block, instruction: Some(instr) }, var_type)
}

/// The definition of a 32-bit intermediate value.
pub open spec fn temp_at(block: usize, instr: usize) -> (VariableOrigin, DefSite, MockType) {
    typed_at(block, instr, MockType::I32)
}

/// Makes the definition of an intermediate value of some type.
fn typed(block: usize, instr: usize, var_type: MockType) -> (r: (
    VariableOrigin,
    DefSite,
    MockType,
))
    ensures
        r == typed_at(block, instr, var_type),
{
    (VariableOrigin::Temp, DefSite::instruction(block, instr), var_type)
}

/// Makes the definition of a 32-bit intermediate value.
fn temp(block: usize, instr: usize) -> (r: (VariableOrigin, DefSite, MockType))
    ensures
        r == temp_at(block, instr),
{
    typed(block, instr, MockType::I32)
}

/// The operation that loads `value`.
pub open spec fn const_at(dest: usize, value: ConstValue) -> OpView<MockTarget> {
    Op::Const { dest: SsaVarId(dest), value }
}

/// Makes the operation that loads `value`.
fn load_const(dest: usize, value: ConstValue) -> (r: SsaOp<MockTarget>)
    ensures
        r@ == const_at(dest, value),
{
    Op::Const { dest: SsaVarId(dest), value }
}

/// The addition of two variables.
pub open spec fn add_at(dest: usize, left: usize, right: usize) -> OpView<MockTarget> {
    Op::Add { dest: SsaVarId(dest), left: SsaVarId(left), right: SsaVarId(right), flags: None }
}

/// Makes the addition of two variables.
fn addition(dest: usize, left: usize, right: usize) -> (r: SsaOp<MockTarget>)
    ensures
        r@ == add_at(dest, left, right),
{
    Op::Add { dest: SsaVarId(dest), left: SsaVarId(left), right: SsaVarId(right), flags: None }
}

/// Creates a function of one block that returns a constant.
#[must_use]
pub fn const_i32_return(value: i32) -> (r: SsaFunction<MockTarget>)
    ensures
        r@ == assembled(
            0,
            seq![
                (
                    VariableOrigin::Local(0),
                    DefSite { block: 0, instruction: Some(0) },
                    MockType::I32,
                ),
            ],
            seq![
                BlockView::<MockTarget> {
                    id: 0,
                    phis: Seq::empty(),
                    instrs: seq![
                        const_at(0, ConstValue::I32(value)),
                        Op::Return { value: Some(SsaVarId(0)) },
                    ],
                },
            ],
        ),
{
    let mut defs: Vec<(VariableOrigin, DefSite, MockType)> = Vec::new();
    defs.push((VariableOrigin::Local(0), DefSite::instruction(0, 0), MockType::I32));
    let mut ops: Vec<SsaOp<MockTarget>> = Vec::new();
    ops.push(load_const(0, ConstValue::I32(value)));
    ops.push(Op::Return { value: Some(SsaVarId(0)) });
    let block: SsaBlock<MockTarget> = block_of(0, Vec::new(), ops);
    let mut blocks: Vec<SsaBlock<MockTarget>> = Vec::new();
    blocks.push(block);
    let r: SsaFunction<MockTarget> = assemble(0, defs, blocks);
    proof {
        assert(block@.phis =~= Seq::empty());
        assert(block@.instrs =~= seq![
            const_at(0, ConstValue::I32(value)),
            Op::Return { value: Some(SsaVarId(0)) },
        ]);
        assert(blocks@.map_values(|b: SsaBlock<MockTarget>| b@) =~= seq![block@]);
        assert(defs@ =~= seq![
                (
                    VariableOrigin::Local(0),
                    DefSite { block: 0, instruction: Some(0) },
                    MockType::I32,
                ),
            ]);
    }
    r
}

/// The blocks of [`scalar_rewrite_fixture`].
pub open spec fn scalar_rewrite_blocks() -> Seq<BlockView<MockTarget>> {
    seq![
        BlockView::<MockTarget> {
            id: 0,
            phis: Seq::empty(),
            instrs: seq![
                const_at(0, ConstValue::I32(7)),
                const_at(1, ConstValue::I32(0)),
                const_at(2, ConstValue::I32(8)),
                const_at(3, ConstValue::I32(2)),
                add_at(4, 0, 1),
                add_at(5, 1, 0),
                add_at(6, 5, 3),
                add_at(7, 6, 2),
                Op::Mul { dest: SsaVarId(8), left: SsaVarId(7), right: SsaVarId(2), flags: None },
                Op::Copy { dest: SsaVarId(9), src: SsaVarId(8) },
                const_at(10, ConstValue::I32(99)),
                const_at(11, ConstValue::True),
                Op::Branch { condition: SsaVarId(11), true_target: 1, false_target: 2 },
            ],
        },
        BlockView::<MockTarget> {
            id: 1,
            phis: Seq::empty(),
            instrs: seq![Op::Return { value: Some(SsaVarId(9)) }],
        },
        BlockView::<MockTarget> {
            id: 2,
            phis: Seq::empty(),
            instrs: seq![
                const_at(12, ConstValue::I32(0)),
                Op::Return { value: Some(SsaVarId(12)) },
            ],
        },
    ]
}

/// Creates a function with constants, identities, a repeated expression, sums to regroup, a product
/// to reduce, a copy, an unused value and a branch on a constant.
#[must_use]
pub fn scalar_rewrite_fixture() -> (r: SsaFunction<MockTarget>)
    ensures
        r@ == assembled(
            12,
            Seq::new(
                13,
                |i: int|
                    if i < 12 {
                        temp_at(0, i as usize)
                    } else {
                        temp_at(2, 0)
                    },
            ),
            scalar_rewrite_blocks(),
        ),
{
    let mut defs: Vec<(VariableOrigin, DefSite, MockType)> = Vec::new();
    let mut i: usize = 0;
    while i < 12
        invariant
            i <= 12,
            defs@.len() == i,
            forall|j: int| 0 <= j < i ==> #[trigger] defs@[j] == temp_at(0, j as usize),
        decreases 12 - i,
    {
        defs.push(temp(0, i));
        i = i + 1;
    }
    defs.push(temp(2, 0));
    let mut first: Vec<SsaOp<MockTarget>> = Vec::new();
    first.push(load_const(0, ConstValue::I32(7)));
    first.push(load_const(1, ConstValue::I32(0)));
    first.push(load_const(2, ConstValue::I32(8)));
    first.push(load_const(3, ConstValue::I32(2)));
    first.push(addition(4, 0, 1));
    first.push(addition(5, 1, 0));
    first.push(addition(6, 5, 3));
    first.push(addition(7, 6, 2));
    first.push(Op::Mul { dest: SsaVarId(8), left: SsaVarId(7), right: SsaVarId(2), flags: None });
    first.push(Op::Copy { dest: SsaVarId(9), src: SsaVarId(8) });
    first.push(load_const(10, ConstValue::I32(99)));
    first.push(load_const(11, ConstValue::True));
    first.push(Op::Branch { condition: SsaVarId(11), true_target: 1, false_target: 2 });
    let mut second: Vec<SsaOp<MockTarget>> = Vec::new();
    second.push(Op::Return { value: Some(SsaVarId(9)) });
    let mut third: Vec<SsaOp<MockTarget>> = Vec::new();
    third.push(load_const(12, ConstValue::I32(0)));
    third.push(Op::Return { value: Some(SsaVarId(12)) });
    let b0: SsaBlock<MockTarget> = block_of(0, Vec::new(), first);
    let b1: SsaBlock<MockTarget> = block_of(1, Vec::new(), second);
    let b2: SsaBlock<MockTarget> = block_of(2, Vec::new(), third);
    proof {
        let all = scalar_rewrite_blocks();
        assert(b0@.instrs =~= all[0].instrs);
        assert(b0@.phis =~= all[0].phis);
        assert(b1@.instrs =~= all[1].instrs);
        assert(b1@.phis =~= all[1].phis);
        assert(b2@.instrs =~= all[2].instrs);
        assert(b2@.phis =~= all[2].phis);
    }
    let mut blocks: Vec<SsaBlock<MockTarget>> = Vec::new();
    blocks.push(b0);
    blocks.push(b1);
    blocks.push(b2);
    let r: SsaFunction<MockTarget> = assemble(12, defs, blocks);
    assert(blocks@.map_values(|b: SsaBlock<MockTarget>| b@) =~= scalar_rewrite_blocks());
    assert(defs@ =~= Seq::new(
        13,
        |i: int|
            if i < 12 {
                temp_at(0, i as usize)
            } else {
                temp_at(2, 0)
            },
    ));
    r
}

/// The blocks of [`diamond_phi_fixture`].
pub open spec fn diamond_phi_blocks() -> Seq<BlockView<MockTarget>> {
    seq![
        BlockView::<MockTarget> {
            id: 0,
            phis: Seq::empty(),
            instrs: seq![
                const_at(0, ConstValue::True),
                Op::Branch { condition: SsaVarId(0), true_target: 1, false_target: 2 },
            ],
        },
        BlockView::<MockTarget> {
            id: 1,
            phis: Seq::empty(),
            instrs: seq![const_at(1, ConstValue::I32(10)), Op::Jump { target: 3 }],
        },
        BlockView::<MockTarget> {
            id: 2,
            phis: Seq::empty(),
            instrs: seq![const_at(2, ConstValue::I32(20)), Op::Jump { target: 3 }],
        },
        BlockView::<MockTarget> {
            id: 3,
            phis: seq![
                PhiView {
                    result: SsaVarId(3),
                    origin: VariableOrigin::Local(0),
                    operands: seq![
                        PhiOperand { value: SsaVarId(1), predecessor: 1 },
                        PhiOperand { value: SsaVarId(2), predecessor: 2 },
                    ],
                },
            ],
            instrs: seq![Op::Return { value: Some(SsaVarId(3)) }],
        },
    ]
}

/// Makes a phi node of the local variable zero with two operands.
fn merge(result: usize, first: PhiOperand, second: PhiOperand) -> (r: PhiNode)
    ensures
        r@ == (PhiView {
            result: SsaVarId(result),
            origin: VariableOrigin::Local(0),
            operands: seq![first, second],
        }),
{
    let mut r: PhiNode = PhiNode::new(SsaVarId(result), VariableOrigin::Local(0));
    r.add_operand(first);
    r.add_operand(second);
    assert(r@.operands =~= seq![first, second]);
    r
}

/// Creates a function that branches and merges two values.
#[must_use]
pub fn diamond_phi_fixture() -> (r: SsaFunction<MockTarget>)
    ensures
        r@ == assembled(
            4,
            seq![
                temp_at(0, 0),
                temp_at(1, 0),
                temp_at(2, 0),
                (VariableOrigin::Local(0), DefSite { block: 3, instruction: None }, MockType::I32),
            ],
            diamond_phi_blocks(),
        ),
{
    let mut defs: Vec<(VariableOrigin, DefSite, MockType)> = Vec::new();
    defs.push(temp(0, 0));
    defs.push(temp(1, 0));
    defs.push(temp(2, 0));
    defs.push((VariableOrigin::Local(0), DefSite::phi(3), MockType::I32));
    let mut first: Vec<SsaOp<MockTarget>> = Vec::new();
    first.push(load_const(0, ConstValue::True));
    first.push(Op::Branch { condition: SsaVarId(0), true_target: 1, false_target: 2 });
    let mut left: Vec<SsaOp<MockTarget>> = Vec::new();
    left.push(load_const(1, ConstValue::I32(10)));
    left.push(Op::Jump { target: 3 });
    let mut right: Vec<SsaOp<MockTarget>> = Vec::new();
    right.push(load_const(2, ConstValue::I32(20)));
    right.push(Op::Jump { target: 3 });
    let mut last: Vec<SsaOp<MockTarget>> = Vec::new();
    last.push(Op::Return { value: Some(SsaVarId(3)) });
    let mut phis: Vec<PhiNode> = Vec::new();
    phis.push(merge(3, PhiOperand::new(SsaVarId(1), 1), PhiOperand::new(SsaVarId(2), 2)));
    let b0: SsaBlock<MockTarget> = block_of(0, Vec::new(), first);
    let b1: SsaBlock<MockTarget> = block_of(1, Vec::new(), left);
    let b2: SsaBlock<MockTarget> = block_of(2, Vec::new(), right);
    let b3: SsaBlock<MockTarget> = block_of(3, phis, last);
    proof {
        let all = diamond_phi_blocks();
        assert(b0@.instrs =~= all[0].instrs);
        assert(b0@.phis =~= all[0].phis);
        assert(b1@.instrs =~= all[1].instrs);
        assert(b1@.phis =~= all[1].phis);
        assert(b2@.instrs =~= all[2].instrs);
        assert(b2@.phis =~= all[2].phis);
        assert(b3@.instrs =~= all[3].instrs);
        assert(b3@.phis =~= all[3].phis);
    }
    let mut blocks: Vec<SsaBlock<MockTarget>> = Vec::new();
    blocks.push(b0);
    blocks.push(b1);
    blocks.push(b2);
    blocks.push(b3);
    let r: SsaFunction<MockTarget> = assemble(4, defs, blocks);
    assert(blocks@.map_values(|b: SsaBlock<MockTarget>| b@) =~= diamond_phi_blocks());
    assert(defs@ =~= seq![
        temp_at(0, 0),
        temp_at(1, 0),
        temp_at(2, 0),
        (VariableOrigin::Local(0), DefSite { block: 3, instruction: None }, MockType::I32),
    ]);
    r
}

/// The blocks of [`loop_counter_fixture`].
pub open spec fn loop_counter_blocks() -> Seq<BlockView<MockTarget>> {
    seq![
        BlockView::<MockTarget> {
            id: 0,
            phis: Seq::empty(),
            instrs: seq![const_at(0, ConstValue::I32(0)), Op::Jump { target: 1 }],
        },
        BlockView::<MockTarget> {
            id: 1,
            phis: seq![
                PhiView {
                    result: SsaVarId(1),
                    origin: VariableOrigin::Local(0),
                    operands: seq![
                        PhiOperand { value: SsaVarId(0), predecessor: 0 },
                        PhiOperand { value: SsaVarId(3), predecessor: 1 },
                    ],
                },
            ],
            instrs: seq![
                const_at(2, ConstValue::I32(1)),
                add_at(3, 1, 2),
                const_at(4, ConstValue::I32(4)),
                Op::Clt {
                    dest: SsaVarId(5),
                    left: SsaVarId(3),
                    right: SsaVarId(4),
                    unsigned: false,
                },
                Op::Branch { condition: SsaVarId(5), true_target: 1, false_target: 2 },
            ],
        },
        BlockView::<MockTarget> {
            id: 2,
            phis: Seq::empty(),
            instrs: seq![Op::Return { value: Some(SsaVarId(1)) }],
        },
    ]
}

/// Creates a function that counts in a loop.
#[must_use]
pub fn loop_counter_fixture() -> (r: SsaFunction<MockTarget>)
    ensures
        r@ == assembled(
            2,
            seq![
                temp_at(0, 0),
                (VariableOrigin::Local(0), DefSite { block: 1, instruction: None }, MockType::I32),
                temp_at(1, 0),
                temp_at(1, 1),
                temp_at(1, 2),
                temp_at(1, 3),
            ],
            loop_counter_blocks(),
        ),
{
    let mut defs: Vec<(VariableOrigin, DefSite, MockType)> = Vec::new();
    defs.push(temp(0, 0));
    defs.push((VariableOrigin::Local(0), DefSite::phi(1), MockType::I32));
    defs.push(temp(1, 0));
    defs.push(temp(1, 1));
    defs.push(temp(1, 2));
    defs.push(temp(1, 3));
    let mut first: Vec<SsaOp<MockTarget>> = Vec::new();
    first.push(load_const(0, ConstValue::I32(0)));
    first.push(Op::Jump { target: 1 });
    let mut body: Vec<SsaOp<MockTarget>> = Vec::new();
    body.push(load_const(2, ConstValue::I32(1)));
    body.push(addition(3, 1, 2));
    body.push(load_const(4, ConstValue::I32(4)));
    body.push(
        Op::Clt { dest: SsaVarId(5), left: SsaVarId(3), right: SsaVarId(4), unsigned: false },
    );
    body.push(Op::Branch { condition: SsaVarId(5), true_target: 1, false_target: 2 });
    let mut last: Vec<SsaOp<MockTarget>> = Vec::new();
    last.push(Op::Return { value: Some(SsaVarId(1)) });
    let mut phis: Vec<PhiNode> = Vec::new();
    phis.push(merge(1, PhiOperand::new(SsaVarId(0), 0), PhiOperand::new(SsaVarId(3), 1)));
    let b0: SsaBlock<MockTarget> = block_of(0, Vec::new(), first);
    let b1: SsaBlock<MockTarget> = block_of(1, phis, body);
    let b2: SsaBlock<MockTarget> = block_of(2, Vec::new(), last);
    proof {
        let all = loop_counter_blocks();
        assert(b0@.instrs =~= all[0].instrs);
        assert(b0@.phis =~= all[0].phis);
        assert(b1@.instrs =~= all[1].instrs);
        assert(b1@.phis =~= all[1].phis);
        assert(b2@.instrs =~= all[2].instrs);
        assert(b2@.phis =~= all[2].phis);
    }
    let mut blocks: Vec<SsaBlock<MockTarget>> = Vec::new();
    blocks.push(b0);
    blocks.push(b1);
    blocks.push(b2);
    let r: SsaFunction<MockTarget> = assemble(2, defs, blocks);
    assert(blocks@.map_values(|b: SsaBlock<MockTarget>| b@) =~= loop_counter_blocks());
    assert(defs@ =~= seq![
        temp_at(0, 0),
        (VariableOrigin::Local(0), DefSite { block: 1, instruction: None }, MockType::I32),
        temp_at(1, 0),
        temp_at(1, 1),
        temp_at(1, 2),
        temp_at(1, 3),
    ]);
    r
}

/// The blocks of [`memory_effect_fixture`].
pub open spec fn memory_effect_blocks() -> Seq<BlockView<MockTarget>> {
    seq![
        BlockView::<MockTarget> {
            id: 0,
            phis: Seq::empty(),
            instrs: seq![
                const_at(0, ConstValue::Null),
                const_at(1, ConstValue::NativeUInt(0x1000)),
                const_at(2, ConstValue::I32(100)),
                Op::StoreField { object: SsaVarId(0), field: 1, value: SsaVarId(2) },
                Op::LoadField { dest: SsaVarId(3), object: SsaVarId(0), field: 1 },
                Op::StoreIndirect {
                    addr: SsaVarId(1),
                    value: SsaVarId(3),
                    value_type: MockType::I32,
                },
                Op::AtomicExchange {
                    dest: SsaVarId(4),
                    addr: SsaVarId(1),
                    value: SsaVarId(2),
                    ordering: AtomicOrdering::AcqRel,
                    width: AtomicAccessWidth::Bits32,
                    volatile: true,
                },
                Op::Fence { kind: FenceKind::Acquire },
                Op::Return { value: Some(SsaVarId(4)) },
            ],
        },
    ]
}

/// Creates a function that writes and reads a field, writes memory, exchanges a value atomically and
/// sets a fence.
#[must_use]
pub fn memory_effect_fixture() -> (r: SsaFunction<MockTarget>)
    ensures
        r@ == assembled(
            4,
            seq![
                typed_at(0, 0, MockType::Ref),
                typed_at(0, 1, MockType::Ptr),
                temp_at(0, 2),
                temp_at(0, 4),
                temp_at(0, 6),
            ],
            memory_effect_blocks(),
        ),
{
    let mut defs: Vec<(VariableOrigin, DefSite, MockType)> = Vec::new();
    defs.push(typed(0, 0, MockType::Ref));
    defs.push(typed(0, 1, MockType::Ptr));
    defs.push(temp(0, 2));
    defs.push(temp(0, 4));
    defs.push(temp(0, 6));
    let mut ops: Vec<SsaOp<MockTarget>> = Vec::new();
    ops.push(load_const(0, ConstValue::Null));
    ops.push(load_const(1, ConstValue::NativeUInt(0x1000)));
    ops.push(load_const(2, ConstValue::I32(100)));
    ops.push(Op::StoreField { object: SsaVarId(0), field: 1, value: SsaVarId(2) });
    ops.push(Op::LoadField { dest: SsaVarId(3), object: SsaVarId(0), field: 1 });
    ops.push(
        Op::StoreIndirect { addr: SsaVarId(1), value: SsaVarId(3), value_type: MockType::I32 },
    );
    ops.push(
        Op::AtomicExchange {
            dest: SsaVarId(4),
            addr: SsaVarId(1),
            value: SsaVarId(2),
            ordering: AtomicOrdering::AcqRel,
            width: AtomicAccessWidth::Bits32,
            volatile: true,
        },
    );
    ops.push(Op::Fence { kind: FenceKind::Acquire });
    ops.push(Op::Return { value: Some(SsaVarId(4)) });
    let block: SsaBlock<MockTarget> = block_of(0, Vec::new(), ops);
    let mut blocks: Vec<SsaBlock<MockTarget>> = Vec::new();
    blocks.push(block);
    let r: SsaFunction<MockTarget> = assemble(4, defs, blocks);
    proof {
        assert(block@.phis =~= Seq::empty());
        assert(block@.instrs =~= memory_effect_blocks()[0].instrs);
        assert(blocks@.map_values(|b: SsaBlock<MockTarget>| b@) =~= memory_effect_blocks());
        assert(defs@ =~= seq![
            typed_at(0, 0, MockType::Ref),
            typed_at(0, 1, MockType::Ptr),
            temp_at(0, 2),
            temp_at(0, 4),
            temp_at(0, 6),
        ]);
    }
    r
}

/// A predicate on operations answers every question.
pub open spec fn is_op_predicate<F: Fn(&SsaOp<MockTarget>) -> bool>(f: F) -> bool {
    forall|op: &SsaOp<MockTarget>| call_requires(f, (op,))
}

/// `told` lists an answer of the predicate for each of the instructions.
pub open spec fn was_said<F: Fn(&SsaOp<MockTarget>) -> bool>(
    instrs: Seq<SsaInstruction<MockTarget>>,
    f: F,
    told: Seq<bool>,
) -> bool {
    &&& told.len() == instrs.len()
    &&& forall|k: int|
        0 <= k < told.len() ==> call_ensures(f, (&instrs[k].op,), #[trigger] told[k])
}

/// `told` lists an answer of the predicate for each instruction of each of the blocks.
pub open spec fn was_said_throughout<F: Fn(&SsaOp<MockTarget>) -> bool>(
    blocks: Seq<SsaBlock<MockTarget>>,
    f: F,
    told: Seq<Seq<bool>>,
) -> bool {
    &&& told.len() == blocks.len()
    &&& forall|b: int| 0 <= b < told.len() ==> was_said(blocks[b].instrs@, f, #[trigger] told[b])
}

/// How many of the first `n` answers are yes.
pub open spec fn matches_in(told: Seq<bool>, n: nat) -> nat
    decreases n,
{
    if n == 0 {
        0
    } else {
        matches_in(told, (n - 1) as nat) + if told[n - 1] {
            1nat
        } else {
            0
        }
    }
}

/// How many answers in the first `n` lists are yes.
pub open spec fn matches_through(told: Seq<Seq<bool>>, n: nat) -> nat
    decreases n,
{
    if n == 0 {
        0
    } else {
        matches_through(told, (n - 1) as nat) + matches_in(told[n - 1], told[n - 1].len())
    }
}

proof fn lemma_more_matches(told: Seq<bool>, said: bool, n: nat)
    requires
        n <= told.len(),
    ensures
        matches_in(told.push(said), n) == matches_in(told, n),
    decreases n,
{
    if n > 0 {
        lemma_more_matches(told, said, (n - 1) as nat);
    }
}

proof fn lemma_more_lists(told: Seq<Seq<bool>>, said: Seq<bool>, n: nat)
    requires
        n <= told.len(),
    ensures
        matches_through(told.push(said), n) == matches_through(told, n),
    decreases n,
{
    if n > 0 {
        lemma_more_lists(told, said, (n - 1) as nat);
    }
}

/// Returns how many instructions meet `predicate`.
pub fn mock_op_count<F: Fn(&SsaOp<MockTarget>) -> bool>(
    ssa: &SsaFunction<MockTarget>,
    predicate: F,
) -> (r: usize)
    requires
        is_op_predicate(predicate),
    ensures
        exists|told: Seq<Seq<bool>>| #[trigger]
            was_said_throughout(ssa.blocks@, predicate, told) && r == deadcode::capped(
                matches_through(told, told.len()),
            ),
{
    let ghost mut told: Seq<Seq<bool>> = Seq::empty();
    let mut total: usize = 0;
    let mut b: usize = 0;
    while b < ssa.blocks.len()
        invariant
            is_op_predicate(predicate),
            b <= ssa.blocks@.len(),
            told.len() == b,
            forall|k: int|
                0 <= k < b ==> was_said(ssa.blocks@[k].instrs@, predicate, #[trigger] told[k]),
            total == deadcode::capped(matches_through(told, b as nat)),
        decreases ssa.blocks@.len() - b,
    {
        let ghost done = matches_through(told, b as nat);
        let ghost mut here: Seq<bool> = Seq::empty();
        let mut i: usize = 0;
        while i < ssa.blocks[b].instrs.len()
            invariant
                is_op_predicate(predicate),
                b < ssa.blocks@.len(),
                i <= ssa.blocks@[b as int].instrs@.len(),
                here.len() == i,
                forall|k: int|
                    0 <= k < i ==> call_ensures(
                        predicate,
                        (&ssa.blocks@[b as int].instrs@[k].op,),
                        #[trigger] here[k],
                    ),
                total == deadcode::capped(done + matches_in(here, i as nat)),
            decreases ssa.blocks@[b as int].instrs@.len() - i,
        {
            let said: bool = predicate(&ssa.blocks[b].instrs[i].op);
            proof {
                lemma_more_matches(here, said, i as nat);
                here = here.push(said);
            }
            if said {
                total = total.saturating_add(1);
            }
            i = i + 1;
        }
        proof {
            lemma_more_lists(told, here, b as nat);
            told = told.push(here);
        }
        b = b + 1;
    }
    assert(was_said_throughout(ssa.blocks@, predicate, told));
    total
}

/// Returns the operation at `instr` of `block`.
#[must_use]
pub fn mock_op_at(ssa: &SsaFunction<MockTarget>, block: usize, instr: usize) -> (r: &SsaOp<
    MockTarget,
>)
    requires
        block < ssa@.blocks.len(),
        instr < ssa@.blocks[block as int].instrs.len(),
    ensures
        r@ == ssa@.blocks[block as int].instrs[instr as int],
{
    assert(ssa.blocks@[block as int]@ == ssa@.blocks[block as int]);
    ssa.blocks[block].instrs[instr].op()
}

/// Returns the operation that ends `block`.
#[must_use]
pub fn mock_terminator_at(ssa: &SsaFunction<MockTarget>, block: usize) -> (r: &SsaOp<MockTarget>)
    requires
        block < ssa@.blocks.len(),
        ssa@.blocks[block as int].terminator() is Some,
    ensures
        ssa@.blocks[block as int].terminator() == Some(r@),
{
    assert(ssa.blocks@[block as int]@ == ssa@.blocks[block as int]);
    let n: usize = ssa.blocks[block].instrs.len();
    assert(ssa@.blocks[block as int].instrs.last() == ssa.blocks@[block as int].instrs@[n - 1]@);
    ssa.blocks[block].instrs[n - 1].op()
}

/// Appends a 32-bit local variable that the instruction at `instruction` of `block` defines.
pub fn create_i32_local(
    ssa: &mut SsaFunction<MockTarget>,
    block: usize,
    instruction: usize,
) -> (r: SsaVarId)
    ensures
        r == SsaVarId(old(ssa)@.vars.len() as usize),
        final(ssa)@ == (SsaView {
            vars: old(ssa)@.vars.push(
                VarView {
                    id: r,
                    origin: VariableOrigin::Local(instruction as u16),
                    version: 0,
                    def_site: DefSite { block, instruction: Some(instruction) },
                    var_type: MockType::I32,
                    uses: Seq::empty(),
                    orphan: false,
                },
            ),
            ..old(ssa)@
        }),
{
    ssa.create_variable(
        VariableOrigin::Local(instruction as u16),
        0,
        DefSite::instruction(block, instruction),
        MockType::I32,
    )
}

} // verus!
