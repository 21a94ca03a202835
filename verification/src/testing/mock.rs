//! A small instruction set that needs no host metadata.
use crate::target::{
    ScalableVectorMaskShape, ScalableVectorShape, Target, VectorLaneKind, VectorLengthMultiplier,
    VectorMaskPolicy, VectorMaskShape, VectorShape, VectorTailPolicy,
};
use vstd::prelude::*;

verus! {

/// A minimal instruction set.
#[derive(Debug, Clone, Copy, PartialEq, Eq, Hash, Structural)]
pub struct MockTarget;

/// The types of [`MockTarget`].
#[derive(Debug, Clone, Copy, PartialEq, Eq, Hash, Structural)]
pub enum MockType {
    /// Unknown or intentionally unspecified type.
    Unknown,
    /// 32-bit integer.
    I32,
    /// 64-bit integer.
    I64,
    /// 64-bit floating-point number.
    F64,
    /// Managed reference.
    Ref,
    /// Native pointer.
    Ptr,
    /// 128-bit vector of four 32-bit integer lanes.
    V4I32,
    /// 128-bit vector of two 64-bit floating-point lanes.
    V2F64,
    /// Four-lane vector mask with one bit per lane.
    Mask4,
    /// Runtime-scalable vector of at least four 32-bit integer lanes.
    NxV4I32,
    /// Runtime-scalable predicate mask of at least four lanes.
    NxMask4,
}

impl MockType {
    /// The name of the type.
    pub open spec fn text(self) -> Seq<char> {
        match self {
            MockType::Unknown => "unknown"@,
            MockType::I32 => "i32"@,
            MockType::I64 => "i64"@,
            MockType::F64 => "f64"@,
            MockType::Ref => "ref"@,
            MockType::Ptr => "ptr"@,
            MockType::V4I32 => "v4i32"@,
            MockType::V2F64 => "v2f64"@,
            MockType::Mask4 => "mask4"@,
            MockType::NxV4I32 => "nxv4i32"@,
            MockType::NxMask4 => "nxmask4"@,
        }
    }

    /// Returns the name of the type.
    #[must_use]
    pub fn name(self) -> (r: &'static str)
        ensures
            r@ == self.text(),
    {
        match self {
            MockType::Unknown => "unknown",
            MockType::I32 => "i32",
            MockType::I64 => "i64",
            MockType::F64 => "f64",
            MockType::Ref => "ref",
            MockType::Ptr => "ptr",
            MockType::V4I32 => "v4i32",
            MockType::V2F64 => "v2f64",
            MockType::Mask4 => "mask4",
            MockType::NxV4I32 => "nxv4i32",
            MockType::NxMask4 => "nxmask4",
        }
    }

    /// The fixed vector shape that the type has.
    pub open spec fn fixed_shape(self) -> Option<VectorShape> {
        match self {
            MockType::V4I32 => Some(
                VectorShape {
                    lane_count: 4,
                    lane_kind: VectorLaneKind::Integer,
                    lane_bits: 32,
                    total_bits: 128,
                },
            ),
            MockType::V2F64 => Some(
                VectorShape {
                    lane_count: 2,
                    lane_kind: VectorLaneKind::Float,
                    lane_bits: 64,
                    total_bits: 128,
                },
            ),
            _ => None,
        }
    }

    /// The scalable vector shape that the type has.
    pub open spec fn scalable_shape(self) -> Option<ScalableVectorShape> {
        match self {
            MockType::NxV4I32 => Some(
                ScalableVectorShape {
                    min_lane_count: 4,
                    lane_kind: VectorLaneKind::Integer,
                    lane_bits: 32,
                    length_multiplier: VectorLengthMultiplier { numerator: 1, denominator: 1 },
                    tail_policy: VectorTailPolicy::Agnostic,
                    mask_policy: VectorMaskPolicy::Agnostic,
                },
            ),
            _ => None,
        }
    }

    /// The fixed mask shape that the type has.
    pub open spec fn fixed_mask(self) -> Option<VectorMaskShape> {
        match self {
            MockType::Mask4 => Some(VectorMaskShape { lane_count: 4, lane_bits: 1 }),
            _ => None,
        }
    }

    /// The scalable mask shape that the type has.
    pub open spec fn scalable_mask(self) -> Option<ScalableVectorMaskShape> {
        match self {
            MockType::NxMask4 => Some(
                ScalableVectorMaskShape {
                    min_lane_count: 4,
                    lane_bits: 1,
                    length_multiplier: VectorLengthMultiplier { numerator: 1, denominator: 1 },
                },
            ),
            _ => None,
        }
    }
}

/// The scalar type of a lane.
pub open spec fn lane_type(kind: VectorLaneKind, bits: u32) -> Option<MockType> {
    if kind == VectorLaneKind::Integer && bits == 32 {
        Some(MockType::I32)
    } else if kind == VectorLaneKind::Float && bits == 64 {
        Some(MockType::F64)
    } else {
        None
    }
}

/// Computes [`lane_type`].
fn find_lane_type(kind: VectorLaneKind, bits: u32) -> (r: Option<MockType>)
    ensures
        r == lane_type(kind, bits),
{
    match kind {
        VectorLaneKind::Integer if bits == 32 => Some(MockType::I32),
        VectorLaneKind::Float if bits == 64 => Some(MockType::F64),
        _ => None,
    }
}

impl Target for MockTarget {
    type TypeRef = u32;

    type MethodRef = u32;

    type FieldRef = u32;

    type SigRef = u32;

    type ExceptionKind = u32;

    type Type = MockType;

    type OriginalInstruction = ();

    type LocalSignature = ();

    type Capability = ();

    fn same_capability(_a: &(), _b: &()) -> (r: bool) {
        true
    }

    fn ptr_bytes(&self) -> (r: u32)
        ensures
            r == 8,
    {
        8
    }

    fn synthetic_instruction() -> () {
    }

    open spec fn no_type() -> MockType {
        MockType::Unknown
    }

    fn unknown_type() -> MockType {
        MockType::Unknown
    }

    fn is_integer(t: &MockType) -> (r: bool)
        ensures
            r == (*t == MockType::I32 || *t == MockType::I64),
    {
        matches!(t, MockType::I32 | MockType::I64)
    }

    fn is_floating(t: &MockType) -> (r: bool)
        ensures
            r == (*t == MockType::F64),
    {
        matches!(t, MockType::F64)
    }

    fn is_signed(t: &MockType) -> (r: bool)
        ensures
            r == (*t == MockType::I32 || *t == MockType::I64 || *t == MockType::F64),
    {
        matches!(t, MockType::I32 | MockType::I64 | MockType::F64)
    }

    fn is_pointer(t: &MockType) -> (r: bool)
        ensures
            r == (*t == MockType::Ptr),
    {
        matches!(t, MockType::Ptr)
    }

    fn is_reference(t: &MockType) -> (r: bool)
        ensures
            r == (*t == MockType::Ref),
    {
        matches!(t, MockType::Ref)
    }

    fn is_unknown(t: &MockType) -> (r: bool)
        ensures
            r == (*t == MockType::Unknown),
    {
        matches!(t, MockType::Unknown)
    }

    fn bit_width(t: &MockType) -> (r: Option<u32>)
        ensures
            r == (match *t {
                MockType::I32 => Some(32u32),
                MockType::I64 => Some(64u32),
                MockType::F64 => Some(64u32),
                MockType::V4I32 => Some(128u32),
                MockType::V2F64 => Some(128u32),
                MockType::Mask4 => Some(4u32),
                MockType::NxMask4 => Some(4u32),
                _ => None,
            }),
    {
        match *t {
            MockType::I32 => Some(32),
            MockType::I64 => Some(64),
            MockType::F64 => Some(64),
            MockType::V4I32 => Some(128),
            MockType::V2F64 => Some(128),
            MockType::Mask4 => Some(4),
            MockType::NxMask4 => Some(4),
            _ => None,
        }
    }

    fn vector_shape(t: &MockType) -> (r: Option<VectorShape>)
        ensures
            r == t.fixed_shape(),
    {
        match *t {
            MockType::V4I32 => VectorShape::new(4, VectorLaneKind::Integer, 32, 128),
            MockType::V2F64 => VectorShape::new(2, VectorLaneKind::Float, 64, 128),
            _ => None,
        }
    }

    fn scalable_vector_shape(t: &MockType) -> (r: Option<ScalableVectorShape>)
        ensures
            r == t.scalable_shape(),
    {
        match *t {
            MockType::NxV4I32 => ScalableVectorShape::new(
                4,
                VectorLaneKind::Integer,
                32,
                VectorLengthMultiplier::one(),
                VectorTailPolicy::Agnostic,
                VectorMaskPolicy::Agnostic,
            ),
            _ => None,
        }
    }

    fn vector_type(shape: VectorShape) -> (r: Option<MockType>)
        ensures
            match r {
                Some(t) => t.fixed_shape() == Some(shape),
                None => forall|t: MockType| #[trigger] t.fixed_shape() != Some(shape),
            },
    {
        if shape.total_bits != 128 {
            return None;
        }
        match shape.lane_kind {
            VectorLaneKind::Integer if shape.lane_count == 4 && shape.lane_bits == 32 => Some(
                MockType::V4I32,
            ),
            VectorLaneKind::Float if shape.lane_count == 2 && shape.lane_bits == 64 => Some(
                MockType::V2F64,
            ),
            _ => None,
        }
    }

    fn scalable_vector_type(shape: ScalableVectorShape) -> (r: Option<MockType>)
        ensures
            match r {
                Some(t) => t.scalable_shape() == Some(shape),
                None => forall|t: MockType| #[trigger] t.scalable_shape() != Some(shape),
            },
    {
        let one: bool = shape.length_multiplier.numerator == 1
            && shape.length_multiplier.denominator == 1;
        if shape.min_lane_count != 4 || shape.lane_bits != 32 || !one {
            return None;
        }
        match (shape.lane_kind, shape.tail_policy, shape.mask_policy) {
            (
                VectorLaneKind::Integer,
                VectorTailPolicy::Agnostic,
                VectorMaskPolicy::Agnostic,
            ) => Some(MockType::NxV4I32),
            _ => None,
        }
    }

    fn vector_lane_type(shape: VectorShape) -> (r: Option<MockType>)
        ensures
            r == lane_type(shape.lane_kind, shape.lane_bits),
    {
        find_lane_type(shape.lane_kind, shape.lane_bits)
    }

    fn scalable_vector_lane_type(shape: ScalableVectorShape) -> (r: Option<MockType>)
        ensures
            r == lane_type(shape.lane_kind, shape.lane_bits),
    {
        find_lane_type(shape.lane_kind, shape.lane_bits)
    }

    fn vector_mask_shape(t: &MockType) -> (r: Option<VectorMaskShape>)
        ensures
            r == t.fixed_mask(),
    {
        match *t {
            MockType::Mask4 => VectorMaskShape::new(4, 1),
            _ => None,
        }
    }

    fn scalable_vector_mask_shape(t: &MockType) -> (r: Option<ScalableVectorMaskShape>)
        ensures
            r == t.scalable_mask(),
    {
        match *t {
            MockType::NxMask4 => ScalableVectorMaskShape::new(4, 1, VectorLengthMultiplier::one()),
            _ => None,
        }
    }

    fn vector_mask_type(shape: VectorMaskShape) -> (r: Option<MockType>)
        ensures
            r == (if shape.lane_count == 4 && shape.lane_bits == 1 {
                Some(MockType::Mask4)
            } else {
                None
            }),
    {
        if shape.lane_count == 4 && shape.lane_bits == 1 {
            Some(MockType::Mask4)
        } else {
            None
        }
    }

    fn scalable_vector_mask_type(shape: ScalableVectorMaskShape) -> (r: Option<MockType>)
        ensures
            r == (if MockType::NxMask4.scalable_mask() == Some(shape) {
                Some(MockType::NxMask4)
            } else {
                None
            }),
    {
        if shape.min_lane_count == 4 && shape.lane_bits == 1 && shape.length_multiplier.numerator
            == 1 && shape.length_multiplier.denominator == 1 {
            Some(MockType::NxMask4)
        } else {
            None
        }
    }

    fn instruction_mnemonic(_instr: &()) -> (r: &'static str)
        ensures
            r@ == "<mock>"@,
    {
        "<mock>"
    }

    fn instruction_rva(_instr: &()) -> (r: u64)
        ensures
            r == 0,
    {
        0
    }

    fn is_filter_handler(_flags: &u32) -> (r: bool)
        ensures
            !r,
    {
        false
    }
}

} // verus!
