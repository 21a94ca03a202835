//! Shapes of vector and mask values.
use vstd::prelude::*;

verus! {

/// Element category for a target-independent vector lane.
#[derive(Debug, Clone, Copy, PartialEq, Eq, Hash, Structural)]
pub enum VectorLaneKind {
    /// Integer lane with an explicit bit width.
    Integer,
    /// Floating-point lane with an explicit bit width.
    Float,
    /// Pointer-sized native integer lane whose concrete width is target-dependent.
    NativeInteger,
}

/// Describes the lane layout of a target-independent vector value.
#[derive(Debug, Clone, Copy, PartialEq, Eq, Hash, Structural)]
pub struct VectorShape {
    /// Number of lanes in the vector.
    pub lane_count: u32,
    /// Kind of scalar stored in each lane.
    pub lane_kind: VectorLaneKind,
    /// Bit width of each lane.
    pub lane_bits: u32,
    /// Total bit width of the vector register or value.
    pub total_bits: u32,
}

/// Returns whether `count` lanes of `bits` bits each make up `total` bits.
fn fills(count: u32, bits: u32, total: u32) -> (r: bool)
    ensures
        r == (count as int * bits as int == total),
{
    match count.checked_mul(bits) {
        Some(product) => product == total,
        None => false,
    }
}

impl VectorShape {
    /// The lanes exist, have a width, and fill the vector exactly.
    pub open spec fn valid(self) -> bool {
        &&& self.lane_count != 0
        &&& self.lane_bits != 0
        &&& self.total_bits != 0
        &&& self.lane_count as int * self.lane_bits as int == self.total_bits
    }

    /// Creates a vector shape after validating its lane and total widths.
    #[must_use]
    pub fn new(
        lane_count: u32,
        lane_kind: VectorLaneKind,
        lane_bits: u32,
        total_bits: u32,
    ) -> (r: Option<Self>)
        ensures
            ({
                let shape = VectorShape { lane_count, lane_kind, lane_bits, total_bits };
                r == (if shape.valid() {
                    Some(shape)
                } else {
                    None
                })
            }),
    {
        if lane_count == 0 || lane_bits == 0 || total_bits == 0 {
            return None;
        }
        if !fills(lane_count, lane_bits, total_bits) {
            return None;
        }
        Some(VectorShape { lane_count, lane_kind, lane_bits, total_bits })
    }

    /// Returns `true` when the shape has a valid lane count and width product.
    #[must_use]
    pub fn is_valid(self) -> (r: bool)
        ensures
            r == self.valid(),
    {
        self.lane_count != 0 && self.lane_bits != 0 && self.total_bits != 0 && fills(
            self.lane_count,
            self.lane_bits,
            self.total_bits,
        )
    }
}

/// Describes the representation used for vector masks.
#[derive(Debug, Clone, Copy, PartialEq, Eq, Hash, Structural)]
pub struct VectorMaskShape {
    /// Number of predicate lanes in the mask.
    pub lane_count: u32,
    /// Number of bits used by each predicate lane.
    pub lane_bits: u32,
}

impl VectorMaskShape {
    /// The mask has lanes, and each lane has bits.
    pub open spec fn valid(self) -> bool {
        self.lane_count != 0 && self.lane_bits != 0
    }

    /// Creates a vector mask shape when the lane count and lane width are non-zero.
    #[must_use]
    pub fn new(lane_count: u32, lane_bits: u32) -> (r: Option<Self>)
        ensures
            ({
                let shape = VectorMaskShape { lane_count, lane_bits };
                r == (if shape.valid() {
                    Some(shape)
                } else {
                    None
                })
            }),
    {
        if lane_count == 0 || lane_bits == 0 {
            return None;
        }
        Some(VectorMaskShape { lane_count, lane_bits })
    }

    /// Returns `true` when the mask has non-zero lane count and lane width.
    #[must_use]
    pub fn is_valid(self) -> (r: bool)
        ensures
            r == self.valid(),
    {
        self.lane_count != 0 && self.lane_bits != 0
    }
}

/// Scales a vector shape relative to the target's runtime vector length.
#[derive(Debug, Clone, Copy, PartialEq, Eq, Hash, Structural)]
pub struct VectorLengthMultiplier {
    /// Numerator of the vector-length multiplier.
    pub numerator: u32,
    /// Denominator of the vector-length multiplier.
    pub denominator: u32,
}

impl VectorLengthMultiplier {
    /// Both parts of the fraction are non-zero.
    pub open spec fn valid(self) -> bool {
        self.numerator != 0 && self.denominator != 0
    }

    /// Creates a vector-length multiplier when both parts are non-zero.
    #[must_use]
    pub fn new(numerator: u32, denominator: u32) -> (r: Option<Self>)
        ensures
            ({
                let multiplier = VectorLengthMultiplier { numerator, denominator };
                r == (if multiplier.valid() {
                    Some(multiplier)
                } else {
                    None
                })
            }),
    {
        if numerator == 0 || denominator == 0 {
            return None;
        }
        Some(VectorLengthMultiplier { numerator, denominator })
    }

    /// Returns the neutral vector-length multiplier.
    #[must_use]
    pub fn one() -> (r: Self)
        ensures
            r.numerator == 1,
            r.denominator == 1,
            r.valid(),
    {
        VectorLengthMultiplier { numerator: 1, denominator: 1 }
    }

    /// Returns `true` when the multiplier has non-zero parts.
    #[must_use]
    pub fn is_valid(self) -> (r: bool)
        ensures
            r == self.valid(),
    {
        self.numerator != 0 && self.denominator != 0
    }
}

/// Tail-lane behavior for scalable vector operations.
#[derive(Debug, Clone, Copy, PartialEq, Eq, Hash, Structural)]
pub enum VectorTailPolicy {
    /// Inactive tail lanes may take any value.
    Agnostic,
    /// Inactive tail lanes preserve their previous value.
    Undisturbed,
}

/// Inactive-mask-lane behavior for scalable vector operations.
#[derive(Debug, Clone, Copy, PartialEq, Eq, Hash, Structural)]
pub enum VectorMaskPolicy {
    /// Inactive mask lanes may take any value.
    Agnostic,
    /// Inactive mask lanes preserve their previous value.
    Undisturbed,
}

/// Describes a scalable vector value whose concrete lane count is runtime-dependent.
#[derive(Debug, Clone, Copy, PartialEq, Eq, Hash, Structural)]
pub struct ScalableVectorShape {
    /// Minimum number of lanes guaranteed by the target type.
    pub min_lane_count: u32,
    /// Kind of scalar stored in each lane.
    pub lane_kind: VectorLaneKind,
    /// Bit width of each lane.
    pub lane_bits: u32,
    /// Runtime vector-length multiplier for this type.
    pub length_multiplier: VectorLengthMultiplier,
    /// Tail-lane behavior associated with operations over this type.
    pub tail_policy: VectorTailPolicy,
    /// Mask-lane behavior associated with predicated operations over this type.
    pub mask_policy: VectorMaskPolicy,
}

impl ScalableVectorShape {
    /// The shape has lanes with bits, and a valid multiplier.
    pub open spec fn valid(self) -> bool {
        self.min_lane_count != 0 && self.lane_bits != 0 && self.length_multiplier.valid()
    }

    /// Creates a scalable vector shape when its lane and multiplier fields are valid.
    #[must_use]
    pub fn new(
        min_lane_count: u32,
        lane_kind: VectorLaneKind,
        lane_bits: u32,
        length_multiplier: VectorLengthMultiplier,
        tail_policy: VectorTailPolicy,
        mask_policy: VectorMaskPolicy,
    ) -> (r: Option<Self>)
        ensures
            ({
                let shape = ScalableVectorShape {
                    min_lane_count,
                    lane_kind,
                    lane_bits,
                    length_multiplier,
                    tail_policy,
                    mask_policy,
                };
                r == (if shape.valid() {
                    Some(shape)
                } else {
                    None
                })
            }),
    {
        if min_lane_count == 0 || lane_bits == 0 || !length_multiplier.is_valid() {
            return None;
        }
        Some(
            ScalableVectorShape {
                min_lane_count,
                lane_kind,
                lane_bits,
                length_multiplier,
                tail_policy,
                mask_policy,
            },
        )
    }

    /// Returns `true` when the scalable vector descriptor is structurally valid.
    #[must_use]
    pub fn is_valid(self) -> (r: bool)
        ensures
            r == self.valid(),
    {
        self.min_lane_count != 0 && self.lane_bits != 0 && self.length_multiplier.is_valid()
    }
}

/// Describes a scalable predicate or mask value.
#[derive(Debug, Clone, Copy, PartialEq, Eq, Hash, Structural)]
pub struct ScalableVectorMaskShape {
    /// Minimum number of predicate lanes guaranteed by the target type.
    pub min_lane_count: u32,
    /// Number of bits used by each predicate lane.
    pub lane_bits: u32,
    /// Runtime vector-length multiplier for this predicate type.
    pub length_multiplier: VectorLengthMultiplier,
}

impl ScalableVectorMaskShape {
    /// The mask has lanes with bits, and a valid multiplier.
    pub open spec fn valid(self) -> bool {
        self.min_lane_count != 0 && self.lane_bits != 0 && self.length_multiplier.valid()
    }

    /// Creates a scalable vector mask shape when all fields are non-zero.
    #[must_use]
    pub fn new(
        min_lane_count: u32,
        lane_bits: u32,
        length_multiplier: VectorLengthMultiplier,
    ) -> (r: Option<Self>)
        ensures
            ({
                let shape = ScalableVectorMaskShape {
                    min_lane_count,
                    lane_bits,
                    length_multiplier,
                };
                r == (if shape.valid() {
                    Some(shape)
                } else {
                    None
                })
            }),
    {
        if min_lane_count == 0 || lane_bits == 0 || !length_multiplier.is_valid() {
            return None;
        }
        Some(ScalableVectorMaskShape { min_lane_count, lane_bits, length_multiplier })
    }

    /// Returns `true` when the scalable mask descriptor is structurally valid.
    #[must_use]
    pub fn is_valid(self) -> (r: bool)
        ensures
            r == self.valid(),
    {
        self.min_lane_count != 0 && self.lane_bits != 0 && self.length_multiplier.is_valid()
    }
}

/// Unified descriptor for fixed-width and scalable vector values.
#[derive(Debug, Clone, Copy, PartialEq, Eq, Hash, Structural)]
pub enum VectorDescriptor {
    /// Fixed-width vector with a statically known lane count and total width.
    Fixed(VectorShape),
    /// Scalable vector with a runtime-dependent lane count.
    Scalable(ScalableVectorShape),
}

impl VectorDescriptor {
    /// The described shape is valid.
    pub open spec fn valid(self) -> bool {
        match self {
            VectorDescriptor::Fixed(shape) => shape.valid(),
            VectorDescriptor::Scalable(shape) => shape.valid(),
        }
    }

    /// The mask with one bit for each lane of the vector.
    pub open spec fn mask(self) -> VectorMaskDescriptor {
        match self {
            VectorDescriptor::Fixed(shape) => VectorMaskDescriptor::Fixed(
                VectorMaskShape { lane_count: shape.lane_count, lane_bits: 1 },
            ),
            VectorDescriptor::Scalable(shape) => VectorMaskDescriptor::Scalable(
                ScalableVectorMaskShape {
                    min_lane_count: shape.min_lane_count,
                    lane_bits: 1,
                    length_multiplier: shape.length_multiplier,
                },
            ),
        }
    }

    /// Returns the vector lane kind.
    #[must_use]
    pub fn lane_kind(self) -> (r: VectorLaneKind)
        ensures
            r == (match self {
                VectorDescriptor::Fixed(shape) => shape.lane_kind,
                VectorDescriptor::Scalable(shape) => shape.lane_kind,
            }),
    {
        match self {
            VectorDescriptor::Fixed(shape) => shape.lane_kind,
            VectorDescriptor::Scalable(shape) => shape.lane_kind,
        }
    }

    /// Returns the vector lane bit width.
    #[must_use]
    pub fn lane_bits(self) -> (r: u32)
        ensures
            r == (match self {
                VectorDescriptor::Fixed(shape) => shape.lane_bits,
                VectorDescriptor::Scalable(shape) => shape.lane_bits,
            }),
    {
        match self {
            VectorDescriptor::Fixed(shape) => shape.lane_bits,
            VectorDescriptor::Scalable(shape) => shape.lane_bits,
        }
    }

    /// Returns the fixed lane count when statically known.
    #[must_use]
    pub fn fixed_lane_count(self) -> (r: Option<u32>)
        ensures
            r == (match self {
                VectorDescriptor::Fixed(shape) => Some(shape.lane_count),
                VectorDescriptor::Scalable(_) => None,
            }),
    {
        match self {
            VectorDescriptor::Fixed(shape) => Some(shape.lane_count),
            VectorDescriptor::Scalable(_) => None,
        }
    }

    /// Returns the minimum guaranteed lane count.
    #[must_use]
    pub fn min_lane_count(self) -> (r: u32)
        ensures
            r == (match self {
                VectorDescriptor::Fixed(shape) => shape.lane_count,
                VectorDescriptor::Scalable(shape) => shape.min_lane_count,
            }),
    {
        match self {
            VectorDescriptor::Fixed(shape) => shape.lane_count,
            VectorDescriptor::Scalable(shape) => shape.min_lane_count,
        }
    }

    /// Returns the fixed total bit width when statically known.
    #[must_use]
    pub fn total_bits(self) -> (r: Option<u32>)
        ensures
            r == (match self {
                VectorDescriptor::Fixed(shape) => Some(shape.total_bits),
                VectorDescriptor::Scalable(_) => None,
            }),
    {
        match self {
            VectorDescriptor::Fixed(shape) => Some(shape.total_bits),
            VectorDescriptor::Scalable(_) => None,
        }
    }

    /// Returns the canonical mask descriptor for this vector's lane count.
    #[must_use]
    pub fn mask_descriptor(self) -> (r: VectorMaskDescriptor)
        ensures
            r == self.mask(),
    {
        match self {
            VectorDescriptor::Fixed(shape) => VectorMaskDescriptor::Fixed(
                VectorMaskShape { lane_count: shape.lane_count, lane_bits: 1 },
            ),
            VectorDescriptor::Scalable(shape) => VectorMaskDescriptor::Scalable(
                ScalableVectorMaskShape {
                    min_lane_count: shape.min_lane_count,
                    lane_bits: 1,
                    length_multiplier: shape.length_multiplier,
                },
            ),
        }
    }
}

/// Unified descriptor for fixed-width and scalable vector masks.
#[derive(Debug, Clone, Copy, PartialEq, Eq, Hash, Structural)]
pub enum VectorMaskDescriptor {
    /// Fixed-width mask with a statically known lane count.
    Fixed(VectorMaskShape),
    /// Scalable predicate mask with a runtime-dependent lane count.
    Scalable(ScalableVectorMaskShape),
}

impl VectorMaskDescriptor {
    /// The described mask is valid.
    pub open spec fn valid(self) -> bool {
        match self {
            VectorMaskDescriptor::Fixed(shape) => shape.valid(),
            VectorMaskDescriptor::Scalable(shape) => shape.valid(),
        }
    }

    /// Returns the fixed lane count when statically known.
    #[must_use]
    pub fn fixed_lane_count(self) -> (r: Option<u32>)
        ensures
            r == (match self {
                VectorMaskDescriptor::Fixed(shape) => Some(shape.lane_count),
                VectorMaskDescriptor::Scalable(_) => None,
            }),
    {
        match self {
            VectorMaskDescriptor::Fixed(shape) => Some(shape.lane_count),
            VectorMaskDescriptor::Scalable(_) => None,
        }
    }

    /// Returns the minimum guaranteed mask lane count.
    #[must_use]
    pub fn min_lane_count(self) -> (r: u32)
        ensures
            r == (match self {
                VectorMaskDescriptor::Fixed(shape) => shape.lane_count,
                VectorMaskDescriptor::Scalable(shape) => shape.min_lane_count,
            }),
    {
        match self {
            VectorMaskDescriptor::Fixed(shape) => shape.lane_count,
            VectorMaskDescriptor::Scalable(shape) => shape.min_lane_count,
        }
    }

    /// Returns the number of bits used by each mask lane.
    #[must_use]
    pub fn lane_bits(self) -> (r: u32)
        ensures
            r == (match self {
                VectorMaskDescriptor::Fixed(shape) => shape.lane_bits,
                VectorMaskDescriptor::Scalable(shape) => shape.lane_bits,
            }),
    {
        match self {
            VectorMaskDescriptor::Fixed(shape) => shape.lane_bits,
            VectorMaskDescriptor::Scalable(shape) => shape.lane_bits,
        }
    }
}

/// The canonical mask of a valid vector is valid and has as many lanes as the vector.
pub proof fn mask_matches_vector(vector: VectorDescriptor)
    requires
        vector.valid(),
    ensures
        vector.mask().valid(),
        match (vector, vector.mask()) {
            (VectorDescriptor::Fixed(v), VectorMaskDescriptor::Fixed(m)) => m.lane_count
                == v.lane_count,
            (VectorDescriptor::Scalable(v), VectorMaskDescriptor::Scalable(m)) => m.min_lane_count
                == v.min_lane_count && m.length_multiplier == v.length_multiplier,
            _ => false,
        },
{
}

/// One lane selector in a vector shuffle mask.
#[derive(Debug, Clone, Copy, PartialEq, Eq, Hash, Structural)]
pub enum VectorShuffleLane {
    /// Produces an undefined lane.
    Undef,
    /// Produces a zero lane.
    Zero,
    /// Selects a lane from the first vector input.
    Left(u32),
    /// Selects a lane from the second vector input.
    Right(u32),
}

impl VectorShuffleLane {
    /// The selected lane exists in the inputs.
    pub open spec fn in_bounds(self, left_lanes: u32, right_lanes: Option<u32>) -> bool {
        match self {
            VectorShuffleLane::Undef => true,
            VectorShuffleLane::Zero => true,
            VectorShuffleLane::Left(idx) => idx < left_lanes,
            VectorShuffleLane::Right(idx) => right_lanes matches Some(count) && idx < count,
        }
    }
}

/// Describes lane selection for one- or two-input vector shuffles.
#[derive(Debug, Clone, PartialEq, Eq, Hash)]
pub struct VectorShuffleMask {
    lanes: Vec<VectorShuffleLane>,
}

impl View for VectorShuffleMask {
    type V = Seq<VectorShuffleLane>;

    closed spec fn view(&self) -> Seq<VectorShuffleLane> {
        self.lanes@
    }
}

impl VectorShuffleMask {
    /// Creates a shuffle mask from explicit lane selectors.
    #[must_use]
    pub fn new(lanes: Vec<VectorShuffleLane>) -> (r: Self)
        ensures
            r@ == lanes@,
    {
        VectorShuffleMask { lanes }
    }

    /// Returns the output lane selectors.
    #[must_use]
    pub fn lanes(&self) -> (r: &[VectorShuffleLane])
        ensures
            r@ == self@,
    {
        self.lanes.as_slice()
    }

    /// Returns `true` when there is an output lane and every selected input lane is in bounds.
    #[must_use]
    pub fn is_valid_for(&self, left_lanes: u32, right_lanes: Option<u32>) -> (r: bool)
        ensures
            r == (self@.len() > 0 && forall|i: int|
                0 <= i < self@.len() ==> (#[trigger] self@[i]).in_bounds(left_lanes, right_lanes)),
    {
        if self.lanes.len() == 0 {
            return false;
        }
        let mut i: usize = 0;
        while i < self.lanes.len()
            invariant
                i <= self.lanes@.len(),
                forall|j: int|
                    0 <= j < i ==> (#[trigger] self@[j]).in_bounds(left_lanes, right_lanes),
            decreases self.lanes@.len() - i,
        {
            let ok: bool = match self.lanes[i] {
                VectorShuffleLane::Undef => true,
                VectorShuffleLane::Zero => true,
                VectorShuffleLane::Left(idx) => idx < left_lanes,
                VectorShuffleLane::Right(idx) => match right_lanes {
                    Some(count) => idx < count,
                    None => false,
                },
            };
            if !ok {
                assert(!self@[i as int].in_bounds(left_lanes, right_lanes));
                return false;
            }
            i = i + 1;
        }
        true
    }
}

} // verus!
