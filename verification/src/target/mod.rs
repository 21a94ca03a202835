//! The abstraction that makes the intermediate representation generic over an instruction set.
pub mod bytes;
pub mod endian;
pub mod vector;

use crate::ir::value::ConstValue;
pub use crate::target::endian::Endianness;
pub use crate::target::vector::{
    ScalableVectorMaskShape, ScalableVectorShape, VectorDescriptor, VectorLaneKind,
    VectorLengthMultiplier, VectorMaskDescriptor, VectorMaskPolicy, VectorMaskShape, VectorShape,
    VectorShuffleLane, VectorShuffleMask, VectorTailPolicy,
};
use vstd::prelude::*;

verus! {

/// An instruction set, described by the references and types its programs carry.
///
/// References are opaque handles: the library copies them and never looks inside.
pub trait Target: Sized {
    /// Reference to a user-defined or built-in type in the host's metadata.
    type TypeRef: Copy;

    /// Reference to a method in the host's metadata.
    type MethodRef: Copy;

    /// Reference to a field in the host's metadata.
    type FieldRef: Copy;

    /// Reference to a standalone signature in the host's metadata.
    type SigRef: Copy;

    /// Host-defined exception-handler kind.
    type ExceptionKind: Copy;

    /// Host's type representation.
    type Type: Copy;

    /// Original-instruction breadcrumb retained for debugging and source mapping.
    type OriginalInstruction;

    /// Local-variable signature data preserved through construction.
    type LocalSignature;

    /// Capability tag by which the pass pipeline orders passes.
    type Capability;

    /// Returns whether two capability tags are the same.
    fn same_capability(a: &Self::Capability, b: &Self::Capability) -> (r: bool)
        ensures
            r == (*a == *b),
    ;

    /// Pointer width in bytes.
    fn ptr_bytes(&self) -> u32;

    /// Byte ordering for multi-byte values in memory; little-endian unless overridden.
    fn endianness(&self) -> (r: Endianness)
        default_ensures
            r == Endianness::Little,
    {
        Endianness::Little
    }

    /// Returns a placeholder original-instruction value for synthetic nodes.
    fn synthetic_instruction() -> Self::OriginalInstruction;

    /// The canonical "not yet inferred" type, as a mathematical value.
    spec fn no_type() -> Self::Type;

    /// The canonical "not yet inferred" type.
    fn unknown_type() -> (r: Self::Type)
        ensures
            r == Self::no_type(),
    ;

    /// `true` if `t` is an integer type.
    fn is_integer(t: &Self::Type) -> bool;

    /// `true` if `t` is a floating-point type.
    fn is_floating(t: &Self::Type) -> bool;

    /// `true` if `t` is a signed integer type.
    fn is_signed(t: &Self::Type) -> bool;

    /// `true` if `t` is a pointer to another type.
    fn is_pointer(t: &Self::Type) -> bool;

    /// `true` if `t` is a reference type.
    fn is_reference(t: &Self::Type) -> bool;

    /// `true` if `t` is the "not yet inferred" type.
    fn is_unknown(t: &Self::Type) -> bool;

    /// Bit width of `t` where it is statically known.
    fn bit_width(t: &Self::Type) -> Option<u32>;

    /// `true` if `t` is a vector type known to this target.
    fn is_vector(t: &Self::Type) -> (r: bool)
        default_ensures
            exists|shape: Option<VectorDescriptor>| #[trigger]
                call_ensures(Self::vector_descriptor, (t,), shape) && r == (shape is Some),
    {
        match Self::vector_descriptor(t) {
            Some(_) => true,
            None => false,
        }
    }

    /// Returns the vector shape of `t`, if known.
    fn vector_shape(_t: &Self::Type) -> (r: Option<VectorShape>)
        default_ensures
            r is None,
    {
        None
    }

    /// Returns the scalable vector shape of `t`, if known.
    fn scalable_vector_shape(_t: &Self::Type) -> (r: Option<ScalableVectorShape>)
        default_ensures
            r is None,
    {
        None
    }

    /// Returns the fixed shape of `t`, or else its scalable shape.
    fn vector_descriptor(t: &Self::Type) -> (r: Option<VectorDescriptor>)
        default_ensures
            match r {
                Some(VectorDescriptor::Fixed(shape)) => call_ensures(
                    Self::vector_shape,
                    (t,),
                    Some(shape),
                ),
                Some(VectorDescriptor::Scalable(shape)) => call_ensures(
                    Self::vector_shape,
                    (t,),
                    None::<VectorShape>,
                ) && call_ensures(Self::scalable_vector_shape, (t,), Some(shape)),
                None => call_ensures(Self::vector_shape, (t,), None::<VectorShape>)
                    && call_ensures(
                    Self::scalable_vector_shape,
                    (t,),
                    None::<ScalableVectorShape>,
                ),
            },
    {
        match Self::vector_shape(t) {
            Some(shape) => Some(VectorDescriptor::Fixed(shape)),
            None => match Self::scalable_vector_shape(t) {
                Some(shape) => Some(VectorDescriptor::Scalable(shape)),
                None => None,
            },
        }
    }

    /// Returns the target type for `shape`, if the target supports it.
    fn vector_type(_shape: VectorShape) -> (r: Option<Self::Type>)
        default_ensures
            r is None,
    {
        None
    }

    /// Returns the target type for scalable `shape`, if the target supports it.
    fn scalable_vector_type(_shape: ScalableVectorShape) -> (r: Option<Self::Type>)
        default_ensures
            r is None,
    {
        None
    }

    /// Returns the scalar lane type for `shape`, if the target supports it.
    fn vector_lane_type(_shape: VectorShape) -> (r: Option<Self::Type>)
        default_ensures
            r is None,
    {
        None
    }

    /// Returns the scalar lane type for scalable `shape`, if the target supports it.
    fn scalable_vector_lane_type(_shape: ScalableVectorShape) -> (r: Option<Self::Type>)
        default_ensures
            r is None,
    {
        None
    }

    /// Returns the scalar lane type for fixed or scalable `shape`, if supported.
    fn vector_descriptor_lane_type(shape: VectorDescriptor) -> (r: Option<Self::Type>)
        default_ensures
            match shape {
                VectorDescriptor::Fixed(shape) => call_ensures(
                    Self::vector_lane_type,
                    (shape,),
                    r,
                ),
                VectorDescriptor::Scalable(shape) => call_ensures(
                    Self::scalable_vector_lane_type,
                    (shape,),
                    r,
                ),
            },
    {
        match shape {
            VectorDescriptor::Fixed(shape) => Self::vector_lane_type(shape),
            VectorDescriptor::Scalable(shape) => Self::scalable_vector_lane_type(shape),
        }
    }

    /// Returns the fixed vector mask shape of `t`, if known.
    fn vector_mask_shape(_t: &Self::Type) -> (r: Option<VectorMaskShape>)
        default_ensures
            r is None,
    {
        None
    }

    /// Returns the scalable vector mask shape of `t`, if known.
    fn scalable_vector_mask_shape(_t: &Self::Type) -> (r: Option<ScalableVectorMaskShape>)
        default_ensures
            r is None,
    {
        None
    }

    /// Returns the fixed mask shape of `t`, or else its scalable mask shape.
    fn vector_mask_descriptor(t: &Self::Type) -> (r: Option<VectorMaskDescriptor>)
        default_ensures
            match r {
                Some(VectorMaskDescriptor::Fixed(shape)) => call_ensures(
                    Self::vector_mask_shape,
                    (t,),
                    Some(shape),
                ),
                Some(VectorMaskDescriptor::Scalable(shape)) => call_ensures(
                    Self::vector_mask_shape,
                    (t,),
                    None::<VectorMaskShape>,
                ) && call_ensures(Self::scalable_vector_mask_shape, (t,), Some(shape)),
                None => call_ensures(Self::vector_mask_shape, (t,), None::<VectorMaskShape>)
                    && call_ensures(
                    Self::scalable_vector_mask_shape,
                    (t,),
                    None::<ScalableVectorMaskShape>,
                ),
            },
    {
        match Self::vector_mask_shape(t) {
            Some(shape) => Some(VectorMaskDescriptor::Fixed(shape)),
            None => match Self::scalable_vector_mask_shape(t) {
                Some(shape) => Some(VectorMaskDescriptor::Scalable(shape)),
                None => None,
            },
        }
    }

    /// Returns the target mask type for `shape`, if the target supports it.
    fn vector_mask_type(_shape: VectorMaskShape) -> (r: Option<Self::Type>)
        default_ensures
            r is None,
    {
        None
    }

    /// Returns the target scalable mask type for `shape`, if the target supports it.
    fn scalable_vector_mask_type(_shape: ScalableVectorMaskShape) -> (r: Option<Self::Type>)
        default_ensures
            r is None,
    {
        None
    }

    /// Returns the target mask type for fixed or scalable `shape`, if supported.
    fn vector_mask_descriptor_type(shape: VectorMaskDescriptor) -> (r: Option<Self::Type>)
        default_ensures
            match shape {
                VectorMaskDescriptor::Fixed(shape) => call_ensures(
                    Self::vector_mask_type,
                    (shape,),
                    r,
                ),
                VectorMaskDescriptor::Scalable(shape) => call_ensures(
                    Self::scalable_vector_mask_type,
                    (shape,),
                    r,
                ),
            },
    {
        match shape {
            VectorMaskDescriptor::Fixed(shape) => Self::vector_mask_type(shape),
            VectorMaskDescriptor::Scalable(shape) => Self::scalable_vector_mask_type(shape),
        }
    }

    /// Mnemonic for the original instruction breadcrumb.
    fn instruction_mnemonic(instr: &Self::OriginalInstruction) -> &'static str;

    /// Address of the original instruction; hosts without source mapping return 0.
    fn instruction_rva(instr: &Self::OriginalInstruction) -> u64;

    /// `true` if `flags` denotes a filter-style exception handler.
    fn is_filter_handler(flags: &Self::ExceptionKind) -> bool;

    /// Result type for a constant.
    fn result_type_for_const(_value: &ConstValue) -> (r: Option<Self::Type>)
        default_ensures
            r is None,
    {
        None
    }

    /// Result type of a comparison.
    fn comparison_result_type() -> (r: Option<Self::Type>)
        default_ensures
            r is None,
    {
        None
    }

    /// Result type of plain integer arithmetic.
    fn arithmetic_result_type() -> (r: Option<Self::Type>)
        default_ensures
            r is None,
    {
        None
    }

    /// Result type of native-integer producing operations.
    fn native_int_result_type() -> (r: Option<Self::Type>)
        default_ensures
            r is None,
    {
        None
    }

    /// Result type of the finiteness check.
    fn ckfinite_result_type() -> (r: Option<Self::Type>)
        default_ensures
            r is None,
    {
        None
    }

    /// Result type of function-pointer loads.
    fn function_ptr_result_type() -> (r: Option<Self::Type>)
        default_ensures
            r is None,
    {
        None
    }

    /// Result type of object-producing operations.
    fn object_result_type() -> (r: Option<Self::Type>)
        default_ensures
            r is None,
    {
        None
    }

    /// Value-typed view of `r`.
    fn value_type_from_ref(_r: &Self::TypeRef) -> (r: Option<Self::Type>)
        default_ensures
            r is None,
    {
        None
    }

    /// Managed reference to the value-typed view of `r`.
    fn byref_value_type_from_ref(_r: &Self::TypeRef) -> (r: Option<Self::Type>)
        default_ensures
            r is None,
    {
        None
    }

    /// Managed reference to a class-typed element of `r`.
    fn byref_class_type_from_ref(_r: &Self::TypeRef) -> (r: Option<Self::Type>)
        default_ensures
            r is None,
    {
        None
    }

    /// Converts a constant to `target_type`; `None` means "unsupported".
    fn convert_const(
        _value: &ConstValue,
        _target_type: &Self::Type,
        _unsigned_source: bool,
        _ptr_bytes: u32,
    ) -> (r: Option<ConstValue>)
        default_ensures
            r is None,
    {
        None
    }

    /// Converts a constant to `target_type` with overflow checking.
    fn convert_const_checked(
        _value: &ConstValue,
        _target_type: &Self::Type,
        _unsigned_source: bool,
        _ptr_bytes: u32,
    ) -> (r: Option<ConstValue>)
        default_ensures
            r is None,
    {
        None
    }

    /// Produces a typed constant from a raw value and a target type.
    fn evaluate_int_conv(
        _value: i64,
        _target_type: &Self::Type,
        _unsigned: bool,
        _ptr_bytes: u32,
    ) -> (r: Option<ConstValue>)
        default_ensures
            r is None,
    {
        None
    }
}

} // verus!
