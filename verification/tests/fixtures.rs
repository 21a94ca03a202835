//! The small instruction set, the small program and the sample functions.
use analyssa::ir::value::ConstValue;
use analyssa::target::{Endianness, Target};
use analyssa::testing::{const_i32_return, MockTarget, MockType, MockWorld};
use analyssa::world::World;

#[test]
fn mock_target_does_not_pull_in_host_metadata() {
    assert_eq!(MockTarget.ptr_bytes(), 8);
    assert_eq!(MockTarget.endianness(), Endianness::Little);
    assert!(MockTarget::is_integer(&MockType::I32));
    assert!(!MockTarget::is_integer(&MockType::Ref));
    assert!(MockTarget::is_floating(&MockType::F64));
    assert!(MockTarget::is_signed(&MockType::I64));
    assert!(MockTarget::is_pointer(&MockType::Ptr));
    assert!(MockTarget::is_reference(&MockType::Ref));
    assert!(MockTarget::is_unknown(&MockType::Unknown));
    assert_eq!(MockTarget::bit_width(&MockType::I64), Some(64));
    assert_eq!(MockTarget::unknown_type(), MockType::Unknown);
    assert_eq!(MockTarget::synthetic_instruction(), ());
    assert_eq!(MockTarget::instruction_mnemonic(&()), "<mock>");
    assert_eq!(MockTarget::instruction_rva(&()), 0);
    assert!(!MockTarget::is_filter_handler(&0));
}

#[test]
fn default_type_and_conversion_hooks_are_unsupported_for_mock_target() {
    let value = ConstValue::I32(1);

    assert_eq!(MockTarget::result_type_for_const(&value), None);
    assert_eq!(MockTarget::comparison_result_type(), None);
    assert_eq!(MockTarget::arithmetic_result_type(), None);
    assert_eq!(MockTarget::native_int_result_type(), None);
    assert_eq!(MockTarget::ckfinite_result_type(), None);
    assert_eq!(MockTarget::function_ptr_result_type(), None);
    assert_eq!(MockTarget::object_result_type(), None);
    assert_eq!(MockTarget::value_type_from_ref(&1), None);
    assert_eq!(MockTarget::byref_value_type_from_ref(&1), None);
    assert_eq!(MockTarget::byref_class_type_from_ref(&1), None);
    assert_eq!(
        MockTarget::convert_const(&value, &MockType::I64, false, MockTarget.ptr_bytes()),
        None
    );
    assert_eq!(
        MockTarget::convert_const_checked(
            &value,
            &MockType::I64,
            false,
            MockTarget.ptr_bytes()
        ),
        None
    );
    assert_eq!(
        MockTarget::evaluate_int_conv(1, &MockType::I64, false, MockTarget.ptr_bytes()),
        None
    );
}

#[test]
fn mock_world_basic_queries() {
    let mut world = MockWorld::new(vec![1u32, 2, 3, 4], vec![1u32], vec![(1u32, 2), (2, 3)]);

    assert_eq!(world.all_methods(), &vec![1, 2, 3, 4]);
    assert_eq!(world.entry_methods(), vec![1]);
    assert_eq!(world.callees_of(&1), vec![2]);
    assert_eq!(world.callees_of(&2), vec![3]);
    let order: Vec<u32> = world
        .methods_reverse_topological()
        .into_iter()
        .map(|position| world.method(position))
        .collect();
    assert_eq!(order, vec![1, 2, 3, 4]);
    assert!(world.callees_of(&4).is_empty());
    assert!(!world.is_dead(&4));

    world.mark_dead(&4);
    assert!(world.is_dead(&4));
    assert_eq!(world.dead_set(), vec![4u32]);
}

#[test]
fn const_i32_return_builds_valid_fixture() {
    let ssa = const_i32_return(42);

    assert_eq!(ssa.variables().len(), 1);
    assert_eq!(
        ssa.block(0).map(|block| block.instructions().len()),
        Some(2)
    );
}
