//! A small instruction set, a small program and sample functions to try the library on.
pub mod fixtures;
pub mod mock;
pub mod world;

pub use crate::testing::fixtures::{
    const_i32_return, create_i32_local, diamond_phi_fixture, loop_counter_fixture,
    memory_effect_fixture, mock_i32, mock_i64, mock_mask4, mock_op_at, mock_op_count, mock_ptr,
    mock_ref, mock_terminator_at, mock_v4i32, scalar_rewrite_fixture,
};
pub use crate::testing::mock::{MockTarget, MockType};
pub use crate::testing::world::MockWorld;
