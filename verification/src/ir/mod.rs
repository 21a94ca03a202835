//! The intermediate representation.
pub mod block;
pub mod defects;
pub mod edit;
pub mod function;
pub mod ops;
pub mod phi;
pub mod renaming;
pub mod value;
pub mod variable;
