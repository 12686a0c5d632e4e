//! The parsed form of a `bits!` definition.

pub mod data;
pub mod field;
pub mod value;
pub mod values;
pub mod variant;

pub use data::{Body, Data};
pub use field::Field;
pub use value::Value;
pub use values::Values;
pub use variant::Variant;
