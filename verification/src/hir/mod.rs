//! The checked form of a `bits!` definition, from which code is generated.

pub mod data;
pub mod enm;
pub mod field;
pub mod layout;
pub mod mask;
pub mod strct;
pub mod value;
pub mod variant;

pub use data::Data;
pub use enm::Enum;
pub use field::Field;
pub use layout::Layout;
pub use mask::Mask;
pub use strct::Struct;
