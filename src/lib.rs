//! Binary encoding of typed values for an interface description language:
//! a type table built from (possibly recursive) structural types, followed
//! by the values encoded against it.

pub mod hash;
pub mod leb;
pub mod value;
pub mod types;
pub mod registry;
pub mod table;
pub mod builder;
pub mod conform;
pub mod model;
