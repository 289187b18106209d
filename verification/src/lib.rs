//! The logic behind the `SchemaRead` and `SchemaWrite` derives: how the types of fields are
//! rewritten, which metadata is combined, which arguments are accepted, and how the fields of
//! a declaration are grouped into runs that are read and written through trusted windows.

pub mod args;
pub mod decode;
pub mod encode;
pub mod field;
pub mod fields;
pub mod generics;
pub mod infer;
pub mod lifetimes;
pub mod meta;
pub mod names;
pub mod record;
pub mod repr;
pub mod runs;
pub mod schema;
pub mod syntax;
pub mod text;
pub mod variant;
pub mod wire;
