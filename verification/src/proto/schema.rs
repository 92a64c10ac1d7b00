//! Runtime schema descriptors: which field numbers a message has, under what
//! names, with which value types, and whether they repeat.

use vstd::prelude::*;

verus! {

/// The value type of a schema field.
pub enum ProtoType {
    /// A varint, read as a signed 64-bit integer (its 64 bits reinterpreted).
    Int,
    /// A varint, read as a signed 64-bit integer (its 64 bits reinterpreted).
    Long,
    /// A varint read as a boolean (true exactly when it is 1).
    Bool,
    /// A length-delimited UTF-8 string (invalid sequences are replaced).
    String,
    /// A length-delimited byte string, rendered in standard Base64.
    Bytes,
    /// A length-delimited nested message decoded with its own schema.
    Message(Box<Schema>),
    /// A fixed 64-bit IEEE double.
    Double,
    /// A fixed 32-bit IEEE float.
    Float,
}

/// One field of a schema: the output name, the value type, and whether all
/// occurrences are collected into an array.
pub struct FieldDef {
    pub name: String,
    pub ty: ProtoType,
    pub repeated: bool,
}

/// A message schema: field numbers with their definitions, in output order.
pub struct Schema {
    pub fields: Vec<(u32, FieldDef)>,
}

} // verus!
