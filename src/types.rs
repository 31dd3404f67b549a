//! Type descriptors and the error taxonomy.
use vstd::prelude::*;

verus! {

/// Why an input was refused.
#[derive(Debug, Clone, Copy, PartialEq, Eq, Structural)]
pub enum SszError {
    BadOffset,
    NonCanonical,
    BitlistPadding,
    UnsupportedType,
    MalformedHeader,
    LengthOverflow,
    UnexpectedEOF,
}

/// The shape of an SSZ type.
pub enum Descriptor {
    /// An unsigned integer or byte blob of `size` bytes (1, 2, 4, 8, 16 or 32).
    Basic { size: usize },
    /// Exactly `length` elements.
    Vector { element: Box<Descriptor>, length: usize },
    /// At most `limit` elements.
    List { element: Box<Descriptor>, limit: usize },
    /// An ordered tuple of fields.
    Container { fields: Vec<Descriptor> },
    /// At most `limit` bits, terminated by a sentinel bit.
    Bitlist { limit: usize },
    /// Exactly `length` bits.
    Bitvector { length: usize },
}

/// The kind of a compact descriptor.
#[derive(Debug, Clone, Copy, PartialEq, Eq, Structural)]
pub enum TypeKind {
    Basic,
    Vector,
    List,
    Container,
    Bitlist,
}

/// A compact descriptor for flat types: `fixed_size` is the byte size of a
/// basic value, of the basic elements of a list or vector, or of a whole
/// container; a bitlist carries none.
#[derive(Debug, Clone, Copy, PartialEq, Eq, Structural)]
pub struct TypeDesc {
    pub kind: TypeKind,
    pub fixed_size: Option<usize>,
}

} // verus!
