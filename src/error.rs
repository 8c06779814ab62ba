//! Errors of the decoders, encoders and the splitter.
use vstd::prelude::*;

verus! {

/// Why a decode, an encode or a split failed.
#[derive(Debug, Clone, Copy, PartialEq, Eq, Structural)]
pub enum SchematicError {
    /// Structurally invalid bytes: wrong root type, negative length, unknown
    /// tag id, truncated stream.
    Format,
    /// A required key is absent from an otherwise well-formed tree.
    MissingField,
    /// A field is present but has the wrong shape.
    TypeMismatch,
    /// A palette index out of range, or a referenced entry that is missing.
    Lookup,
    /// Invalid split parameters.
    Configuration,
}

} // verus!
