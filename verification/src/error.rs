use vstd::prelude::*;

verus! {

/// Error taxonomy for module extraction. Every error is fatal to the module
/// being processed: callers propagate it and abort the whole run rather than
/// skipping the module, since a silently dropped module would produce
/// misleading "no match" results for functions that were never compared.
#[derive(Clone, Copy, Debug, PartialEq, Eq, Structural)]
pub enum ExtractError {
    /// A required attribute or element is absent in the module metadata.
    MissingField,
    /// An address or offset string is not valid hexadecimal (or a function's
    /// address range is not a well-formed span of whole instruction words).
    MalformedHex,
    /// An address resolves to no memory segment.
    AddressNotMapped,
    /// The library path pattern does not match, so no namespace can be derived.
    NamespaceUnparsable,
    /// The function's code lies outside the module's raw memory image.
    Io,
}

} // verus!
