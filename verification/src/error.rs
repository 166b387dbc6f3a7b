//! Failure classes for decoding, encoding, and construction.

use vstd::prelude::*;

verus! {

/// Why a decode, encode, or construction step failed.
///
/// Every malformed-input condition aborts the entire enclosing section
/// decode: there is never a partial result.
#[derive(Clone, Copy, Debug, PartialEq, Eq, Structural)]
pub enum Error {
    /// A variable-length integer ran past the end of the buffer, used more
    /// bytes than its target width allows, or set bits beyond that width.
    MalformedInteger,
    /// A length-prefixed byte span ran past the end of the buffer, or a
    /// string's bytes were not valid UTF-8.
    MalformedString,
    /// A subsection discriminant, kind tag, or enumerated value outside its
    /// recognized set.
    UnknownDiscriminant,
    /// A subsection discriminant or portal value that was not strictly
    /// greater than the previous one in its stream.
    OutOfOrderField,
    /// A framed payload whose grammar did not consume its entire span.
    TrailingBytes,
    /// The module's `name`/`producers`/`daku` sections appeared more than
    /// once or out of their required relative order.
    SectionOrderViolation,
    /// A caller tried to build a value that violates a construction-time
    /// contract, such as appending a non-increasing portal.
    BuilderContractViolation,
    /// The external module container failed to parse or serialize the
    /// surrounding module.
    Module,
}

} // verus!
