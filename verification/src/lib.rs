//! Codec for the optional, order-sensitive metadata sections that ride along
//! with a WebAssembly module as custom sections.
//!
//! The library decodes and encodes three known section kinds — the debugging
//! `name` section, the toolchain `producers` section, and the vendor
//! `daku` capability section — between their raw byte payloads and
//! strongly-typed, validated values.  The shared machinery is a bounds-checked
//! byte cursor, an append-only byte writer, a base-128 variable-length
//! integer codec, and an ordered-subsection state machine that rejects
//! out-of-order or malformed input without partial results.

pub mod daku;
pub mod error;
pub mod fields;
pub mod maps;
pub mod module;
pub mod names;
pub mod producers;
pub mod reader;
pub mod section;
pub mod stream;
pub mod varint;
pub mod writer;

pub use error::Error;
pub use module::Module;
pub use reader::Reader;
pub use section::Section;
pub use writer::Writer;
