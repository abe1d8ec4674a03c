//! A library for reading and writing Unix `tar` archives, optionally wrapped
//! in gzip, bzip2, or xz compression, plus safe extraction planning.
//!
//! The archive codec itself — fixed-size header records, checksums, octal and
//! base-256 numeric fields, GNU and PAX extension records, padding — is
//! implemented and verified here. The gzip/bzip2/xz decompression algorithms
//! are consumed as opaque byte-stream transforms from outside crates.

use vstd::prelude::*;

pub mod archive;
pub mod entry;
pub mod extract;
pub mod header;
pub mod laws;
pub mod num;
pub mod pax;
pub mod source;
pub mod writer;

pub use archive::Archive;
pub use entry::Entry;
pub use extract::Sanitized;
pub use extract::UnpackAction;
pub use header::EntryType;
pub use header::Header;
pub use pax::PaxRecord;
pub use source::Format;
pub use writer::Builder;

verus! {

/// The error kinds this library reports.
///
/// `CorruptHeader` covers checksum mismatches and unparseable numeric fields,
/// `UnsupportedFormat` a byte source whose leading bytes match no supported
/// compression or tar magic, `FieldOverflow` a value too large for its
/// fixed-width header field, `NameTooLong` a path or link name exceeding the
/// non-extended field width, and `Io` a failure reported by a decompressor.
#[derive(Clone, Copy, Debug, PartialEq, Eq, Structural)]
pub enum TarError {
    CorruptHeader,
    UnsupportedFormat,
    FieldOverflow,
    NameTooLong,
    Io,
}

} // verus!
