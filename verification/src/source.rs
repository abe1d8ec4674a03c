//! The compression front-end.
//!
//! A byte source is sniffed by its leading magic bytes — never by a name —
//! and dispatched to the matching decoder: raw tar, gzip, bzip2, or xz. The
//! decoders themselves are outside crates consumed as opaque byte-stream
//! transforms; this module states only that each is a function of its input
//! bytes. Everything is decoded to an in-memory tar stream before parsing
//! begins.
#![verifier::loop_isolation(false)]

use crate::TarError;
use vstd::prelude::*;

verus! {

/// A supported outer format of a byte source.
#[derive(Clone, Copy, Debug, PartialEq, Eq, Structural)]
pub enum Format {
    Tar,
    Gzip,
    Bzip2,
    Xz,
}

/// The gzip magic: `1f 8b` and the deflate method byte.
pub open spec fn spec_is_gzip(s: Seq<u8>) -> bool {
    s.len() >= 3 && s[0] == 0x1f && s[1] == 0x8b && s[2] == 0x08
}

/// The bzip2 magic: `BZh`.
pub open spec fn spec_is_bzip2(s: Seq<u8>) -> bool {
    s.len() >= 3 && s[0] == 0x42 && s[1] == 0x5a && s[2] == 0x68
}

/// The xz magic: `fd 37 7a 58 5a 00`.
pub open spec fn spec_is_xz(s: Seq<u8>) -> bool {
    s.len() >= 6 && s[0] == 0xfd && s[1] == 0x37 && s[2] == 0x7a && s[3] == 0x58 && s[4] == 0x5a
        && s[5] == 0x00
}

/// The ustar magic at offset 257, common to the POSIX and GNU dialects.
pub open spec fn spec_is_tar_magic(s: Seq<u8>) -> bool {
    s.len() >= 262 && s[257] == 0x75 && s[258] == 0x73 && s[259] == 0x74 && s[260] == 0x61 && s[261]
        == 0x72
}

/// Sniff a source's format from its leading bytes, compressed envelopes
/// first.
pub open spec fn spec_detect(s: Seq<u8>) -> Option<Format> {
    if spec_is_gzip(s) {
        Some(Format::Gzip)
    } else if spec_is_bzip2(s) {
        Some(Format::Bzip2)
    } else if spec_is_xz(s) {
        Some(Format::Xz)
    } else if spec_is_tar_magic(s) {
        Some(Format::Tar)
    } else {
        None
    }
}

/// Detect the format of a byte source by magic-number sniffing.
pub fn detect_format(b: &Vec<u8>) -> (r: Option<Format>)
    ensures
        r == spec_detect(b@),
{
    if b.len() >= 3 && b[0] == 0x1f && b[1] == 0x8b && b[2] == 0x08 {
        Some(Format::Gzip)
    } else if b.len() >= 3 && b[0] == 0x42 && b[1] == 0x5a && b[2] == 0x68 {
        Some(Format::Bzip2)
    } else if b.len() >= 6 && b[0] == 0xfd && b[1] == 0x37 && b[2] == 0x7a && b[3] == 0x58 && b[4]
        == 0x5a && b[5] == 0x00 {
        Some(Format::Xz)
    } else if b.len() >= 262 && b[257] == 0x75 && b[258] == 0x73 && b[259] == 0x74 && b[260]
        == 0x61 && b[261] == 0x72 {
        Some(Format::Tar)
    } else {
        None
    }
}

/// What a gzip stream decompresses to; a function of the bytes alone.
pub uninterp spec fn gunzip_of(s: Seq<u8>) -> Seq<u8>;

/// What a bzip2 stream decompresses to; a function of the bytes alone.
pub uninterp spec fn bunzip_of(s: Seq<u8>) -> Seq<u8>;

/// What an xz stream decompresses to; a function of the bytes alone.
pub uninterp spec fn xz_of(s: Seq<u8>) -> Seq<u8>;

/// Relies on flate2's `GzDecoder`: gzip decompression is a deterministic
/// function of the input bytes; a malformed stream reads as an error.
#[verifier::external_body]
fn gunzip(b: &Vec<u8>) -> (r: Result<Vec<u8>, TarError>)
    ensures
        r matches Ok(out) ==> out@ == gunzip_of(b@),
        r matches Err(e) ==> e == TarError::Io,
{
    let mut d = flate2::read::GzDecoder::new(b.as_slice());
    let mut out = Vec::new();
    match std::io::Read::read_to_end(&mut d, &mut out) {
        Ok(_) => Ok(out),
        Err(_) => Err(TarError::Io),
    }
}

/// Relies on bzip2's `BzDecoder`: bzip2 decompression is a deterministic
/// function of the input bytes; a malformed stream reads as an error.
#[verifier::external_body]
fn bunzip(b: &Vec<u8>) -> (r: Result<Vec<u8>, TarError>)
    ensures
        r matches Ok(out) ==> out@ == bunzip_of(b@),
        r matches Err(e) ==> e == TarError::Io,
{
    let mut d = bzip2::read::BzDecoder::new(b.as_slice());
    let mut out = Vec::new();
    match std::io::Read::read_to_end(&mut d, &mut out) {
        Ok(_) => Ok(out),
        Err(_) => Err(TarError::Io),
    }
}

/// Relies on lzma_rs's `xz_decompress`: xz decompression is a deterministic
/// function of the input bytes, decoded fully into memory; a malformed
/// stream reads as an error.
#[verifier::external_body]
fn xz_unpack(b: &Vec<u8>) -> (r: Result<Vec<u8>, TarError>)
    ensures
        r matches Ok(out) ==> out@ == xz_of(b@),
        r matches Err(e) ==> e == TarError::Io,
{
    let mut input = b.as_slice();
    let mut out = Vec::new();
    match lzma_rs::xz_decompress(&mut input, &mut out) {
        Ok(_) => Ok(out),
        Err(_) => Err(TarError::Io),
    }
}

/// The tar bytes behind a detected source: the source itself for raw tar,
/// its decompression otherwise; `None` when no magic matches.
pub open spec fn spec_source_data(s: Seq<u8>) -> Option<Seq<u8>> {
    match spec_detect(s) {
        Some(Format::Tar) => Some(s),
        Some(Format::Gzip) => Some(gunzip_of(s)),
        Some(Format::Bzip2) => Some(bunzip_of(s)),
        Some(Format::Xz) => Some(xz_of(s)),
        None => None,
    }
}

/// Sniff a source and return the tar byte stream behind it.
///
/// An unrecognized magic is `UnsupportedFormat`; a recognized but
/// undecodable compressed stream is `Io`.
pub fn open_source(input: Vec<u8>) -> (r: Result<Vec<u8>, TarError>)
    ensures
        match spec_source_data(input@) {
            Some(d) => match r {
                Ok(out) => out@ == d,
                Err(e) => e == TarError::Io && spec_detect(input@) != Some(Format::Tar),
            },
            None => r == Err::<Vec<u8>, TarError>(TarError::UnsupportedFormat),
        },
{
    match detect_format(&input) {
        Some(Format::Tar) => Ok(input),
        Some(Format::Gzip) => gunzip(&input),
        Some(Format::Bzip2) => bunzip(&input),
        Some(Format::Xz) => xz_unpack(&input),
        None => Err(TarError::UnsupportedFormat),
    }
}

} // verus!
