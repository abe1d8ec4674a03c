//! The archive writer: a sequential appender producing a valid padded tar
//! stream in memory.
//!
//! Each append writes one 512-byte GNU-dialect header, the body bytes, and
//! zero padding to the next 512-byte boundary. `finish` consumes the builder
//! and emits the two all-zero trailer blocks, which makes use after
//! finalization impossible by construction.
#![verifier::loop_isolation(false)]

use crate::header::fields_valid;
use crate::header::lemma_header_roundtrip;
use crate::header::lemma_parts_layout;
use crate::header::spec_encode_header;
use crate::header::spec_header_parts;
use crate::header::EntryType;
use crate::header::Header;
use crate::header::HeaderFields;
use crate::num::pad512;
use crate::num::zeros;
use crate::TarError;
use vstd::prelude::*;

verus! {

/// A name that fits a fixed NUL-terminated field of width `max`.
pub open spec fn name_ok(s: Seq<u8>, max: nat) -> bool {
    s.len() <= max && forall|i: int| 0 <= i < s.len() ==> s[i] != 0
}

pub open spec fn record_fields(
    path: Seq<u8>,
    link: Seq<u8>,
    mode: nat,
    uid: nat,
    gid: nat,
    size: nat,
    mtime: nat,
    etype: EntryType,
) -> HeaderFields {
    HeaderFields { path, link, mode, uid, gid, size, mtime, etype }
}

/// One complete archive record: encoded header, body, zero padding.
pub open spec fn spec_record(f: HeaderFields, data: Seq<u8>) -> Seq<u8> {
    spec_encode_header(f) + data + zeros(pad512(data.len()))
}

/// What `append_entry` does for the given arguments: the first failing
/// check, or the appended record.
pub open spec fn spec_append_result(
    path: Seq<u8>,
    link: Option<Seq<u8>>,
    mode: nat,
    uid: nat,
    gid: nat,
) -> Result<(), TarError> {
    if !name_ok(path, 100) {
        Err(TarError::NameTooLong)
    } else if mode >= 0o10000000 {
        Err(TarError::FieldOverflow)
    } else if uid >= 0x8000000000000000 {
        Err(TarError::FieldOverflow)
    } else if gid >= 0x8000000000000000 {
        Err(TarError::FieldOverflow)
    } else if link matches Some(l) && !name_ok(l, 100) {
        Err(TarError::NameTooLong)
    } else {
        Ok(())
    }
}

pub open spec fn spec_link_view(link: Option<&Vec<u8>>) -> Seq<u8> {
    match link {
        Some(l) => l@,
        None => Seq::empty(),
    }
}

pub open spec fn spec_opt_link_view(link: Option<&Vec<u8>>) -> Option<Seq<u8>> {
    match link {
        Some(l) => Some(l@),
        None => None,
    }
}

/// A sequential archive writer over a growable in-memory buffer.
pub struct Builder {
    data: Vec<u8>,
}

impl View for Builder {
    type V = Seq<u8>;

    closed spec fn view(&self) -> Seq<u8> {
        self.data@
    }
}

impl Builder {
    /// Create a new builder writing to a fresh in-memory buffer.
    pub fn new() -> (b: Builder)
        ensures
            b@ == Seq::<u8>::empty(),
    {
        Builder { data: Vec::new() }
    }

    /// Append one entry built from plain values: a GNU-dialect header
    /// carrying the given metadata, then `data`, then padding.
    ///
    /// Fails without changing the stream when the path or link name cannot
    /// be encoded (`NameTooLong`) or a numeric value exceeds its field
    /// (`FieldOverflow`).
    pub fn append_entry(
        &mut self,
        path: &Vec<u8>,
        etype: EntryType,
        mode: u32,
        uid: u64,
        gid: u64,
        mtime: u64,
        link: Option<&Vec<u8>>,
        data: &Vec<u8>,
    ) -> (r: Result<(), TarError>)
        ensures
            r == spec_append_result(path@, spec_opt_link_view(link), mode as nat, uid as nat, gid as nat),
            r is Err ==> final(self)@ == old(self)@,
            r is Ok ==> final(self)@ == old(self)@ + spec_record(
                record_fields(
                    path@,
                    spec_link_view(link),
                    mode as nat,
                    uid as nat,
                    gid as nat,
                    data@.len(),
                    mtime as nat,
                    etype,
                ),
                data@,
            ),
    {
        let ghost f = record_fields(
            path@,
            spec_link_view(link),
            mode as nat,
            uid as nat,
            gid as nat,
            data@.len(),
            mtime as nat,
            etype,
        );
        let mut h = Header::new_gnu();
        let ghost h0 = h@;
        match h.set_path(path) {
            Ok(_) => (),
            Err(e) => {
                return Err(e);
            },
        }
        let ghost h1 = h@;
        match h.set_mode(mode) {
            Ok(_) => (),
            Err(e) => {
                return Err(e);
            },
        }
        let ghost h2 = h@;
        match h.set_uid(uid) {
            Ok(_) => (),
            Err(e) => {
                return Err(e);
            },
        }
        let ghost h3 = h@;
        match h.set_gid(gid) {
            Ok(_) => (),
            Err(e) => {
                return Err(e);
            },
        }
        let ghost h4 = h@;
        match link {
            Some(l) => {
                match h.set_link_name(l) {
                    Ok(_) => (),
                    Err(e) => {
                        return Err(e);
                    },
                }
            },
            None => (),
        }
        let ghost h5 = h@;
        h.set_size(data.len() as u64);
        let ghost h6 = h@;
        h.set_time(mtime);
        let ghost h7 = h@;
        h.set_entry_type(etype);
        let ghost h8 = h@;
        proof {
            lemma_parts_layout(f, zeros(8));
            let pre = spec_header_parts(f, zeros(8));
            assert forall|i: int| 0 <= i < 512 implies h8[i] == pre[i] by {
                if i < 100 {
                    assert(h8[i] == h1[i]);
                    assert(h1.subrange(0, 100)[i] == h1[i]);
                    assert(pre.subrange(0, 100)[i] == pre[i]);
                } else if i < 108 {
                    assert(h8[i] == h2[i]);
                    assert(h2.subrange(100, 108)[i - 100] == h2[i]);
                    assert(pre.subrange(100, 108)[i - 100] == pre[i]);
                } else if i < 116 {
                    assert(h8[i] == h3[i]);
                    assert(h3.subrange(108, 116)[i - 108] == h3[i]);
                    assert(pre.subrange(108, 116)[i - 108] == pre[i]);
                } else if i < 124 {
                    assert(h8[i] == h4[i]);
                    assert(h4.subrange(116, 124)[i - 116] == h4[i]);
                    assert(pre.subrange(116, 124)[i - 116] == pre[i]);
                } else if i < 136 {
                    assert(h8[i] == h6[i]);
                    assert(h6.subrange(124, 136)[i - 124] == h6[i]);
                    assert(pre.subrange(124, 136)[i - 124] == pre[i]);
                } else if i < 148 {
                    assert(h8[i] == h7[i]);
                    assert(h7.subrange(136, 148)[i - 136] == h7[i]);
                    assert(pre.subrange(136, 148)[i - 136] == pre[i]);
                } else if i < 156 {
                    // untouched since new_gnu: all zero
                    assert(h8[i] == h0[i]);
                    assert(h0[i] == 0u8);
                    assert(pre.subrange(148, 156)[i - 148] == pre[i]);
                    assert(zeros(8)[i - 148] == 0u8);
                } else if i == 156 {
                    assert(h8[156] == crate::header::entry_type_to_byte(etype));
                } else if i < 257 {
                    assert(h8[i] == h5[i]);
                    if link is Some {
                        assert(h5.subrange(157, 257)[i - 157] == h5[i]);
                        assert(pre.subrange(157, 257)[i - 157] == pre[i]);
                    } else {
                        assert(h5[i] == h0[i]);
                        assert(h0[i] == 0u8);
                        assert(pre.subrange(157, 257)[i - 157] == pre[i]);
                        assert(f.link.len() == 0);
                        assert((f.link + zeros(100))[i - 157] == 0u8);
                    }
                } else if i < 265 {
                    assert(h8[i] == h0[i]);
                } else {
                    assert(h8[i] == h0[i]);
                    assert(h0[i] == 0u8);
                }
            }
            assert(h8 =~= pre);
        }
        h.set_cksum();
        proof {
            assert(fields_valid(f));
            lemma_header_roundtrip(f);
            let enc = spec_encode_header(f);
            let c = crate::header::spec_checksum(spec_header_parts(f, zeros(8)));
            let ckf = crate::num::spec_format_octal(c, 8);
            crate::num::lemma_format_octal_len(c, 8);
            lemma_parts_layout(f, ckf);
            assert forall|i: int| 0 <= i < 512 implies h@[i] == enc[i] by {
                if 148 <= i < 156 {
                    assert(h@.subrange(148, 156)[i - 148] == h@[i]);
                    assert(enc.subrange(148, 156)[i - 148] == enc[i]);
                } else {
                    assert(h@[i] == h8[i]);
                    crate::header::lemma_parts_index_outside_ck(f, ckf, zeros(8), i);
                }
            }
            assert(h@ =~= enc);
        }
        // emit: header, body, padding
        let hb = h.as_bytes();
        self.data.extend_from_slice(hb.as_slice());
        self.data.extend_from_slice(data.as_slice());
        let ghost before_pad = self.data@;
        let pad: usize = (512 - (data.len() % 512)) % 512;
        let mut k: usize = 0;
        while k < pad
            invariant
                0 <= k <= pad,
                self.data@ =~= before_pad + zeros(k as nat),
            decreases pad - k,
        {
            self.data.push(0);
            proof {
                assert(self.data@ =~= before_pad + zeros((k + 1) as nat));
            }
            k = k + 1;
        }
        proof {
            assert(pad == pad512(data@.len()));
            assert(self.data@ =~= old(self)@ + spec_record(f, data@));
        }
        Ok(())
    }

    /// Append raw data under the given name: a minimal GNU header carrying
    /// the path, the size, and a checksum, with all other metadata zero.
    pub fn append_data(&mut self, name: &Vec<u8>, data: &Vec<u8>) -> (r: Result<(), TarError>)
        ensures
            r is Ok <==> name_ok(name@, 100),
            r is Err ==> final(self)@ == old(self)@ && r == Err::<(), TarError>(
                TarError::NameTooLong,
            ),
            r is Ok ==> final(self)@ == old(self)@ + spec_record(
                record_fields(
                    name@,
                    Seq::empty(),
                    0,
                    0,
                    0,
                    data@.len(),
                    0,
                    EntryType::Regular,
                ),
                data@,
            ),
    {
        self.append_entry(name, EntryType::Regular, 0, 0, 0, 0, None, data)
    }

    /// Finalize the archive: append the two all-zero trailer blocks and
    /// return the completed bytes. Consuming the builder makes any further
    /// append impossible.
    pub fn finish(self) -> (out: Vec<u8>)
        ensures
            out@ == self@ + zeros(1024),
    {
        let mut out = self.data;
        let ghost before = out@;
        let mut k: usize = 0;
        while k < 1024
            invariant
                0 <= k <= 1024,
                out@ =~= before + zeros(k as nat),
            decreases 1024 - k,
        {
            out.push(0);
            proof {
                assert(out@ =~= before + zeros((k + 1) as nat));
            }
            k = k + 1;
        }
        out
    }
}

} // verus!
