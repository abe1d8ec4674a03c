//! The entry stream: parsing a tar byte stream into logical entries.
//!
//! The stream is a sequence of 512-byte header records, each followed by its
//! padded body. GNU long-name/long-link records and PAX extended headers are
//! absorbed into the entry that follows them; a PAX global header applies to
//! all subsequent entries until superseded. An all-zero record ends the
//! archive (unless zero blocks are ignored for concatenated archives);
//! a checksum mismatch or truncated record is corruption.
#![verifier::loop_isolation(false)]

use crate::header::spec_cksum_ok;
use crate::header::spec_cstr;
use crate::header::spec_header_link;
use crate::header::spec_header_path;
use crate::header::spec_header_size;
use crate::header::spec_header_type;
use crate::header::EntryType;
use crate::header::Header;
use crate::num::all_zero;
use crate::num::copy_range;
use crate::num::pad512;
use crate::num::scan_run;
use crate::num::ByteClass;
use crate::num::NumField;
use crate::pax::pax_views;
use crate::pax::spec_apply_overrides;
use crate::pax::spec_no_overrides;
use crate::pax::spec_parse_pax;
use crate::pax::Overrides;
use crate::pax::PaxPair;
use crate::pax::PaxRecord;
use crate::pax::SpecOverrides;
use crate::TarError;
use vstd::prelude::*;

verus! {

// ---------------------------------------------------------------------------
// Entries and their model
// ---------------------------------------------------------------------------

/// The mathematical model of one logical entry: its raw header record, its
/// effective path and link name (after extension records), its body bytes,
/// and the PAX records that applied to it.
pub struct EntryModel {
    pub header: Seq<u8>,
    pub path: Seq<u8>,
    pub link: Option<Seq<u8>>,
    pub data: Seq<u8>,
    pub pax: Seq<PaxPair>,
}

impl EntryModel {
    pub open spec fn wf(&self) -> bool {
        self.header.len() == 512
    }
}

/// One logical archive member: a header plus its body bytes.
pub struct Entry {
    header: Header,
    path: Vec<u8>,
    link: Option<Vec<u8>>,
    data: Vec<u8>,
    pax: Vec<PaxRecord>,
}

impl View for Entry {
    type V = EntryModel;

    closed spec fn view(&self) -> EntryModel {
        EntryModel {
            header: self.header@,
            path: self.path@,
            link: match self.link {
                Some(ref l) => Some(l@),
                None => None,
            },
            data: self.data@,
            pax: pax_views(self.pax@),
        }
    }
}

impl Entry {
    pub fn new(
        header: Header,
        path: Vec<u8>,
        link: Option<Vec<u8>>,
        data: Vec<u8>,
        pax: Vec<PaxRecord>,
    ) -> (r: Entry)
        ensures
            r@.header == header@,
            r@.path == path@,
            r@.link == (match link {
                Some(l) => Some(l@),
                None => None::<Seq<u8>>,
            }),
            r@.data == data@,
            r@.pax == pax_views(pax@),
    {
        Entry { header, path, link, data, pax }
    }

    /// The effective path name for this entry: a GNU long-name or PAX
    /// `path` override when one applied, the header's path field otherwise.
    pub fn path(&self) -> (r: &Vec<u8>)
        ensures
            r@ == self@.path,
    {
        &self.path
    }

    /// The raw header record of this entry.
    pub fn header(&self) -> (r: &Header)
        ensures
            r@ == self@.header,
    {
        &self.header
    }

    /// The entry's body bytes (padding already consumed, not exposed).
    pub fn as_bytes(&self) -> (r: &Vec<u8>)
        ensures
            r@ == self@.data,
    {
        &self.data
    }

    /// The effective link target, if any.
    pub fn link_name(&self) -> (r: &Option<Vec<u8>>)
        ensures
            match r {
                Some(l) => self@.link == Some(l@),
                None => self@.link is None,
            },
    {
        &self.link
    }

    /// The PAX records that applied to this entry.
    pub fn pax_records(&self) -> (r: &Vec<PaxRecord>)
        ensures
            pax_views(r@) == self@.pax,
    {
        &self.pax
    }

    /// The extended attributes this entry's PAX records carry, as
    /// `(name, value)` pairs with the `SCHILY.xattr.` prefix stripped.
    pub fn xattrs(&self) -> (r: Vec<(Vec<u8>, Vec<u8>)>)
        ensures
            pair_views(r@) == spec_xattrs(self@.pax),
    {
        let n = self.pax.len();
        let mut out: Vec<(Vec<u8>, Vec<u8>)> = Vec::new();
        let mut k: usize = 0;
        proof {
            assert(pair_views(out@) =~= Seq::<(Seq<u8>, Seq<u8>)>::empty());
            assert(pax_views(self.pax@).skip(0) =~= pax_views(self.pax@));
        }
        while k < n
            invariant
                0 <= k <= n == self.pax@.len(),
                pair_views(out@) + spec_xattrs(pax_views(self.pax@).skip(k as int)) == spec_xattrs(
                    pax_views(self.pax@),
                ),
            decreases n - k,
        {
            let ghost tail = pax_views(self.pax@).skip(k as int);
            proof {
                assert(tail[0] == pax_views(self.pax@)[k as int]);
                assert(tail[0] == self.pax@[k as int]@);
                assert(tail.skip(1) =~= pax_views(self.pax@).skip(k + 1));
            }
            let rec = &self.pax[k];
            if is_xattr_key(rec.key()) {
                let name = copy_range(rec.key(), 13, rec.key().len());
                let value = copy_range(rec.value(), 0, rec.value().len());
                let ghost old_out = out@;
                proof {
                    assert(value@ =~= rec@.value);
                    assert(name@ =~= rec@.key.skip(13));
                }
                out.push((name, value));
                proof {
                    assert(pair_views(out@) =~= pair_views(old_out) + seq![
                        (rec@.key.skip(13), rec@.value),
                    ]);
                    assert(pair_views(old_out) + (seq![(rec@.key.skip(13), rec@.value)]
                        + spec_xattrs(tail.skip(1))) =~= pair_views(out@) + spec_xattrs(
                        tail.skip(1),
                    ));
                }
            }
            k = k + 1;
        }
        proof {
            assert(pax_views(self.pax@).skip(n as int) =~= Seq::<PaxPair>::empty());
            assert(pair_views(out@) + Seq::<(Seq<u8>, Seq<u8>)>::empty() =~= pair_views(out@));
        }
        out
    }
}

pub open spec fn pair_views(ps: Seq<(Vec<u8>, Vec<u8>)>) -> Seq<(Seq<u8>, Seq<u8>)> {
    ps.map_values(|p: (Vec<u8>, Vec<u8>)| (p.0@, p.1@))
}

/// The `SCHILY.xattr.` prefix that marks an extended-attribute record.
pub open spec fn spec_xattr_prefix() -> Seq<u8> {
    seq![
        0x53u8,
        0x43u8,
        0x48u8,
        0x49u8,
        0x4cu8,
        0x59u8,
        0x2eu8,
        0x78u8,
        0x61u8,
        0x74u8,
        0x74u8,
        0x72u8,
        0x2eu8,
    ]
}

pub open spec fn spec_is_xattr_key(k: Seq<u8>) -> bool {
    k.len() > 13 && k.subrange(0, 13) == spec_xattr_prefix()
}

/// The extended-attribute pairs among a sequence of PAX records, in order,
/// with the prefix stripped from each name.
pub open spec fn spec_xattrs(recs: Seq<PaxPair>) -> Seq<(Seq<u8>, Seq<u8>)>
    decreases recs.len(),
{
    if recs.len() == 0 {
        Seq::empty()
    } else {
        let rest = spec_xattrs(recs.skip(1));
        if spec_is_xattr_key(recs[0].key) {
            seq![(recs[0].key.skip(13), recs[0].value)] + rest
        } else {
            rest
        }
    }
}

fn is_xattr_key(k: &Vec<u8>) -> (r: bool)
    ensures
        r == spec_is_xattr_key(k@),
{
    let r = k.len() > 13 && k[0] == 0x53 && k[1] == 0x43 && k[2] == 0x48 && k[3] == 0x49 && k[4]
        == 0x4c && k[5] == 0x59 && k[6] == 0x2e && k[7] == 0x78 && k[8] == 0x61 && k[9] == 0x74
        && k[10] == 0x74 && k[11] == 0x72 && k[12] == 0x2e;
    proof {
        if r {
            assert(k@.subrange(0, 13) =~= spec_xattr_prefix());
        } else {
            if k@.len() > 13 && k@.subrange(0, 13) == spec_xattr_prefix() {
                assert(forall|i: int| 0 <= i < 13 ==> k@[i] == spec_xattr_prefix()[i]);
            }
        }
    }
    r
}

pub open spec fn entry_views(es: Seq<Entry>) -> Seq<EntryModel> {
    es.map_values(|e: Entry| e@)
}

pub proof fn lemma_entry_views_push(es: Seq<Entry>, e: Entry)
    ensures
        entry_views(es.push(e)) == entry_views(es) + seq![e@],
{
    assert(entry_views(es.push(e)) =~= entry_views(es) + seq![e@]);
}

// ---------------------------------------------------------------------------
// The parse specification
// ---------------------------------------------------------------------------

/// The parser's carry-over state between records.
pub struct SpecParseState {
    /// Overrides pending for the next real entry (GNU long name/link, PAX).
    pub next: SpecOverrides,
    /// Defaults from PAX global headers, persisting across entries.
    pub global: SpecOverrides,
    /// PAX records pending for the next real entry.
    pub pax: Seq<PaxPair>,
}

pub open spec fn initial_state() -> SpecParseState {
    SpecParseState { next: spec_no_overrides(), global: spec_no_overrides(), pax: Seq::empty() }
}

/// Record types that modify the entry that follows rather than standing as
/// entries themselves.
pub open spec fn is_extension_type(t: EntryType) -> bool {
    ||| t == EntryType::GNULongName
    ||| t == EntryType::GNULongLink
    ||| t == EntryType::XHeader
    ||| t == EntryType::XGlobalHeader
}

pub open spec fn spec_eff_path(next: SpecOverrides, global: SpecOverrides, block: Seq<u8>) -> Seq<
    u8,
> {
    match next.path {
        Some(p) => p,
        None => match global.path {
            Some(p) => p,
            None => spec_header_path(block),
        },
    }
}

pub open spec fn spec_eff_link(
    next: SpecOverrides,
    global: SpecOverrides,
    block: Seq<u8>,
) -> Option<Seq<u8>> {
    match next.link {
        Some(l) => Some(l),
        None => match global.link {
            Some(l) => Some(l),
            None => if spec_header_link(block).len() > 0 {
                Some(spec_header_link(block))
            } else {
                None
            },
        },
    }
}

pub open spec fn spec_eff_size(next: SpecOverrides, global: SpecOverrides, hsize: nat) -> nat {
    match next.size {
        Some(n) => n,
        None => match global.size {
            Some(n) => n,
            None => hsize,
        },
    }
}

/// Parse a tar byte stream into its logical entries, starting in state
/// `st`. `None` means the stream is corrupt: a truncated record, a checksum
/// mismatch, an unparseable size field, a body running past the end, or a
/// malformed PAX record.
pub open spec fn spec_entries_from(
    s: Seq<u8>,
    ignore_zeros: bool,
    st: SpecParseState,
) -> Option<Seq<EntryModel>>
    decreases s.len(),
{
    if s.len() == 0 {
        Some(Seq::empty())
    } else if s.len() < 512 {
        None
    } else {
        let block = s.subrange(0, 512);
        if all_zero(block) {
            if ignore_zeros {
                spec_entries_from(s.skip(512), ignore_zeros, st)
            } else {
                Some(Seq::empty())
            }
        } else if !spec_cksum_ok(block) {
            None
        } else {
            match spec_header_size(block) {
                None => None,
                Some(hsize) => {
                    let et = spec_header_type(block);
                    let esize = if is_extension_type(et) {
                        hsize
                    } else {
                        spec_eff_size(st.next, st.global, hsize)
                    };
                    let padded = esize + pad512(esize);
                    if 512 + padded > s.len() {
                        None
                    } else {
                        let body = s.subrange(512, (512 + esize) as int);
                        let rest = s.skip((512 + padded) as int);
                        if et == EntryType::GNULongName {
                            spec_entries_from(
                                rest,
                                ignore_zeros,
                                SpecParseState {
                                    next: SpecOverrides {
                                        path: Some(spec_cstr(body)),
                                        link: st.next.link,
                                        size: st.next.size,
                                    },
                                    global: st.global,
                                    pax: st.pax,
                                },
                            )
                        } else if et == EntryType::GNULongLink {
                            spec_entries_from(
                                rest,
                                ignore_zeros,
                                SpecParseState {
                                    next: SpecOverrides {
                                        path: st.next.path,
                                        link: Some(spec_cstr(body)),
                                        size: st.next.size,
                                    },
                                    global: st.global,
                                    pax: st.pax,
                                },
                            )
                        } else if et == EntryType::XHeader {
                            match spec_parse_pax(body) {
                                None => None,
                                Some(recs) => match spec_apply_overrides(st.next, recs) {
                                    None => None,
                                    Some(o) => spec_entries_from(
                                        rest,
                                        ignore_zeros,
                                        SpecParseState {
                                            next: o,
                                            global: st.global,
                                            pax: st.pax + recs,
                                        },
                                    ),
                                },
                            }
                        } else if et == EntryType::XGlobalHeader {
                            match spec_parse_pax(body) {
                                None => None,
                                Some(recs) => match spec_apply_overrides(st.global, recs) {
                                    None => None,
                                    Some(g) => spec_entries_from(
                                        rest,
                                        ignore_zeros,
                                        SpecParseState { next: st.next, global: g, pax: st.pax },
                                    ),
                                },
                            }
                        } else {
                            let m = EntryModel {
                                header: block,
                                path: spec_eff_path(st.next, st.global, block),
                                link: spec_eff_link(st.next, st.global, block),
                                data: body,
                                pax: st.pax,
                            };
                            match spec_entries_from(
                                rest,
                                ignore_zeros,
                                SpecParseState {
                                    next: spec_no_overrides(),
                                    global: st.global,
                                    pax: Seq::empty(),
                                },
                            ) {
                                Some(es) => Some(seq![m] + es),
                                None => None,
                            }
                        }
                    }
                },
            }
        }
    }
}

/// Parse a complete tar byte stream from its beginning.
pub open spec fn spec_entries(s: Seq<u8>, ignore_zeros: bool) -> Option<Seq<EntryModel>> {
    spec_entries_from(s, ignore_zeros, initial_state())
}

// ---------------------------------------------------------------------------
// The executable parser
// ---------------------------------------------------------------------------

/// Check whether the 512 bytes at `off` are all zero.
fn is_zero_block(v: &Vec<u8>, off: usize) -> (r: bool)
    requires
        off + 512 <= v.len(),
    ensures
        r == all_zero(v@.subrange(off as int, (off + 512) as int)),
{
    let ghost b = v@.subrange(off as int, (off + 512) as int);
    let mut k: usize = 0;
    while k < 512
        invariant
            0 <= k <= 512,
            off + 512 <= v.len(),
            forall|j: int| 0 <= j < k ==> #[trigger] v@[off + j] == 0u8,
        decreases 512 - k,
    {
        if v[off + k] != 0 {
            proof {
                assert(b[k as int] == v@[off + k]);
            }
            return false;
        }
        k = k + 1;
    }
    proof {
        assert forall|j: int| 0 <= j < b.len() implies b[j] == 0u8 by {
            assert(b[j] == v@[off + j]);
        }
    }
    true
}

/// Copy the prefix of `v` before its first NUL byte.
fn cstr_prefix(v: &Vec<u8>) -> (r: Vec<u8>)
    ensures
        r@ == spec_cstr(v@),
{
    let e = scan_run(v, 0, v.len(), ByteClass::NonNul);
    proof {
        assert(v@.subrange(0, v@.len() as int) =~= v@);
        assert(v@.subrange(0, e as int) =~= spec_cstr(v@));
    }
    copy_range(v, 0, e)
}

/// The effective body size of the upcoming record: the pending override if
/// one applies (extension records always use their own size field), the
/// header's size otherwise. `Err` when the effective size exceeds 64 bits.
fn resolve_esize(
    cls: NumField,
    is_ext: bool,
    st_next: &Overrides,
    st_global: &Overrides,
    Ghost(hsize): Ghost<nat>,
) -> (r: Result<u64, TarError>)
    requires
        st_next.wf(),
        st_global.wf(),
        cls matches NumField::Value(n) ==> hsize == n as nat,
        cls is TooBig ==> hsize > u64::MAX,
        !(cls is Malformed),
    ensures
        ({
            let eff = if is_ext {
                hsize
            } else {
                spec_eff_size(st_next@, st_global@, hsize)
            };
            match r {
                Ok(n) => n as nat == eff,
                Err(e) => eff > u64::MAX && e == TarError::CorruptHeader,
            }
        }),
{
    if is_ext {
        match cls {
            NumField::Value(n) => Ok(n),
            _ => Err(TarError::CorruptHeader),
        }
    } else {
        let next_sz = match st_next.size_override() {
            Ok(o) => o,
            Err(_) => {
                return Err(TarError::CorruptHeader);
            },
        };
        match next_sz {
            Some(s) => Ok(s),
            None => {
                let glob_sz = match st_global.size_override() {
                    Ok(o) => o,
                    Err(_) => {
                        return Err(TarError::CorruptHeader);
                    },
                };
                match glob_sz {
                    Some(s) => Ok(s),
                    None => match cls {
                        NumField::Value(n) => Ok(n),
                        _ => Err(TarError::CorruptHeader),
                    },
                }
            },
        }
    }
}

/// Assemble a real entry from its header, body, and the pending state.
fn make_entry(
    h: Header,
    body: Vec<u8>,
    st_next: &Overrides,
    st_global: &Overrides,
    pax_here: Vec<PaxRecord>,
) -> (e: Entry)
    requires
        h.wf(),
    ensures
        e@ == (EntryModel {
            header: h@,
            path: spec_eff_path(st_next@, st_global@, h@),
            link: spec_eff_link(st_next@, st_global@, h@),
            data: body@,
            pax: pax_views(pax_here@),
        }),
        e@.wf(),
{
    let epath: Vec<u8> = match st_next.path_override() {
        Some(p) => {
            let c = copy_range(p, 0, p.len());
            proof {
                assert(c@ =~= p@);
            }
            c
        },
        None => match st_global.path_override() {
            Some(p) => {
                let c = copy_range(p, 0, p.len());
                proof {
                    assert(c@ =~= p@);
                }
                c
            },
            None => h.path(),
        },
    };
    let elink: Option<Vec<u8>> = match st_next.link_override() {
        Some(l) => {
            let c = copy_range(l, 0, l.len());
            proof {
                assert(c@ =~= l@);
            }
            Some(c)
        },
        None => match st_global.link_override() {
            Some(l) => {
                let c = copy_range(l, 0, l.len());
                proof {
                    assert(c@ =~= l@);
                }
                Some(c)
            },
            None => h.link_name(),
        },
    };
    Entry { header: h, path: epath, link: elink, data: body, pax: pax_here }
}

/// Handle one non-zero record at `off`: decode its header, resolve the
/// body, and either fold an extension record into the pending state or
/// produce the next entry. Returns the number of bytes consumed.
#[verifier::rlimit(100)]
fn parse_step(
    src: &Vec<u8>,
    off: usize,
    Ghost(iz): Ghost<bool>,
    st_next: &mut Overrides,
    st_global: &mut Overrides,
    st_pax: &mut Vec<PaxRecord>,
) -> (r: Result<(usize, Option<Entry>), TarError>)
    requires
        off + 512 <= src.len(),
        !all_zero(src@.skip(off as int).subrange(0, 512)),
        old(st_next).wf(),
        old(st_global).wf(),
    ensures
        final(st_next).wf(),
        final(st_global).wf(),
        ({
            let old_st = SpecParseState {
                next: old(st_next)@,
                global: old(st_global)@,
                pax: pax_views(old(st_pax)@),
            };
            match r {
                Ok((adv, oe)) => {
                    &&& 512 <= adv && off + adv <= src@.len()
                    &&& (oe matches Some(e) ==> e@.wf())
                    &&& ({
                        let new_st = SpecParseState {
                            next: final(st_next)@,
                            global: final(st_global)@,
                            pax: pax_views(final(st_pax)@),
                        };
                        let cont = spec_entries_from(src@.skip((off + adv) as int), iz, new_st);
                        spec_entries_from(src@.skip(off as int), iz, old_st) == (match oe {
                            Some(e) => match cont {
                                Some(rest) => Some(seq![e@] + rest),
                                None => None::<Seq<EntryModel>>,
                            },
                            None => cont,
                        })
                    })
                },
                Err(e) => spec_entries_from(src@.skip(off as int), iz, old_st) is None && e
                    == TarError::CorruptHeader,
            }
        }),
{
    let n = src.len();
    let ghost tail = src@.skip(off as int);
    let ghost stg = SpecParseState {
        next: st_next@,
        global: st_global@,
        pax: pax_views(st_pax@),
    };
    let ghost block = tail.subrange(0, 512);
    proof {
        assert(block =~= src@.subrange(off as int, (off + 512) as int));
    }
    let blockv = copy_range(src, off, off + 512);
    let h = match Header::decode(&blockv) {
        Ok(h) => h,
        Err(_) => {
            return Err(TarError::CorruptHeader);
        },
    };
    let et = h.entry_type();
    // the declared size field
    proof {
        assert(src@.subrange((off + 124) as int, (off + 136) as int) =~= block.subrange(
            124,
            136,
        ));
    }
    let hsize_cls = crate::num::classify_num_field(src, off + 124, off + 136);
    let ghost hsize_nat = spec_header_size(block)->0;
    if matches!(hsize_cls, NumField::Malformed) {
        return Err(TarError::CorruptHeader);
    }
    let is_ext = matches!(et, EntryType::GNULongName | EntryType::GNULongLink
        | EntryType::XHeader | EntryType::XGlobalHeader);
    proof {
        assert(is_ext == is_extension_type(spec_header_type(block)));
    }
    let ghost spec_esize = if is_extension_type(spec_header_type(block)) {
        hsize_nat
    } else {
        spec_eff_size(st_next@, st_global@, hsize_nat)
    };
    let esize = match resolve_esize(hsize_cls, is_ext, st_next, st_global, Ghost(hsize_nat)) {
        Ok(s) => s,
        Err(_) => {
            proof {
                lemma_huge_size_overruns(tail, spec_esize);
            }
            return Err(TarError::CorruptHeader);
        },
    };
    proof {
        assert(esize as nat == spec_esize);
    }
    // bounds and padding
    let rem_body = n - off - 512;
    if esize > rem_body as u64 {
        return Err(TarError::CorruptHeader);
    }
    let esize_us = esize as usize;
    let pad: usize = (512 - esize_us % 512) % 512;
    proof {
        assert(pad == pad512(spec_esize));
    }
    if pad > rem_body - esize_us {
        return Err(TarError::CorruptHeader);
    }
    let body = copy_range(src, off + 512, off + 512 + esize_us);
    proof {
        assert(body@ =~= tail.subrange(512, (512 + spec_esize) as int));
    }
    let advance: usize = 512 + esize_us + pad;
    let ghost rest = tail.skip((512 + spec_esize + pad512(spec_esize)) as int);
    proof {
        assert(rest =~= src@.skip((off + advance) as int));
    }
    match et {
        EntryType::GNULongName => {
            let name = cstr_prefix(&body);
            st_next.set_path_override(name);
            Ok((advance, None))
        },
        EntryType::GNULongLink => {
            let link = cstr_prefix(&body);
            st_next.set_link_override(link);
            Ok((advance, None))
        },
        EntryType::XHeader => {
            let mut recs = match crate::pax::parse_pax_records(&body) {
                Ok(rs) => rs,
                Err(_) => {
                    return Err(TarError::CorruptHeader);
                },
            };
            match st_next.apply(&recs) {
                Ok(_) => (),
                Err(_) => {
                    return Err(TarError::CorruptHeader);
                },
            }
            let ghost old_pax = st_pax@;
            let ghost recsv = recs@;
            st_pax.append(&mut recs);
            proof {
                assert(pax_views(st_pax@) =~= pax_views(old_pax) + pax_views(recsv));
            }
            Ok((advance, None))
        },
        EntryType::XGlobalHeader => {
            let recs = match crate::pax::parse_pax_records(&body) {
                Ok(rs) => rs,
                Err(_) => {
                    return Err(TarError::CorruptHeader);
                },
            };
            match st_global.apply(&recs) {
                Ok(_) => (),
                Err(_) => {
                    return Err(TarError::CorruptHeader);
                },
            }
            Ok((advance, None))
        },
        _ => {
            let mut pax_here: Vec<PaxRecord> = Vec::new();
            core::mem::swap(st_pax, &mut pax_here);
            let entry = make_entry(h, body, st_next, st_global, pax_here);
            let mut fresh = Overrides::none();
            core::mem::swap(st_next, &mut fresh);
            proof {
                let m = EntryModel {
                    header: block,
                    path: spec_eff_path(stg.next, stg.global, block),
                    link: spec_eff_link(stg.next, stg.global, block),
                    data: tail.subrange(512, (512 + spec_esize) as int),
                    pax: stg.pax,
                };
                assert(entry@ == m);
                assert(pax_views(st_pax@) =~= Seq::<PaxPair>::empty());
            }
            Ok((advance, Some(entry)))
        },
    }
}

/// Parse a complete in-memory tar stream into its entries.
#[verifier::rlimit(60)]
pub fn parse_archive(src: &Vec<u8>, ignore_zeros: bool) -> (r: Result<Vec<Entry>, TarError>)
    ensures
        match r {
            Ok(es) => spec_entries(src@, ignore_zeros) == Some(entry_views(es@)) && forall|i: int|
                0 <= i < es@.len() ==> (#[trigger] es@[i]@).wf(),
            Err(e) => spec_entries(src@, ignore_zeros) is None && e == TarError::CorruptHeader,
        },
{
    let n = src.len();
    let mut acc: Vec<Entry> = Vec::new();
    let mut st_next = Overrides::none();
    let mut st_global = Overrides::none();
    let mut st_pax: Vec<PaxRecord> = Vec::new();
    let mut off: usize = 0;
    proof {
        assert(src@.skip(0) =~= src@);
        assert(entry_views(acc@) =~= Seq::<EntryModel>::empty());
        assert(pax_views(st_pax@) =~= Seq::<PaxPair>::empty());
    }
    while off < n
        invariant
            0 <= off <= n == src.len(),
            st_next.wf(),
            st_global.wf(),
            forall|i: int| 0 <= i < acc@.len() ==> (#[trigger] acc@[i]@).wf(),
            ({
                let stg = SpecParseState {
                    next: st_next@,
                    global: st_global@,
                    pax: pax_views(st_pax@),
                };
                match spec_entries_from(src@.skip(off as int), ignore_zeros, stg) {
                    Some(rest) => spec_entries(src@, ignore_zeros) == Some(
                        entry_views(acc@) + rest,
                    ),
                    None => spec_entries(src@, ignore_zeros) is None,
                }
            }),
        decreases n - off,
    {
        let ghost tail = src@.skip(off as int);
        if n - off < 512 {
            // a trailing partial record is corruption
            return Err(TarError::CorruptHeader);
        }
        let ghost block = tail.subrange(0, 512);
        proof {
            assert(block =~= src@.subrange(off as int, (off + 512) as int));
        }
        if is_zero_block(src, off) {
            if ignore_zeros {
                proof {
                    assert(tail.skip(512) =~= src@.skip((off + 512) as int));
                }
                off = off + 512;
                continue ;
            } else {
                proof {
                    assert(entry_views(acc@) + Seq::<EntryModel>::empty() =~= entry_views(acc@));
                }
                return Ok(acc);
            }
        }
        let step = parse_step(
            src,
            off,
            Ghost(ignore_zeros),
            &mut st_next,
            &mut st_global,
            &mut st_pax,
        );
        match step {
            Err(_) => {
                return Err(TarError::CorruptHeader);
            },
            Ok((adv, oe)) => {
                match oe {
                    Some(entry) => {
                        let ghost old_acc = acc@;
                        acc.push(entry);
                        proof {
                            lemma_entry_views_push(old_acc, entry);
                            let new_st = SpecParseState {
                                next: st_next@,
                                global: st_global@,
                                pax: pax_views(st_pax@),
                            };
                            match spec_entries_from(
                                src@.skip((off + adv) as int),
                                ignore_zeros,
                                new_st,
                            ) {
                                Some(rest) => {
                                    assert(entry_views(old_acc) + (seq![entry@] + rest)
                                        =~= entry_views(acc@) + rest);
                                },
                                None => {},
                            }
                        }
                    },
                    None => (),
                }
                off = off + adv;
            },
        }
    }
    proof {
        assert(src@.skip(n as int) =~= Seq::<u8>::empty());
        assert(entry_views(acc@) + Seq::<EntryModel>::empty() =~= entry_views(acc@));
    }
    Ok(acc)
}

/// An effective size beyond 64 bits cannot fit in any in-memory stream.
proof fn lemma_huge_size_overruns(tail: Seq<u8>, esize: nat)
    requires
        esize > u64::MAX,
        tail.len() <= u64::MAX,
    ensures
        512 + esize + pad512(esize) > tail.len(),
{
}

} // verus!
