//! PAX extended-header records.
//!
//! A PAX header's body is a sequence of textual records, each of the shape
//! `<len> <key>=<value>\n` where `<len>` is the decimal length of the whole
//! record including the length digits themselves, the space, and the
//! trailing newline. Recognized keys override fields of the entry that
//! follows (or, from a global header, of all subsequent entries).
#![verifier::loop_isolation(false)]

use crate::num::copy_range;
use crate::num::dec_value;
use crate::num::lemma_run_len_props;
use crate::num::parse_dec_field;
use crate::num::run_len;
use crate::num::scan_run;
use crate::num::spec_parse_dec;
use crate::num::ByteClass;
use crate::TarError;
use vstd::prelude::*;

verus! {

/// One `key=value` record.
pub struct PaxRecord {
    key: Vec<u8>,
    value: Vec<u8>,
}

/// The mathematical model of a record.
pub struct PaxPair {
    pub key: Seq<u8>,
    pub value: Seq<u8>,
}

impl View for PaxRecord {
    type V = PaxPair;

    closed spec fn view(&self) -> PaxPair {
        PaxPair { key: self.key@, value: self.value@ }
    }
}

impl PaxRecord {
    pub fn new(key: Vec<u8>, value: Vec<u8>) -> (r: PaxRecord)
        ensures
            r@.key == key@,
            r@.value == value@,
    {
        PaxRecord { key, value }
    }

    pub fn key(&self) -> (r: &Vec<u8>)
        ensures
            r@ == self@.key,
    {
        &self.key
    }

    pub fn value(&self) -> (r: &Vec<u8>)
        ensures
            r@ == self@.value,
    {
        &self.value
    }
}

pub open spec fn pax_views(rs: Seq<PaxRecord>) -> Seq<PaxPair> {
    rs.map_values(|p: PaxRecord| p@)
}

/// Parse a PAX header body into its records. `None` means the body is
/// malformed: a missing or wrong length prefix, a record without `=`, or a
/// record not ending in a newline.
pub open spec fn spec_parse_pax(s: Seq<u8>) -> Option<Seq<PaxPair>>
    decreases s.len(),
{
    if s.len() == 0 {
        Some(Seq::empty())
    } else {
        let d = run_len(ByteClass::DecDigit, s) as int;
        if d == 0 || d >= s.len() {
            None
        } else if s[d] != 0x20 {
            None
        } else {
            let len = dec_value(s.take(d));
            if len <= d + 1 || len > s.len() {
                None
            } else if s[len - 1] != 0x0a {
                None
            } else {
                let content = s.subrange(d + 1, len - 1);
                let e = run_len(ByteClass::NotEq, content) as int;
                if e >= content.len() {
                    None
                } else {
                    let pair = PaxPair {
                        key: content.take(e),
                        value: content.subrange(e + 1, content.len() as int),
                    };
                    match spec_parse_pax(s.skip(len as int)) {
                        Some(rest) => Some(seq![pair] + rest),
                        None => None,
                    }
                }
            }
        }
    }
}

pub proof fn lemma_pax_views_push(rs: Seq<PaxRecord>, r: PaxRecord)
    ensures
        pax_views(rs.push(r)) == pax_views(rs) + seq![r@],
{
    assert(pax_views(rs.push(r)) =~= pax_views(rs) + seq![r@]);
}

/// Parse a PAX header body.
pub fn parse_pax_records(v: &Vec<u8>) -> (r: Result<Vec<PaxRecord>, TarError>)
    ensures
        match r {
            Ok(rs) => spec_parse_pax(v@) == Some(pax_views(rs@)),
            Err(e) => spec_parse_pax(v@) is None && e == TarError::CorruptHeader,
        },
{
    let n = v.len();
    let mut acc: Vec<PaxRecord> = Vec::new();
    let mut off: usize = 0;
    proof {
        assert(pax_views(acc@) =~= Seq::<PaxPair>::empty());
        assert(v@.skip(0) =~= v@);
    }
    while off < n
        invariant
            0 <= off <= n == v.len(),
            match spec_parse_pax(v@.skip(off as int)) {
                Some(rest) => spec_parse_pax(v@) == Some(pax_views(acc@) + rest),
                None => spec_parse_pax(v@) is None,
            },
        decreases n - off,
    {
        let ghost tail = v@.skip(off as int);
        proof {
            assert(tail =~= v@.subrange(off as int, n as int));
        }
        // length prefix
        let d_end = scan_run(v, off, n, ByteClass::DecDigit);
        let ghost d = (d_end - off) as int;
        if d_end == off || d_end == n {
            return Err(TarError::CorruptHeader);
        }
        if v[d_end] != 0x20 {
            proof {
                assert(tail[d] == v@[d_end as int]);
            }
            return Err(TarError::CorruptHeader);
        }
        proof {
            assert(tail.take(d) =~= v@.subrange(off as int, d_end as int));
            assert(spec_parse_dec(tail.take(d)) == Some(dec_value(tail.take(d)))) by {
                lemma_run_len_props(ByteClass::DecDigit, tail);
                crate::num::lemma_run_len_is(ByteClass::DecDigit, tail.take(d), d);
            }
        }
        let len_u64 = match parse_dec_field(v, off, d_end) {
            Some(l) => l,
            None => {
                // the length value exceeds 64 bits, so it certainly exceeds
                // the body
                proof {
                    assert(dec_value(tail.take(d)) > u64::MAX);
                    assert(n <= u64::MAX);
                }
                return Err(TarError::CorruptHeader);
            },
        };
        let ghost len = dec_value(tail.take(d));
        let remaining = n - off;
        if len_u64 <= (d_end - off) as u64 + 1 || len_u64 > remaining as u64 {
            return Err(TarError::CorruptHeader);
        }
        let rlen = len_u64 as usize;
        if v[off + rlen - 1] != 0x0a {
            proof {
                assert(tail[len - 1] == v@[(off + rlen - 1) as int]);
            }
            return Err(TarError::CorruptHeader);
        }
        let ghost content = tail.subrange(d + 1, len - 1);
        proof {
            assert(content =~= v@.subrange(d_end + 1, off + rlen - 1));
        }
        let e_end = scan_run(v, d_end + 1, off + rlen - 1, ByteClass::NotEq);
        let ghost e = (e_end - (d_end + 1)) as int;
        if e_end == off + rlen - 1 {
            return Err(TarError::CorruptHeader);
        }
        let key = copy_range(v, d_end + 1, e_end);
        let value = copy_range(v, e_end + 1, off + rlen - 1);
        proof {
            assert(content.take(e) =~= v@.subrange(d_end + 1, e_end as int));
            assert(content.subrange(e + 1, content.len() as int) =~= v@.subrange(
                e_end + 1,
                off + rlen - 1,
            ));
        }
        let rec = PaxRecord { key, value };
        let ghost old_acc = acc@;
        acc.push(rec);
        proof {
            lemma_pax_views_push(old_acc, rec);
            let rest_s = v@.skip((off + rlen) as int);
            assert(tail.skip(len as int) =~= rest_s);
            match spec_parse_pax(rest_s) {
                Some(rest) => {
                    assert(spec_parse_pax(tail) == Some(seq![rec@] + rest));
                    assert(pax_views(old_acc) + (seq![rec@] + rest) =~= pax_views(acc@) + rest);
                },
                None => {
                    assert(spec_parse_pax(tail) is None);
                },
            }
        }
        off = off + rlen;
    }
    proof {
        assert(v@.skip(off as int) =~= Seq::<u8>::empty());
        assert(spec_parse_pax(v@) == Some(pax_views(acc@) + Seq::<PaxPair>::empty()));
        assert(pax_views(acc@) + Seq::<PaxPair>::empty() =~= pax_views(acc@));
    }
    Ok(acc)
}

// ---------------------------------------------------------------------------
// Recognized override keys
// ---------------------------------------------------------------------------

pub open spec fn spec_key_path() -> Seq<u8> {
    seq![0x70u8, 0x61u8, 0x74u8, 0x68u8]
}

pub open spec fn spec_key_linkpath() -> Seq<u8> {
    seq![0x6cu8, 0x69u8, 0x6eu8, 0x6bu8, 0x70u8, 0x61u8, 0x74u8, 0x68u8]
}

pub open spec fn spec_key_size() -> Seq<u8> {
    seq![0x73u8, 0x69u8, 0x7au8, 0x65u8]
}

fn key_is_path(k: &Vec<u8>) -> (r: bool)
    ensures
        r == (k@ == spec_key_path()),
{
    let r = k.len() == 4 && k[0] == 0x70 && k[1] == 0x61 && k[2] == 0x74 && k[3] == 0x68;
    proof {
        if r {
            assert(k@ =~= spec_key_path());
        }
    }
    r
}

fn key_is_linkpath(k: &Vec<u8>) -> (r: bool)
    ensures
        r == (k@ == spec_key_linkpath()),
{
    let r = k.len() == 8 && k[0] == 0x6c && k[1] == 0x69 && k[2] == 0x6e && k[3] == 0x6b && k[4]
        == 0x70 && k[5] == 0x61 && k[6] == 0x74 && k[7] == 0x68;
    proof {
        if r {
            assert(k@ =~= spec_key_linkpath());
        }
    }
    r
}

fn key_is_size(k: &Vec<u8>) -> (r: bool)
    ensures
        r == (k@ == spec_key_size()),
{
    let r = k.len() == 4 && k[0] == 0x73 && k[1] == 0x69 && k[2] == 0x7a && k[3] == 0x65;
    proof {
        if r {
            assert(k@ =~= spec_key_size());
        }
    }
    r
}

// ---------------------------------------------------------------------------
// Override state
// ---------------------------------------------------------------------------

/// The overrides a PAX (or GNU long-name) prefix imposes on a later entry,
/// as the model sees them.
pub struct SpecOverrides {
    pub path: Option<Seq<u8>>,
    pub link: Option<Seq<u8>>,
    pub size: Option<nat>,
}

pub open spec fn spec_no_overrides() -> SpecOverrides {
    SpecOverrides { path: None, link: None, size: None }
}

/// Apply recognized keys of parsed records onto an override state. `None`
/// means a `size` record's value was not a decimal number.
pub open spec fn spec_apply_overrides(o: SpecOverrides, recs: Seq<PaxPair>) -> Option<SpecOverrides>
    decreases recs.len(),
{
    if recs.len() == 0 {
        Some(o)
    } else {
        let p = recs[0];
        if p.key == spec_key_path() {
            spec_apply_overrides(
                SpecOverrides { path: Some(p.value), link: o.link, size: o.size },
                recs.skip(1),
            )
        } else if p.key == spec_key_linkpath() {
            spec_apply_overrides(
                SpecOverrides { path: o.path, link: Some(p.value), size: o.size },
                recs.skip(1),
            )
        } else if p.key == spec_key_size() {
            match spec_parse_dec(p.value) {
                Some(n) => spec_apply_overrides(
                    SpecOverrides { path: o.path, link: o.link, size: Some(n) },
                    recs.skip(1),
                ),
                None => None,
            }
        } else {
            spec_apply_overrides(o, recs.skip(1))
        }
    }
}

/// The executable override state. A `size` value beyond 64 bits cannot be
/// held directly; the exact model value is carried as ghost state and the
/// `size_huge` flag records that it exceeds `u64::MAX`.
pub struct Overrides {
    path: Option<Vec<u8>>,
    link: Option<Vec<u8>>,
    size: Option<u64>,
    size_huge: bool,
    spec_size: Ghost<Option<nat>>,
}

impl View for Overrides {
    type V = SpecOverrides;

    closed spec fn view(&self) -> SpecOverrides {
        SpecOverrides {
            path: match self.path {
                Some(ref p) => Some(p@),
                None => None,
            },
            link: match self.link {
                Some(ref l) => Some(l@),
                None => None,
            },
            size: self.spec_size@,
        }
    }
}

impl Overrides {
    pub open spec fn wf(&self) -> bool {
        match self@.size {
            Some(n) => if n <= u64::MAX {
                self.size_is(n)
            } else {
                self.size_is_huge()
            },
            None => self.size_is_none(),
        }
    }

    pub closed spec fn size_is(&self, n: nat) -> bool {
        self.size == Some(n as u64) && !self.size_huge
    }

    pub closed spec fn size_is_huge(&self) -> bool {
        self.size_huge
    }

    pub closed spec fn size_is_none(&self) -> bool {
        self.size is None && !self.size_huge
    }

    pub fn none() -> (r: Overrides)
        ensures
            r@ == spec_no_overrides(),
            r.wf(),
    {
        Overrides {
            path: None,
            link: None,
            size: None,
            size_huge: false,
            spec_size: Ghost(None),
        }
    }

    pub fn set_path_override(&mut self, p: Vec<u8>)
        requires
            old(self).wf(),
        ensures
            final(self).wf(),
            final(self)@ == (SpecOverrides {
                path: Some(p@),
                link: old(self)@.link,
                size: old(self)@.size,
            }),
    {
        self.path = Some(p);
    }

    pub fn set_link_override(&mut self, l: Vec<u8>)
        requires
            old(self).wf(),
        ensures
            final(self).wf(),
            final(self)@ == (SpecOverrides {
                path: old(self)@.path,
                link: Some(l@),
                size: old(self)@.size,
            }),
    {
        self.link = Some(l);
    }

    pub fn path_override(&self) -> (r: &Option<Vec<u8>>)
        ensures
            match r {
                Some(p) => self@.path == Some(p@),
                None => self@.path is None,
            },
    {
        &self.path
    }

    pub fn link_override(&self) -> (r: &Option<Vec<u8>>)
        ensures
            match r {
                Some(l) => self@.link == Some(l@),
                None => self@.link is None,
            },
    {
        &self.link
    }

    /// The size override, if one is set and fits 64 bits; `Err` when one is
    /// set but exceeds them.
    pub fn size_override(&self) -> (r: Result<Option<u64>, ()>)
        requires
            self.wf(),
        ensures
            match r {
                Ok(o) => match o {
                    Some(n) => self@.size == Some(n as nat),
                    None => self@.size is None,
                },
                Err(_) => self@.size matches Some(n) && n > u64::MAX,
            },
    {
        if self.size_huge {
            Err(())
        } else {
            match self.size {
                Some(n) => Ok(Some(n)),
                None => Ok(None),
            }
        }
    }

    /// Apply the recognized keys of `recs`, in order. Fails when a `size`
    /// value is not decimal.
    pub fn apply(&mut self, recs: &Vec<PaxRecord>) -> (r: Result<(), TarError>)
        requires
            old(self).wf(),
        ensures
            final(self).wf(),
            match r {
                Ok(_) => spec_apply_overrides(old(self)@, pax_views(recs@)) == Some(final(self)@),
                Err(e) => spec_apply_overrides(old(self)@, pax_views(recs@)) is None && e
                    == TarError::CorruptHeader,
            },
    {
        let n = recs.len();
        let mut k: usize = 0;
        proof {
            assert(pax_views(recs@).skip(0) =~= pax_views(recs@));
        }
        while k < n
            invariant
                0 <= k <= n == recs.len(),
                self.wf(),
                match spec_apply_overrides(self@, pax_views(recs@).skip(k as int)) {
                    Some(fin) => spec_apply_overrides(
                        old(self)@,
                        pax_views(recs@),
                    ) == Some(fin),
                    None => spec_apply_overrides(old(self)@, pax_views(recs@)) is None,
                },
            decreases n - k,
        {
            let ghost rs = pax_views(recs@).skip(k as int);
            proof {
                assert(rs[0] == pax_views(recs@)[k as int]);
                assert(pax_views(recs@)[k as int] == recs@[k as int]@);
                assert(rs.skip(1) =~= pax_views(recs@).skip(k + 1));
            }
            let rec = &recs[k];
            if key_is_path(&rec.key) {
                self.path = Some(copy_range(&rec.value, 0, rec.value.len()));
                proof {
                    assert(rec.value@.subrange(0, rec.value@.len() as int) =~= rec.value@);
                }
            } else if key_is_linkpath(&rec.key) {
                self.link = Some(copy_range(&rec.value, 0, rec.value.len()));
                proof {
                    assert(rec.value@.subrange(0, rec.value@.len() as int) =~= rec.value@);
                }
            } else if key_is_size(&rec.key) {
                let ve = scan_run(&rec.value, 0, rec.value.len(), ByteClass::DecDigit);
                proof {
                    assert(rec.value@.subrange(0, rec.value@.len() as int) =~= rec.value@);
                }
                if rec.value.len() == 0 || ve < rec.value.len() {
                    proof {
                        lemma_run_len_props(ByteClass::DecDigit, rec.value@);
                        assert(spec_parse_dec(rec.value@) is None);
                    }
                    return Err(TarError::CorruptHeader);
                }
                match parse_dec_field(&rec.value, 0, rec.value.len()) {
                    Some(nval) => {
                        self.size = Some(nval);
                        self.size_huge = false;
                        proof {
                            self.spec_size@ = Some(nval as nat);
                        }
                    },
                    None => {
                        // decimal but beyond 64 bits
                        self.size = None;
                        self.size_huge = true;
                        proof {
                            self.spec_size@ = Some(dec_value(rec.value@));
                        }
                    },
                }
            }
            k = k + 1;
        }
        proof {
            assert(pax_views(recs@).skip(n as int) =~= Seq::<PaxPair>::empty());
        }
        Ok(())
    }
}

} // verus!
