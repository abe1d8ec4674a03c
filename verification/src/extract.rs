//! Safe extraction planning.
//!
//! Extraction resolves each entry's stored path against a destination root
//! without permitting escape: a path with a parent-directory (`..`)
//! component is skipped rather than written, absolute paths are made
//! relative, and `.` and empty components are dropped. The plan computed
//! here contains only destination-relative paths proven free of those
//! hazards; performing the filesystem writes is the caller's part.
#![verifier::loop_isolation(false)]

use crate::entry::Entry;
use crate::entry::EntryModel;
use crate::header::spec_header_gid;
use crate::header::spec_header_mode;
use crate::header::spec_header_mtime;
use crate::header::spec_header_type;
use crate::header::spec_header_uid;
use crate::header::spec_is_gnu;
use crate::header::spec_is_ustar;
use crate::header::EntryType;
use crate::num::copy_range;
use crate::num::run_len;
use crate::num::scan_run;
use crate::num::spec_parse_octal;
use crate::num::ByteClass;
use vstd::prelude::*;

verus! {

// ---------------------------------------------------------------------------
// Path components
// ---------------------------------------------------------------------------

/// Split a path on `/`, keeping empty pieces.
pub open spec fn spec_split_path(p: Seq<u8>) -> Seq<Seq<u8>>
    decreases p.len(),
{
    let d = run_len(ByteClass::NotSlash, p) as int;
    if d >= p.len() {
        seq![p]
    } else {
        seq![p.take(d)] + spec_split_path(p.skip(d + 1))
    }
}

/// The single-dot component.
pub open spec fn comp_is_cur(c: Seq<u8>) -> bool {
    c == seq![0x2eu8]
}

/// The parent-directory component.
pub open spec fn comp_is_parent(c: Seq<u8>) -> bool {
    c == seq![0x2eu8, 0x2eu8]
}

/// A component that survives sanitizing: nonempty, not `.`, not `..`, and
/// free of separators.
pub open spec fn comp_ok(c: Seq<u8>) -> bool {
    &&& c.len() > 0
    &&& !comp_is_cur(c)
    &&& !comp_is_parent(c)
    &&& forall|i: int| 0 <= i < c.len() ==> c[i] != 0x2f
}

/// Drop empty and `.` components; fail on `..`.
pub open spec fn spec_sanitize_components(cs: Seq<Seq<u8>>) -> Option<Seq<Seq<u8>>>
    decreases cs.len(),
{
    if cs.len() == 0 {
        Some(Seq::empty())
    } else {
        let c = cs[0];
        if comp_is_parent(c) {
            None
        } else if c.len() == 0 || comp_is_cur(c) {
            spec_sanitize_components(cs.skip(1))
        } else {
            match spec_sanitize_components(cs.skip(1)) {
                Some(r) => Some(seq![c] + r),
                None => None,
            }
        }
    }
}

/// The sanitized components of a stored path; `None` when the path tries
/// to traverse upward.
pub open spec fn spec_sanitize(p: Seq<u8>) -> Option<Seq<Seq<u8>>> {
    spec_sanitize_components(spec_split_path(p))
}

/// Join components with `/`.
pub open spec fn spec_join(cs: Seq<Seq<u8>>) -> Seq<u8>
    decreases cs.len(),
{
    if cs.len() == 0 {
        Seq::empty()
    } else if cs.len() == 1 {
        cs[0]
    } else {
        cs[0] + seq![0x2fu8] + spec_join(cs.skip(1))
    }
}

/// A destination-relative path that cannot escape: nonempty, not absolute,
/// and with no empty, `.`-, or `..`-components.
pub open spec fn safe_rel_path(p: Seq<u8>) -> bool {
    &&& p.len() > 0
    &&& forall|i: int|
        0 <= i < spec_split_path(p).len() ==> comp_ok(#[trigger] spec_split_path(p)[i])
}

// ---------------------------------------------------------------------------
// Lemmas
// ---------------------------------------------------------------------------

/// Sanitized components are all fit for joining.
pub proof fn lemma_sanitize_comps_ok(cs: Seq<Seq<u8>>)
    requires
        forall|i: int, j: int|
            0 <= i < cs.len() && 0 <= j < cs[i].len() ==> #[trigger] cs[i][j] != 0x2f,
    ensures
        spec_sanitize_components(cs) matches Some(r) ==> forall|i: int|
            0 <= i < r.len() ==> comp_ok(#[trigger] r[i]),
    decreases cs.len(),
{
    if cs.len() == 0 {
    } else {
        let c = cs[0];
        let t = cs.skip(1);
        assert forall|i: int, j: int|
            0 <= i < t.len() && 0 <= j < t[i].len() implies #[trigger] t[i][j] != 0x2f by {
            assert(t[i] == cs[i + 1]);
            assert(cs[i + 1][j] != 0x2f);
        }
        lemma_sanitize_comps_ok(t);
        if !comp_is_parent(c) && c.len() > 0 && !comp_is_cur(c) {
            assert(forall|j: int| 0 <= j < c.len() ==> c[j] != 0x2f) by {
                assert(forall|j: int| 0 <= j < cs[0].len() ==> #[trigger] cs[0][j] != 0x2f);
            }
            match spec_sanitize_components(t) {
                Some(r) => {
                    assert forall|i: int| 0 <= i < (seq![c] + r).len() implies comp_ok(
                        #[trigger] (seq![c] + r)[i],
                    ) by {
                        if i > 0 {
                            assert((seq![c] + r)[i] == r[i - 1]);
                        }
                    }
                },
                None => {},
            }
        }
    }
}

/// Every piece a split produces is free of separators.
pub proof fn lemma_split_comps_slash_free(p: Seq<u8>)
    ensures
        forall|i: int, j: int|
            0 <= i < spec_split_path(p).len() && 0 <= j < spec_split_path(p)[i].len()
                ==> #[trigger] spec_split_path(p)[i][j] != 0x2f,
    decreases p.len(),
{
    let d = run_len(ByteClass::NotSlash, p) as int;
    crate::num::lemma_run_len_props(ByteClass::NotSlash, p);
    let cs = spec_split_path(p);
    if d >= p.len() {
        assert forall|i: int, j: int|
            0 <= i < cs.len() && 0 <= j < cs[i].len() implies #[trigger] cs[i][j] != 0x2f by {
            assert(cs[i] == p);
            assert(crate::num::in_class(ByteClass::NotSlash, p[j]));
        }
    } else {
        let t = spec_split_path(p.skip(d + 1));
        lemma_split_comps_slash_free(p.skip(d + 1));
        assert forall|i: int, j: int|
            0 <= i < cs.len() && 0 <= j < cs[i].len() implies #[trigger] cs[i][j] != 0x2f by {
            if i == 0 {
                assert(cs[0] == p.take(d));
                assert(p.take(d)[j] == p[j]);
                assert(crate::num::in_class(ByteClass::NotSlash, p[j]));
            } else {
                assert(cs[i] == t[i - 1]);
                assert(t[i - 1][j] != 0x2f);
            }
        }
    }
}

/// Joining components that are each nonempty and separator-free splits back
/// to the same components.
pub proof fn lemma_split_join(cs: Seq<Seq<u8>>)
    requires
        cs.len() > 0,
        forall|i: int| 0 <= i < cs.len() ==> (#[trigger] cs[i]).len() > 0,
        forall|i: int, j: int|
            0 <= i < cs.len() && 0 <= j < cs[i].len() ==> #[trigger] cs[i][j] != 0x2f,
    ensures
        spec_split_path(spec_join(cs)) == cs,
    decreases cs.len(),
{
    let j = spec_join(cs);
    if cs.len() == 1 {
        assert(j == cs[0]);
        assert forall|k: int| 0 <= k < j.len() implies crate::num::in_class(
            ByteClass::NotSlash,
            j[k],
        ) by {
            assert(cs[0][k] != 0x2f);
        }
        crate::num::lemma_run_len_is(ByteClass::NotSlash, j, j.len() as int);
        assert(spec_split_path(j) =~= cs);
    } else {
        let t = cs.skip(1);
        assert forall|i: int| 0 <= i < t.len() implies (#[trigger] t[i]).len() > 0 by {
            assert(t[i] == cs[i + 1]);
        }
        assert forall|i: int, j2: int|
            0 <= i < t.len() && 0 <= j2 < t[i].len() implies #[trigger] t[i][j2] != 0x2f by {
            assert(t[i] == cs[i + 1]);
            assert(cs[i + 1][j2] != 0x2f);
        }
        lemma_split_join(t);
        let c0 = cs[0];
        assert(j == c0 + seq![0x2fu8] + spec_join(t));
        assert forall|k: int| 0 <= k < c0.len() implies crate::num::in_class(
            ByteClass::NotSlash,
            j[k],
        ) by {
            assert(j[k] == c0[k]);
            assert(cs[0][k] != 0x2f);
        }
        assert(j[c0.len() as int] == 0x2f);
        crate::num::lemma_run_len_is(ByteClass::NotSlash, j, c0.len() as int);
        assert(j.take(c0.len() as int) =~= c0);
        assert(j.skip(c0.len() as int + 1) =~= spec_join(t));
        assert(spec_split_path(j) =~= seq![c0] + spec_split_path(spec_join(t)));
        assert(seq![c0] + t =~= cs);
    }
}

/// Appending one component to a join.
pub proof fn lemma_join_push(cs: Seq<Seq<u8>>, c: Seq<u8>)
    ensures
        spec_join(cs.push(c)) == if cs.len() == 0 {
            c
        } else {
            spec_join(cs) + seq![0x2fu8] + c
        },
    decreases cs.len(),
{
    if cs.len() == 0 {
        assert(cs.push(c).len() == 1);
        assert(cs.push(c)[0] == c);
    } else if cs.len() == 1 {
        assert(cs.push(c).skip(1) =~= seq![c]);
        assert(spec_join(seq![c]) == c);
    } else {
        let t = cs.skip(1);
        lemma_join_push(t, c);
        assert(cs.push(c).skip(1) =~= t.push(c));
        assert(cs.push(c)[0] == cs[0]);
        assert(spec_join(cs.push(c)) == cs[0] + seq![0x2fu8] + spec_join(t.push(c)));
        assert(cs[0] + seq![0x2fu8] + (spec_join(t) + seq![0x2fu8] + c) =~= (cs[0] + seq![0x2fu8]
            + spec_join(t)) + seq![0x2fu8] + c);
    }
}

/// A join of fit components is a safe relative path.
pub proof fn lemma_join_safe(cs: Seq<Seq<u8>>)
    requires
        cs.len() > 0,
        forall|i: int| 0 <= i < cs.len() ==> comp_ok(#[trigger] cs[i]),
    ensures
        safe_rel_path(spec_join(cs)),
{
    assert forall|i: int, j: int|
        0 <= i < cs.len() && 0 <= j < cs[i].len() implies #[trigger] cs[i][j] != 0x2f by {
        assert(comp_ok(cs[i]));
    }
    lemma_split_join(cs);
    assert(spec_join(cs).len() > 0) by {
        assert(comp_ok(cs[0]));
        if cs.len() > 1 {
            assert(spec_join(cs) == cs[0] + seq![0x2fu8] + spec_join(cs.skip(1)));
        }
    }
}

// ---------------------------------------------------------------------------
// Executable sanitizing
// ---------------------------------------------------------------------------

pub open spec fn comp_views(cs: Seq<Vec<u8>>) -> Seq<Seq<u8>> {
    cs.map_values(|c: Vec<u8>| c@)
}

/// Sanitize the components of `p[off..]`.
fn sanitize_from(p: &Vec<u8>, off: usize) -> (r: Option<Vec<Vec<u8>>>)
    requires
        off <= p.len(),
    ensures
        match r {
            Some(cs) => spec_sanitize_components(spec_split_path(p@.skip(off as int))) == Some(
                comp_views(cs@),
            ),
            None => spec_sanitize_components(spec_split_path(p@.skip(off as int))) is None,
        },
    decreases p.len() - off,
{
    let ghost suffix = p@.skip(off as int);
    let d = scan_run(p, off, p.len(), ByteClass::NotSlash);
    proof {
        assert(suffix =~= p@.subrange(off as int, p@.len() as int));
        assert(suffix.take(d - off) =~= p@.subrange(off as int, d as int));
    }
    let comp = copy_range(p, off, d);
    let ghost dd = run_len(ByteClass::NotSlash, suffix) as int;
    let is_last = d == p.len();
    proof {
        assert(dd == d - off);
        if is_last {
            assert(suffix.take(dd) =~= suffix);
            assert(spec_split_path(suffix) == seq![suffix]);
            assert(comp@ == suffix);
        } else {
            assert(spec_split_path(suffix) == seq![suffix.take(dd)] + spec_split_path(
                suffix.skip(dd + 1),
            ));
            assert(suffix.skip(dd + 1) =~= p@.skip((d + 1) as int));
            assert(comp@ == suffix.take(dd));
        }
        assert(spec_split_path(suffix)[0] == comp@);
    }
    // classify the component
    let is_parent = comp.len() == 2 && comp[0] == 0x2e && comp[1] == 0x2e;
    let is_cur = comp.len() == 1 && comp[0] == 0x2e;
    proof {
        if is_parent {
            assert(comp@ =~= seq![0x2eu8, 0x2eu8]);
        }
        if is_cur {
            assert(comp@ =~= seq![0x2eu8]);
        }
        if comp@ == seq![0x2eu8, 0x2eu8] {
            assert(is_parent);
        }
        if comp@ == seq![0x2eu8] {
            assert(is_cur);
        }
    }
    if is_parent {
        proof {
            if is_last {
                assert(spec_split_path(suffix)[0] == suffix);
                assert(spec_split_path(suffix).skip(1) =~= Seq::<Seq<u8>>::empty());
            }
        }
        return None;
    }
    let rest: Option<Vec<Vec<u8>>> = if is_last {
        let empty_cs: Vec<Vec<u8>> = Vec::new();
        proof {
            assert(comp_views(empty_cs@) =~= Seq::<Seq<u8>>::empty());
        }
        Some(empty_cs)
    } else {
        sanitize_from(p, d + 1)
    };
    proof {
        if is_last {
            assert(spec_split_path(suffix).skip(1) =~= Seq::<Seq<u8>>::empty());
            assert(spec_sanitize_components(Seq::<Seq<u8>>::empty()) == Some(
                Seq::<Seq<u8>>::empty(),
            ));
        } else {
            assert((seq![suffix.take(dd)] + spec_split_path(suffix.skip(dd + 1))).skip(1)
                =~= spec_split_path(suffix.skip(dd + 1)));
        }
    }
    match rest {
        None => None,
        Some(mut cs) => {
            if comp.len() == 0 || is_cur {
                Some(cs)
            } else {
                let ghost oldcs = cs@;
                let ghost compv = comp@;
                cs.insert(0, comp);
                proof {
                    assert(comp_views(cs@) =~= seq![compv] + comp_views(oldcs));
                }
                Some(cs)
            }
        },
    }
}

/// The outcome of sanitizing one stored path.
pub enum Sanitized {
    /// A safe destination-relative path to write to.
    Safe(Vec<u8>),
    /// Nothing remains after dropping `.` and empty components.
    Empty,
    /// The path contains a parent-directory component.
    Traversal,
}

/// Sanitize a stored entry path into a destination-relative path.
///
/// The result is `Traversal` exactly when the stored path has a `..`
/// component; otherwise empty and `.` components (which also covers a
/// leading `/`) are dropped, and what remains, if anything, is a safe
/// relative path.
pub fn sanitize_path(p: &Vec<u8>) -> (r: Sanitized)
    ensures
        match r {
            Sanitized::Safe(j) => spec_sanitize(p@) matches Some(cs) && cs.len() > 0 && j@
                == spec_join(cs) && safe_rel_path(j@),
            Sanitized::Empty => spec_sanitize(p@) == Some(Seq::<Seq<u8>>::empty()),
            Sanitized::Traversal => spec_sanitize(p@) is None,
        },
{
    proof {
        assert(p@.skip(0) =~= p@);
    }
    let cs = match sanitize_from(p, 0) {
        Some(cs) => cs,
        None => {
            return Sanitized::Traversal;
        },
    };
    if cs.len() == 0 {
        proof {
            assert(comp_views(cs@) =~= Seq::<Seq<u8>>::empty());
        }
        return Sanitized::Empty;
    }
    proof {
        lemma_split_comps_slash_free(p@);
        lemma_sanitize_comps_ok(spec_split_path(p@));
    }
    // join with separators
    let mut out: Vec<u8> = Vec::new();
    let mut k: usize = 0;
    proof {
        assert(comp_views(cs@).take(0) =~= Seq::<Seq<u8>>::empty());
    }
    while k < cs.len()
        invariant
            0 <= k <= cs.len(),
            out@ == spec_join(comp_views(cs@).take(k as int)),
        decreases cs.len() - k,
    {
        let ghost before = out@;
        if k > 0 {
            out.push(0x2f);
        }
        let c = &cs[k];
        let mut j: usize = 0;
        while j < c.len()
            invariant
                0 <= j <= c.len(),
                c@ == cs@[k as int]@,
                out@ == if k > 0 {
                    before + seq![0x2fu8] + c@.take(j as int)
                } else {
                    c@.take(j as int)
                },
            decreases c.len() - j,
        {
            out.push(c[j]);
            proof {
                assert(c@.take(j + 1) =~= c@.take(j as int).push(c@[j as int]));
            }
            j = j + 1;
        }
        proof {
            let cv = comp_views(cs@);
            assert(c@.take(c@.len() as int) =~= c@);
            assert(cv.take(k + 1) =~= cv.take(k as int).push(cv[k as int]));
            lemma_join_push(cv.take(k as int), cv[k as int]);
        }
        k = k + 1;
    }
    proof {
        assert(comp_views(cs@).take(cs@.len() as int) =~= comp_views(cs@));
        lemma_join_safe(comp_views(cs@));
    }
    Sanitized::Safe(out)
}

// ---------------------------------------------------------------------------
// The unpack plan
// ---------------------------------------------------------------------------

/// One filesystem operation of an extraction, with a destination-relative
/// path. The caller joins the path onto the destination root and performs
/// the write; `SkipTraversal` and `SkipUnsupported` record entries that are
/// deliberately not materialized.
pub enum UnpackAction {
    Dir { path: Vec<u8>, mode: Option<u32>, owner: Option<(u64, u64)> },
    File {
        path: Vec<u8>,
        data: Vec<u8>,
        mode: Option<u32>,
        mtime: Option<u64>,
        owner: Option<(u64, u64)>,
    },
    Symlink { path: Vec<u8>, target: Vec<u8> },
    HardLink { path: Vec<u8>, target: Vec<u8> },
    Fifo { path: Vec<u8>, mode: Option<u32> },
    Device { path: Vec<u8>, char_device: bool, major: u32, minor: u32, mode: Option<u32> },
    SkipTraversal { path: Vec<u8> },
    SkipUnsupported { path: Vec<u8> },
}

/// The mode actually applied on extraction: without extended-permission
/// preservation only the low nine bits survive, and the mask is removed as
/// `umask` would.
pub open spec fn spec_applied_mode(mode: u32, mask: u32, preserve: bool) -> u32 {
    (if preserve {
        mode
    } else {
        mode & 0o777
    }) & !mask
}

/// The mode an entry's files get, or `None` (leave the platform default)
/// when the mode field does not parse.
pub open spec fn spec_mode_of(m: EntryModel, mask: u32, pp: bool) -> Option<u32> {
    match spec_header_mode(m.header) {
        Some(mode) => Some(spec_applied_mode(mode as u32, mask, pp)),
        None => None,
    }
}

/// The ownership to apply, when preservation is on and both ids parse.
pub open spec fn spec_owner_of(m: EntryModel, po: bool) -> Option<(u64, u64)> {
    if po {
        match spec_header_uid(m.header) {
            Some(u) => match spec_header_gid(m.header) {
                Some(g) => if u <= u64::MAX && g <= u64::MAX {
                    Some((u as u64, g as u64))
                } else {
                    None
                },
                None => None,
            },
            None => None,
        }
    } else {
        None
    }
}

/// The modification time to apply, when preservation is on and the field
/// parses.
pub open spec fn spec_mtime_of(m: EntryModel, pm: bool) -> Option<u64> {
    if pm {
        match spec_header_mtime(m.header) {
            Some(t) => if t <= u64::MAX {
                Some(t as u64)
            } else {
                None
            },
            None => None,
        }
    } else {
        None
    }
}

/// The device numbers of a device entry: zero in dialects without the
/// fields, `None` (not materializable) when a present field does not parse.
pub open spec fn spec_dev_of(m: EntryModel) -> Option<(u32, u32)> {
    if spec_is_ustar(m.header) || spec_is_gnu(m.header) {
        match spec_parse_octal(m.header.subrange(329, 337)) {
            Some(maj) => match spec_parse_octal(m.header.subrange(337, 345)) {
                Some(min) => Some((maj as u32, min as u32)),
                None => None,
            },
            None => None,
        }
    } else {
        Some((0, 0))
    }
}

/// What the plan does with one entry, exactly.
pub open spec fn action_matches(
    a: UnpackAction,
    m: EntryModel,
    mask: u32,
    pp: bool,
    po: bool,
    pm: bool,
) -> bool {
    let et = spec_header_type(m.header);
    match spec_sanitize(m.path) {
        None => a matches UnpackAction::SkipTraversal { path } && path@ == m.path,
        Some(cs) => if cs.len() == 0 {
            a matches UnpackAction::SkipUnsupported { path } && path@ == m.path
        } else {
            let jp = spec_join(cs);
            if et == EntryType::Directory {
                a matches UnpackAction::Dir { path, mode, owner } && path@ == jp && mode
                    == spec_mode_of(m, mask, pp) && owner == spec_owner_of(m, po)
            } else if et == EntryType::Symlink {
                match m.link {
                    Some(t) => a matches UnpackAction::Symlink { path, target } && path@ == jp
                        && target@ == t,
                    None => a matches UnpackAction::SkipUnsupported { path } && path@ == m.path,
                }
            } else if et == EntryType::Link {
                match m.link {
                    Some(t) => match spec_sanitize(t) {
                        None => a matches UnpackAction::SkipTraversal { path } && path@ == m.path,
                        Some(ts) => if ts.len() == 0 {
                            a matches UnpackAction::SkipUnsupported { path } && path@ == m.path
                        } else {
                            a matches UnpackAction::HardLink { path, target } && path@ == jp
                                && target@ == spec_join(ts)
                        },
                    },
                    None => a matches UnpackAction::SkipUnsupported { path } && path@ == m.path,
                }
            } else if et == EntryType::Fifo {
                a matches UnpackAction::Fifo { path, mode } && path@ == jp && mode == spec_mode_of(
                    m,
                    mask,
                    pp,
                )
            } else if et == EntryType::Char || et == EntryType::Block {
                match spec_dev_of(m) {
                    Some(d) => a matches UnpackAction::Device {
                        path,
                        char_device,
                        major,
                        minor,
                        mode,
                    } && path@ == jp && char_device == (et == EntryType::Char) && major == d.0
                        && minor == d.1 && mode == spec_mode_of(m, mask, pp),
                    None => a matches UnpackAction::SkipUnsupported { path } && path@ == m.path,
                }
            } else if et == EntryType::GNUSparse {
                a matches UnpackAction::SkipUnsupported { path } && path@ == m.path
            } else {
                a matches UnpackAction::File { path, data, mode, mtime, owner } && path@ == jp
                    && data@ == m.data && mode == spec_mode_of(m, mask, pp) && mtime
                    == spec_mtime_of(m, pm) && owner == spec_owner_of(m, po)
            }
        },
    }
}

/// Compute the mode to apply for one entry.
fn mode_of(e: &Entry, mask: u32, pp: bool) -> (r: Option<u32>)
    requires
        e@.wf(),
    ensures
        r == spec_mode_of(e@, mask, pp),
{
    match e.header().mode() {
        Ok(mode) => Some((if pp {
            mode
        } else {
            mode & 0o777
        }) & !mask),
        Err(_) => None,
    }
}

/// Compute the ownership to apply for one entry.
fn owner_of(e: &Entry, po: bool) -> (r: Option<(u64, u64)>)
    requires
        e@.wf(),
    ensures
        r == spec_owner_of(e@, po),
{
    if po {
        match e.header().uid() {
            Ok(u) => match e.header().gid() {
                Ok(g) => Some((u, g)),
                Err(_) => None,
            },
            Err(_) => None,
        }
    } else {
        None
    }
}

/// Compute the modification time to apply for one entry.
fn mtime_of(e: &Entry, pm: bool) -> (r: Option<u64>)
    requires
        e@.wf(),
    ensures
        r == spec_mtime_of(e@, pm),
{
    if pm {
        match e.header().mtime() {
            Ok(t) => Some(t),
            Err(_) => None,
        }
    } else {
        None
    }
}

/// Compute the device numbers of one entry.
fn dev_of(e: &Entry) -> (r: Option<(u32, u32)>)
    requires
        e@.wf(),
    ensures
        r == spec_dev_of(e@),
{
    match e.header().device_major() {
        Ok(Some(maj)) => match e.header().device_minor() {
            Ok(Some(min)) => Some((maj, min)),
            Ok(None) => Some((0, 0)),
            Err(_) => None,
        },
        Ok(None) => Some((0, 0)),
        Err(_) => None,
    }
}

/// Plan the extraction of one entry.
fn plan_one(e: &Entry, mask: u32, pp: bool, po: bool, pm: bool) -> (a: UnpackAction)
    requires
        e@.wf(),
    ensures
        action_matches(a, e@, mask, pp, po, pm),
{
    let raw = copy_range(e.path(), 0, e.path().len());
    proof {
        assert(raw@ =~= e@.path);
    }
    let jp = match sanitize_path(e.path()) {
        Sanitized::Traversal => {
            return UnpackAction::SkipTraversal { path: raw };
        },
        Sanitized::Empty => {
            return UnpackAction::SkipUnsupported { path: raw };
        },
        Sanitized::Safe(j) => j,
    };
    let et = e.header().entry_type();
    match et {
        EntryType::Directory => UnpackAction::Dir {
            path: jp,
            mode: mode_of(e, mask, pp),
            owner: owner_of(e, po),
        },
        EntryType::Symlink => {
            match e.link_name() {
                Some(t) => {
                    let tc = copy_range(t, 0, t.len());
                    proof {
                        assert(tc@ =~= t@);
                    }
                    UnpackAction::Symlink { path: jp, target: tc }
                },
                None => UnpackAction::SkipUnsupported { path: raw },
            }
        },
        EntryType::Link => {
            match e.link_name() {
                Some(t) => {
                    match sanitize_path(t) {
                        Sanitized::Traversal => UnpackAction::SkipTraversal { path: raw },
                        Sanitized::Empty => UnpackAction::SkipUnsupported { path: raw },
                        Sanitized::Safe(tj) => UnpackAction::HardLink { path: jp, target: tj },
                    }
                },
                None => UnpackAction::SkipUnsupported { path: raw },
            }
        },
        EntryType::Fifo => UnpackAction::Fifo { path: jp, mode: mode_of(e, mask, pp) },
        EntryType::Char => {
            match dev_of(e) {
                Some(d) => UnpackAction::Device {
                    path: jp,
                    char_device: true,
                    major: d.0,
                    minor: d.1,
                    mode: mode_of(e, mask, pp),
                },
                None => UnpackAction::SkipUnsupported { path: raw },
            }
        },
        EntryType::Block => {
            match dev_of(e) {
                Some(d) => UnpackAction::Device {
                    path: jp,
                    char_device: false,
                    major: d.0,
                    minor: d.1,
                    mode: mode_of(e, mask, pp),
                },
                None => UnpackAction::SkipUnsupported { path: raw },
            }
        },
        EntryType::GNUSparse => UnpackAction::SkipUnsupported { path: raw },
        _ => {
            let data = copy_range(e.as_bytes(), 0, e.as_bytes().len());
            proof {
                assert(data@ =~= e@.data);
            }
            UnpackAction::File {
                path: jp,
                data,
                mode: mode_of(e, mask, pp),
                mtime: mtime_of(e, pm),
                owner: owner_of(e, po),
            }
        },
    }
}

/// Plan the extraction of a whole entry list, in order.
pub fn plan_unpack(entries: &Vec<Entry>, mask: u32, pp: bool, po: bool, pm: bool) -> (r: Vec<
    UnpackAction,
>)
    requires
        forall|i: int| 0 <= i < entries@.len() ==> (#[trigger] entries@[i]@).wf(),
    ensures
        r@.len() == entries@.len(),
        forall|i: int|
            0 <= i < r@.len() ==> action_matches(#[trigger] r@[i], entries@[i]@, mask, pp, po, pm),
{
    let mut out: Vec<UnpackAction> = Vec::new();
    let n = entries.len();
    let mut k: usize = 0;
    while k < n
        invariant
            0 <= k <= n == entries@.len(),
            out@.len() == k,
            forall|i: int|
                0 <= i < k ==> action_matches(#[trigger] out@[i], entries@[i]@, mask, pp, po, pm),
        decreases n - k,
    {
        let a = plan_one(&entries[k], mask, pp, po, pm);
        out.push(a);
        k = k + 1;
    }
    out
}

// ---------------------------------------------------------------------------
// Safety laws
// ---------------------------------------------------------------------------

/// A component list containing `..` never sanitizes.
pub proof fn lemma_parent_component_rejected(cs: Seq<Seq<u8>>, i: int)
    requires
        0 <= i < cs.len(),
        comp_is_parent(cs[i]),
    ensures
        spec_sanitize_components(cs) is None,
    decreases cs.len(),
{
    if i > 0 {
        assert(cs.skip(1)[i - 1] == cs[i]);
        lemma_parent_component_rejected(cs.skip(1), i - 1);
    }
}

/// An entry whose stored path contains a parent-directory component is
/// skipped by the plan, never written.
pub proof fn lemma_traversal_is_skipped(
    a: UnpackAction,
    m: EntryModel,
    mask: u32,
    pp: bool,
    po: bool,
    pm: bool,
    i: int,
)
    requires
        action_matches(a, m, mask, pp, po, pm),
        0 <= i < spec_split_path(m.path).len(),
        comp_is_parent(spec_split_path(m.path)[i]),
    ensures
        a is SkipTraversal,
{
    lemma_parent_component_rejected(spec_split_path(m.path), i);
}

/// The destination-relative path of an action, when it writes one.
pub open spec fn action_write_path(a: UnpackAction) -> Option<Seq<u8>> {
    match a {
        UnpackAction::Dir { path, .. } => Some(path@),
        UnpackAction::File { path, .. } => Some(path@),
        UnpackAction::Symlink { path, .. } => Some(path@),
        UnpackAction::HardLink { path, .. } => Some(path@),
        UnpackAction::Fifo { path, .. } => Some(path@),
        UnpackAction::Device { path, .. } => Some(path@),
        UnpackAction::SkipTraversal { .. } => None,
        UnpackAction::SkipUnsupported { .. } => None,
    }
}

/// Every path the plan writes is a safe relative path: nonempty, not
/// absolute, with no `..` component, so nothing lands outside the
/// destination root.
pub proof fn lemma_written_paths_safe(
    a: UnpackAction,
    m: EntryModel,
    mask: u32,
    pp: bool,
    po: bool,
    pm: bool,
)
    requires
        action_matches(a, m, mask, pp, po, pm),
    ensures
        action_write_path(a) matches Some(p) ==> safe_rel_path(p),
{
    match spec_sanitize(m.path) {
        None => {},
        Some(cs) => {
            if cs.len() > 0 {
                lemma_split_comps_slash_free(m.path);
                lemma_sanitize_comps_ok(spec_split_path(m.path));
                lemma_join_safe(cs);
                let et = spec_header_type(m.header);
                if et == EntryType::Link {
                    match m.link {
                        Some(t) => {
                            match spec_sanitize(t) {
                                Some(ts) => {
                                    if ts.len() > 0 {
                                        lemma_split_comps_slash_free(t);
                                        lemma_sanitize_comps_ok(spec_split_path(t));
                                        lemma_join_safe(ts);
                                    }
                                },
                                None => {},
                            }
                        },
                        None => {},
                    }
                }
            }
        },
    }
}

} // verus!
