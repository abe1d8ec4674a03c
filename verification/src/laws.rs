//! Properties relating the writer and the reader.
//!
//! The central law: a stream produced by appending entries and finishing
//! parses back to exactly those entries, in order, with their names, types
//! and bodies intact.
#![verifier::loop_isolation(false)]

use crate::entry::initial_state;
use crate::entry::is_extension_type;
use crate::entry::spec_entries;
use crate::entry::spec_entries_from;
use crate::entry::EntryModel;
use crate::entry::SpecParseState;
use crate::header::fields_valid;
use crate::header::lemma_header_roundtrip;
use crate::header::spec_encode_header;
use crate::header::HeaderFields;
use crate::num::pad512;
use crate::num::zeros;
use crate::pax::spec_no_overrides;
use crate::writer::spec_record;
use vstd::prelude::*;

verus! {

/// The entry that a written record reads back as.
pub open spec fn record_model(f: HeaderFields, data: Seq<u8>) -> EntryModel {
    EntryModel {
        header: spec_encode_header(f),
        path: f.path,
        link: if f.link.len() > 0 {
            Some(f.link)
        } else {
            None
        },
        data: data,
        pax: Seq::empty(),
    }
}

/// One planned append: the header fields and the body bytes.
pub struct AppendSpec {
    pub fields: HeaderFields,
    pub data: Seq<u8>,
}

/// An append the writer accepts: encodable fields, a non-extension type,
/// and a size field matching the body.
pub open spec fn append_valid(it: AppendSpec) -> bool {
    &&& fields_valid(it.fields)
    &&& !is_extension_type(it.fields.etype)
    &&& it.fields.size == it.data.len()
}

/// The records of a sequence of appends, in order.
pub open spec fn build_stream(items: Seq<AppendSpec>) -> Seq<u8>
    decreases items.len(),
{
    if items.len() == 0 {
        Seq::empty()
    } else {
        spec_record(items[0].fields, items[0].data) + build_stream(items.skip(1))
    }
}

/// A finished archive: the records followed by the two zero trailer blocks.
pub open spec fn build_archive(items: Seq<AppendSpec>) -> Seq<u8> {
    build_stream(items) + zeros(1024)
}

pub open spec fn expected_models(items: Seq<AppendSpec>) -> Seq<EntryModel> {
    items.map_values(|it: AppendSpec| record_model(it.fields, it.data))
}

/// Parsing one written record yields its model and continues behind it.
pub proof fn lemma_parse_record_step(f: HeaderFields, data: Seq<u8>, rest: Seq<u8>, iz: bool)
    requires
        fields_valid(f),
        !is_extension_type(f.etype),
        f.size == data.len(),
    ensures
        spec_entries_from(spec_record(f, data) + rest, iz, initial_state()) == (match
            spec_entries_from(rest, iz, initial_state()) {
            Some(es) => Some(seq![record_model(f, data)] + es),
            None => None::<Seq<EntryModel>>,
        }),
{
    lemma_header_roundtrip(f);
    let enc = spec_encode_header(f);
    let s = spec_record(f, data) + rest;
    let pad = pad512(data.len());
    assert(s.len() == 512 + data.len() + pad + rest.len());
    let block = s.subrange(0, 512);
    assert(block =~= enc);
    assert(block[257] == 0x75u8) by {
        assert(crate::header::spec_is_gnu(enc));
    }
    assert(!crate::num::all_zero(block));
    assert(crate::header::spec_cksum_ok(block));
    assert(crate::header::spec_header_size(block) == Some(f.size));
    assert(crate::header::spec_header_type(block) == f.etype);
    let st = initial_state();
    assert(st.next == spec_no_overrides());
    let esize = f.size;
    let padded = esize + pad512(esize);
    assert(512 + padded <= s.len());
    let body = s.subrange(512, (512 + esize) as int);
    assert(body =~= data);
    let rest2 = s.skip((512 + padded) as int);
    assert(rest2 =~= rest);
    let m = EntryModel {
        header: block,
        path: crate::entry::spec_eff_path(st.next, st.global, block),
        link: crate::entry::spec_eff_link(st.next, st.global, block),
        data: body,
        pax: st.pax,
    };
    assert(m.path == f.path);
    assert(m.link == record_model(f, data).link) by {
        assert(crate::header::spec_header_link(block) == f.link);
    }
    assert(m == record_model(f, data));
    assert(SpecParseState {
        next: spec_no_overrides(),
        global: st.global,
        pax: Seq::<crate::pax::PaxPair>::empty(),
    } == initial_state());
}

/// The two zero trailer blocks alone parse as an empty archive.
proof fn lemma_trailer_parses_empty()
    ensures
        spec_entries(zeros(1024), false) == Some(Seq::<EntryModel>::empty()),
{
    let s = zeros(1024);
    assert(s.len() == 1024);
    let block = s.subrange(0, 512);
    assert(crate::num::all_zero(block));
}

/// The archive round trip: an archive built from valid appends parses back
/// to exactly those entries, in order.
#[verifier::rlimit(100)]
pub proof fn lemma_write_read_roundtrip(items: Seq<AppendSpec>)
    requires
        forall|i: int| 0 <= i < items.len() ==> append_valid(#[trigger] items[i]),
    ensures
        spec_entries(build_archive(items), false) == Some(expected_models(items)),
    decreases items.len(),
{
    if items.len() == 0 {
        let s = build_archive(items);
        assert(s =~= zeros(1024));
        lemma_trailer_parses_empty();
        assert(expected_models(items) =~= Seq::<EntryModel>::empty());
    } else {
        let head = items[0];
        let rest_items = items.skip(1);
        assert(forall|i: int|
            0 <= i < rest_items.len() ==> append_valid(#[trigger] rest_items[i])) by {
            assert(forall|i: int|
                0 <= i < rest_items.len() ==> rest_items[i] == items[i + 1]);
        }
        lemma_write_read_roundtrip(rest_items);
        lemma_parse_record_step(head.fields, head.data, build_archive(rest_items), false);
        assert(build_archive(items) =~= spec_record(head.fields, head.data) + build_archive(
            rest_items,
        ));
        assert(expected_models(items) =~= seq![record_model(head.fields, head.data)]
            + expected_models(rest_items));
    }
}

} // verus!
