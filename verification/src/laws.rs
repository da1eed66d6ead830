//! Laws relating split and splice across whole modules.

use vstd::prelude::*;

use crate::codec::{
    lemma_record_round_trip, section_bytes, spec_decode_record, wf_record, wire_bytes, RecordModel,
};
use crate::error::SpliceError;
use crate::scanner::{
    desc_wf, le_word, le_word_bytes, lemma_le_bytes_round_trip, lemma_le_word_round_trip,
    spec_module_parse, spec_scan, DescModel,
};
use crate::splice::{
    spec_splice, spec_splice_digests, spec_splice_records, spec_splice_sections, splice_flag_ok,
    splice_preamble, splice_record_of, splice_section_bytes,
};
use crate::split::{
    concat_parts, custom_name_item, sha256_name, spec_split, spec_split_sections,
    split_fragment_data, split_head, split_matches, split_preamble, split_record, FragModel,
};
use crate::store::sha256_of;
use crate::varint::{
    leb_bytes, leb_item, lemma_leb_item_at, lemma_leb_item_bounds, lemma_leb_item_shift, lp_item,
};

verus! {

/// The bytes one section contributes to a split module, taken from
/// `split_head` where it succeeds.
pub open spec fn split_part_of(s: Seq<u8>, d: DescModel, names: Seq<Seq<u8>>) -> Seq<u8> {
    match split_head(s, d, names) {
        Ok((part, fo)) => part,
        Err(e) => Seq::empty(),
    }
}

/// A successful run of split over sections treats every section as
/// `split_head` says, one part per section.
pub proof fn lemma_split_sections_structure(
    s: Seq<u8>,
    ds: Seq<DescModel>,
    names: Seq<Seq<u8>>,
    parts: Seq<Seq<u8>>,
    frags: Seq<FragModel>,
)
    requires
        spec_split_sections(s, ds, names) == Ok::<(Seq<Seq<u8>>, Seq<FragModel>), SpliceError>(
            (parts, frags),
        ),
    ensures
        parts.len() == ds.len(),
        forall|i: int|
            0 <= i < ds.len() ==> split_head(s, #[trigger] ds[i], names) is Ok && parts[i]
                == split_part_of(s, ds[i], names),
    decreases ds.len(),
{
    if ds.len() > 0 {
        match split_head(s, ds[0], names) {
            Err(e) => {
                assert(false);
            },
            Ok((part0, fo)) => {
                match spec_split_sections(s, ds.drop_first(), names) {
                    Err(e) => {
                        assert(false);
                    },
                    Ok((parts1, frags1)) => {
                        lemma_split_sections_structure(s, ds.drop_first(), names, parts1, frags1);
                        assert(parts == seq![part0] + parts1);
                        assert forall|i: int|
                            0 <= i < ds.len() implies split_head(s, #[trigger] ds[i], names) is Ok
                            && parts[i] == split_part_of(s, ds[i], names) by {
                            if i > 0 {
                                assert(ds[i] == ds.drop_first()[i - 1]);
                                assert(parts[i] == parts1[i - 1]);
                            }
                        }
                    },
                }
            },
        }
    }
}

/// Where the `i`-th part starts within the concatenation of all parts.
pub open spec fn parts_offset(parts: Seq<Seq<u8>>, i: int) -> int
    decreases i,
{
    if i <= 0 || parts.len() == 0 {
        0
    } else {
        parts[0].len() + parts_offset(parts.drop_first(), i - 1)
    }
}

/// Each part sits verbatim inside the concatenation, at its offset.
pub proof fn lemma_concat_parts_slice(parts: Seq<Seq<u8>>, i: int)
    requires
        0 <= i < parts.len(),
    ensures
        0 <= parts_offset(parts, i),
        parts_offset(parts, i) + parts[i].len() <= concat_parts(parts).len(),
        concat_parts(parts).subrange(
            parts_offset(parts, i),
            parts_offset(parts, i) + parts[i].len(),
        ) == parts[i],
    decreases i,
{
    let whole = concat_parts(parts);
    let rest = concat_parts(parts.drop_first());
    assert(whole == parts[0] + rest);
    if i == 0 {
        assert(whole.subrange(0, parts[0].len() as int) =~= parts[0]);
    } else {
        lemma_concat_parts_slice(parts.drop_first(), i - 1);
        let off1 = parts_offset(parts.drop_first(), i - 1);
        let off = parts[0].len() + off1;
        assert(parts_offset(parts, i) == off);
        assert(parts[i] == parts.drop_first()[i - 1]);
        assert(whole.subrange(off, off + parts[i].len() as int) =~= rest.subrange(
            off1,
            off1 + parts[i].len() as int,
        ));
    }
}

/// One serialized section: a type tag, a 32-bit payload length, and that
/// many payload bytes, with nothing over.
pub open spec fn is_section_bytes(part: Seq<u8>) -> bool {
    &&& part.len() >= 2
    &&& match leb_item(part, 1) {
        Some((size, e)) => e + size == part.len(),
        None => false,
    }
}

/// The descriptor of a serialized section laid down at `pos`.
pub open spec fn part_desc(part: Seq<u8>, pos: int) -> DescModel {
    DescModel {
        id: part[0],
        start: pos,
        payload_start: pos + leb_item(part, 1).unwrap().1,
        end: pos + part.len(),
    }
}

/// The descriptors of serialized sections laid down in a row from `pos`.
pub open spec fn scan_descs(parts: Seq<Seq<u8>>, pos: int) -> Seq<DescModel>
    decreases parts.len(),
{
    if parts.len() == 0 {
        Seq::empty()
    } else {
        seq![part_desc(parts[0], pos)] + scan_descs(parts.drop_first(), pos + parts[0].len())
    }
}

/// Scanning a buffer whose tail is a row of serialized sections finds
/// exactly their descriptors.
pub proof fn lemma_scan_of_parts(t: Seq<u8>, pos: int, parts: Seq<Seq<u8>>)
    requires
        0 <= pos <= t.len(),
        t.subrange(pos, t.len() as int) == concat_parts(parts),
        forall|i: int| 0 <= i < parts.len() ==> is_section_bytes(#[trigger] parts[i]),
    ensures
        spec_scan(t, pos) == Some(scan_descs(parts, pos)),
    decreases parts.len(),
{
    if parts.len() == 0 {
        assert(concat_parts(parts) == Seq::<u8>::empty());
        assert(t.subrange(pos, t.len() as int).len() == 0);
        assert(t.len() == pos);
    } else {
        let p0 = parts[0];
        let rest_concat = concat_parts(parts.drop_first());
        assert(t.subrange(pos, t.len() as int) == p0 + rest_concat);
        assert(pos + p0.len() <= t.len());
        assert(t.subrange(pos, pos + p0.len() as int) =~= p0) by {
            assert forall|j: int| 0 <= j < p0.len() implies t[pos + j] == p0[j] by {
                assert(t.subrange(pos, t.len() as int)[j] == (p0 + rest_concat)[j]);
            }
        }
        assert(is_section_bytes(p0));
        let (size, e) = leb_item(p0, 1).unwrap();
        lemma_leb_item_bounds(p0, 1);
        assert(p0.subrange(1, e) =~= t.subrange(pos + 1, pos + e)) by {
            assert forall|j: int| 0 <= j < e - 1 implies #[trigger] p0.subrange(1, e)[j]
                == t.subrange(pos + 1, pos + e)[j] by {
                assert(t.subrange(pos, pos + p0.len() as int)[1 + j] == p0[1 + j]);
            }
        }
        lemma_leb_item_shift(p0, 1, t, pos + 1, size, e);
        assert(leb_item(t, pos + 1) == Some((size, pos + e)));
        assert(pos + e + size == pos + p0.len());
        assert(t.subrange(pos + p0.len(), t.len() as int) =~= rest_concat) by {
            assert forall|j: int| 0 <= j < rest_concat.len() implies t[pos + p0.len() + j]
                == rest_concat[j] by {
                assert(t.subrange(pos, t.len() as int)[p0.len() + j] == (p0 + rest_concat)[p0.len()
                    + j]);
            }
        }
        lemma_scan_of_parts(t, pos + p0.len(), parts.drop_first());
        assert(t[pos] == p0[0]);
        assert(part_desc(p0, pos) == DescModel {
            id: t[pos],
            start: pos,
            payload_start: pos + e,
            end: pos + e + size,
        });
        assert(spec_scan(t, pos) == Some(
            seq![part_desc(p0, pos)] + scan_descs(parts.drop_first(), pos + p0.len()),
        ));
    }
}

/// The sections of a parsed module, as raw byte slices.
pub open spec fn section_slices(s: Seq<u8>, ds: Seq<DescModel>) -> Seq<Seq<u8>> {
    ds.map(|i: int, d: DescModel| s.subrange(d.start, d.end))
}

/// A scanned buffer is exactly its sections' bytes, in order.
pub proof fn lemma_scan_reassemble(s: Seq<u8>, pos: int, ds: Seq<DescModel>)
    requires
        0 <= pos <= s.len(),
        spec_scan(s, pos) == Some(ds),
    ensures
        s.subrange(pos, s.len() as int) == concat_parts(section_slices(s, ds)),
    decreases ds.len(),
{
    if ds.len() == 0 {
        assert(pos == s.len());
        assert(s.subrange(pos, s.len() as int) =~= concat_parts(section_slices(s, ds)));
    } else {
        let (size, hdr_end) = leb_item(s, pos + 1).unwrap();
        lemma_leb_item_bounds(s, pos + 1);
        let rest = spec_scan(s, hdr_end + size).unwrap();
        let d0 = DescModel { id: s[pos], start: pos, payload_start: hdr_end, end: hdr_end + size };
        assert(ds == seq![d0] + rest);
        assert(rest =~= ds.drop_first());
        lemma_scan_reassemble(s, hdr_end + size, rest);
        assert(section_slices(s, ds).drop_first() =~= section_slices(s, rest));
        assert(section_slices(s, ds)[0] == s.subrange(pos, hdr_end + size));
        assert(concat_parts(section_slices(s, ds)) == s.subrange(pos, hdr_end + size)
            + concat_parts(section_slices(s, rest)));
        assert(s.subrange(pos, s.len() as int) =~= s.subrange(pos, hdr_end + size) + s.subrange(
            hdr_end + size,
            s.len() as int,
        ));
    }
}

/// The conditions under which a matched custom section splits reversibly:
/// its payload length is canonically encoded in its header, its digest is
/// a nonempty value short enough to re-encode, and the whole record fits a
/// 32-bit section length.
pub open spec fn matched_reversible(s: Seq<u8>, d: DescModel, names: Seq<Seq<u8>>) -> bool {
    split_matches(s, d, names) ==> {
        &&& s.subrange(d.start + 1, d.payload_start) == leb_bytes((d.end - d.payload_start) as nat)
        &&& 0 < sha256_of(split_fragment_data(s, d)).len() < 0x100000000
        &&& wire_bytes(split_record(s, d)).len() < 0x100000000
    }
}

/// A section split leaves alone reads back, out of the split module, as
/// the very section it was.
proof fn lemma_unmatched_part(s: Seq<u8>, d: DescModel, names: Seq<Seq<u8>>, t: Seq<u8>, pos: int)
    requires
        desc_wf(s, d),
        d.id != crate::EXTERNAL_SECTION_ID,
        split_head(s, d, names) is Ok,
        !split_matches(s, d, names),
        0 <= pos,
        pos + (d.end - d.start) <= t.len(),
        t.subrange(pos, pos + (d.end - d.start)) == s.subrange(d.start, d.end),
    ensures
        is_section_bytes(s.subrange(d.start, d.end)),
        part_desc(s.subrange(d.start, d.end), pos) == (DescModel {
            id: d.id,
            start: pos,
            payload_start: pos + (d.payload_start - d.start),
            end: pos + (d.end - d.start),
        }),
        splice_record_of(t, part_desc(s.subrange(d.start, d.end), pos)) == Ok::<
            Option<RecordModel>,
            SpliceError,
        >(None),
{
    let part = s.subrange(d.start, d.end);
    let sz = (d.end - d.payload_start) as u32;
    lemma_leb_item_bounds(s, d.start + 1);
    assert(part.subrange(1, 1 + (d.payload_start - (d.start + 1))) =~= s.subrange(
        d.start + 1,
        d.payload_start,
    ));
    lemma_leb_item_shift(s, d.start + 1, part, 1, sz, d.payload_start);
    assert(leb_item(part, 1) == Some((sz, 1 + (d.payload_start - (d.start + 1)))));
    assert(is_section_bytes(part));
    let dd = part_desc(part, pos);
    assert(part[0] == s[d.start]);
    assert(dd == DescModel {
        id: d.id,
        start: pos,
        payload_start: pos + (d.payload_start - d.start),
        end: pos + (d.end - d.start),
    });
    if d.id == crate::CUSTOM_SECTION_ID {
        assert(t.subrange(dd.payload_start, dd.end) =~= s.subrange(d.payload_start, d.end)) by {
            assert forall|j: int| 0 <= j < d.end - d.payload_start implies t.subrange(
                dd.payload_start,
                dd.end,
            )[j] == s.subrange(d.payload_start, d.end)[j] by {
                assert(t.subrange(pos, pos + (d.end - d.start))[(d.payload_start - d.start) + j]
                    == part[(d.payload_start - d.start) + j]);
            }
        }
        assert(custom_name_item(t, dd) == custom_name_item(s, d));
        assert(custom_name_item(s, d) is Some);
    }
}

/// A matched custom section's replacement record reads back, out of the
/// split module, as a record that splices to the very section it replaced.
#[verifier::rlimit(100)]
#[verifier::spinoff_prover]
proof fn lemma_matched_part(s: Seq<u8>, d: DescModel, names: Seq<Seq<u8>>, t: Seq<u8>, pos: int)
    requires
        desc_wf(s, d),
        split_matches(s, d, names),
        matched_reversible(s, d, names),
        0 <= pos,
        pos + section_bytes(crate::EXTERNAL_SECTION_ID, wire_bytes(split_record(s, d))).len()
            <= t.len(),
        t.subrange(
            pos,
            pos + section_bytes(crate::EXTERNAL_SECTION_ID, wire_bytes(split_record(s, d))).len(),
        ) == section_bytes(crate::EXTERNAL_SECTION_ID, wire_bytes(split_record(s, d))),
    ensures
        ({
            let part = section_bytes(crate::EXTERNAL_SECTION_ID, wire_bytes(split_record(s, d)));
            let m = split_record(s, d);
            &&& is_section_bytes(part)
            &&& part_desc(part, pos).end == pos + part.len()
            &&& splice_record_of(t, part_desc(part, pos)) == Ok::<Option<RecordModel>, SpliceError>(
                Some(m),
            )
            &&& split_fragment_data(s, d).len() == m.external_size
            &&& splice_section_bytes(m, split_fragment_data(s, d)) == s.subrange(d.start, d.end)
        }),
{
    let m = split_record(s, d);
    let w = wire_bytes(m);
    let part = section_bytes(crate::EXTERNAL_SECTION_ID, w);
    let lb = leb_bytes(w.len());
    crate::varint::lemma_leb_bytes_props(w.len());
    assert(part == seq![crate::EXTERNAL_SECTION_ID] + lb + w);
    assert(part.subrange(1, 1 + lb.len() as int) =~= lb);
    lemma_leb_item_at(part, 1, w.len());
    let e = 1 + lb.len() as int;
    assert(leb_item(part, 1) == Some((w.len() as u32, e)));
    assert(is_section_bytes(part));
    let dd = part_desc(part, pos);
    assert(dd.id == crate::EXTERNAL_SECTION_ID);
    assert(dd.payload_start == pos + e && dd.end == pos + part.len());

    // The name at the head of the payload bounds the prefix and the data.
    let (name, ne) = custom_name_item(s, d).unwrap();
    let payload = s.subrange(d.payload_start, d.end);
    assert(lp_item(payload, 0) == Some((name, ne)));
    assert(0 < ne <= payload.len()) by {
        crate::varint::lemma_leb_item_bounds(payload, 0);
        match leb_item(payload, 0) {
            None => {
                assert(false);
            },
            Some((nn, le)) => {
                if le + nn > payload.len() {
                    assert(lp_item(payload, 0) is None);
                    assert(false);
                }
            },
        }
    }
    let data = split_fragment_data(s, d);
    assert(data.len() == d.end - (d.payload_start + ne));
    assert(m.prefix.len() == ne);

    // The record decodes back to itself.
    assert(wf_record(m)) by {
        assert(sha256_name().len() == 6);
    }
    lemma_record_round_trip(m);
    assert(t.subrange(dd.payload_start, dd.end) =~= w) by {
        assert forall|j: int| 0 <= j < w.len() implies t.subrange(dd.payload_start, dd.end)[j]
            == w[j] by {
            assert(t.subrange(pos, pos + part.len() as int)[e + j] == part[e + j]);
        }
    }
    assert(spec_decode_record(t.subrange(dd.payload_start, dd.end)) == Ok::<
        RecordModel,
        SpliceError,
    >(m));
    assert(m.digest_algo == sha256_name());
    assert(m.digest_data.len() > 0);
    assert(splice_record_of(t, dd) == Ok::<Option<RecordModel>, SpliceError>(Some(m)));

    // The fragment's length is the record's external size.
    assert(data.len() < 0x100000000);
    assert(m.external_size == data.len() as u32);

    // Splicing the record and fragment writes back the original section.
    assert(m.prefix + data =~= payload);
    assert(d.id == crate::CUSTOM_SECTION_ID);
    assert(s[d.start] == d.id);
    assert(splice_section_bytes(m, data) == seq![m.external_section_id] + leb_bytes(
        payload.len(),
    ) + payload) by {
        assert((m.prefix + data).len() == payload.len());
    }
    assert(s.subrange(d.start, d.end) =~= seq![d.id] + s.subrange(d.start + 1, d.payload_start)
        + payload);
    assert(m.external_section_id == crate::CUSTOM_SECTION_ID);
    assert(leb_bytes(payload.len()) == s.subrange(d.start + 1, d.payload_start));
    assert(splice_section_bytes(m, data) =~= s.subrange(d.start, d.end));
}

/// The data bytes of a list of fragments, in order.
pub open spec fn frags_data(frags: Seq<FragModel>) -> Seq<Seq<u8>> {
    frags.map(|i: int, f: FragModel| f.data)
}

/// Splicing the parts a successful split laid down, against the fragments
/// it stored in order, writes back exactly the original sections and uses
/// every fragment.
#[verifier::rlimit(100)]
#[verifier::spinoff_prover]
proof fn lemma_round_trip_sections(
    s: Seq<u8>,
    ds: Seq<DescModel>,
    names: Seq<Seq<u8>>,
    parts: Seq<Seq<u8>>,
    frags: Seq<FragModel>,
    t: Seq<u8>,
    pos: int,
)
    requires
        spec_split_sections(s, ds, names) == Ok::<(Seq<Seq<u8>>, Seq<FragModel>), SpliceError>(
            (parts, frags),
        ),
        forall|i: int| 0 <= i < ds.len() ==> desc_wf(s, #[trigger] ds[i]),
        forall|i: int| 0 <= i < ds.len() ==> (#[trigger] ds[i]).id != crate::EXTERNAL_SECTION_ID,
        forall|i: int| 0 <= i < ds.len() ==> matched_reversible(s, #[trigger] ds[i], names),
        0 <= pos <= t.len(),
        t.subrange(pos, t.len() as int) == concat_parts(parts),
    ensures
        spec_splice_sections(t, scan_descs(parts, pos), frags_data(frags)) == Ok::<
            (Seq<Seq<u8>>, Seq<Seq<u8>>),
            SpliceError,
        >((section_slices(s, ds), Seq::<Seq<u8>>::empty())),
    decreases ds.len(),
{
    lemma_split_sections_structure(s, ds, names, parts, frags);
    if ds.len() == 0 {
        assert(frags.len() == 0);
        assert(frags_data(frags) =~= Seq::<Seq<u8>>::empty());
        assert(scan_descs(parts, pos) == Seq::<DescModel>::empty());
        assert(section_slices(s, ds) =~= Seq::<Seq<u8>>::empty());
    } else {
        let d0 = ds[0];
        match split_head(s, d0, names) {
            Err(e) => {
                assert(false);
            },
            Ok((part0, fo)) => {
                match spec_split_sections(s, ds.drop_first(), names) {
                    Err(e) => {
                        assert(false);
                    },
                    Ok((parts1, frags1)) => {
                        assert(parts == seq![part0] + parts1);
                        assert(parts1 =~= parts.drop_first());
                        assert(parts[0] == part0);
                        assert forall|i: int| 0 <= i < ds.drop_first().len() implies desc_wf(
                            s,
                            #[trigger] ds.drop_first()[i],
                        ) && ds.drop_first()[i].id != crate::EXTERNAL_SECTION_ID
                            && matched_reversible(s, ds.drop_first()[i], names) by {
                            assert(ds.drop_first()[i] == ds[i + 1]);
                        }
                        let rest_concat = concat_parts(parts1);
                        assert(concat_parts(parts) == part0 + rest_concat);
                        assert(pos + part0.len() <= t.len());
                        assert(t.subrange(pos, pos + part0.len() as int) =~= part0) by {
                            assert forall|j: int|
                                0 <= j < part0.len() implies t[pos + j] == part0[j] by {
                                assert(t.subrange(pos, t.len() as int)[j] == (part0
                                    + rest_concat)[j]);
                            }
                        }
                        assert(t.subrange(pos + part0.len(), t.len() as int) =~= rest_concat) by {
                            assert forall|j: int|
                                0 <= j < rest_concat.len() implies t[pos + part0.len() + j]
                                == rest_concat[j] by {
                                assert(t.subrange(pos, t.len() as int)[part0.len() + j] == (part0
                                    + rest_concat)[part0.len() + j]);
                            }
                        }
                        lemma_round_trip_sections(
                            s,
                            ds.drop_first(),
                            names,
                            parts1,
                            frags1,
                            t,
                            pos + part0.len(),
                        );
                        let ds2 = scan_descs(parts, pos);
                        assert(ds2 == seq![part_desc(part0, pos)] + scan_descs(
                            parts.drop_first(),
                            pos + part0.len(),
                        ));
                        assert(scan_descs(parts.drop_first(), pos + part0.len()) == scan_descs(
                            parts1,
                            pos + part0.len(),
                        ));
                        assert(ds2[0] == part_desc(part0, pos));
                        assert(ds2.drop_first() =~= scan_descs(parts1, pos + part0.len()));
                        assert(section_slices(s, ds) =~= seq![s.subrange(d0.start, d0.end)]
                            + section_slices(s, ds.drop_first()));
                        if split_matches(s, d0, names) {
                            let m = split_record(s, d0);
                            assert(part0 == section_bytes(crate::EXTERNAL_SECTION_ID,
                                wire_bytes(m)));
                            lemma_matched_part(s, d0, names, t, pos);
                            let fm = FragModel {
                                digest: sha256_of(split_fragment_data(s, d0)),
                                data: split_fragment_data(s, d0),
                            };
                            assert(frags == seq![fm] + frags1);
                            let fd = frags_data(frags);
                            assert(fd[0] == split_fragment_data(s, d0));
                            assert(fd.drop_first() =~= frags_data(frags1));
                            assert(fd.len() > 0);
                            assert(fd[0].len() == m.external_size);
                            assert(splice_record_of(t, ds2[0]) == Ok::<
                                Option<RecordModel>,
                                SpliceError,
                            >(Some(m)));
                            assert(spec_splice_sections(t, ds2, fd) == Ok::<
                                (Seq<Seq<u8>>, Seq<Seq<u8>>),
                                SpliceError,
                            >(
                                (
                                    seq![splice_section_bytes(m, fd[0])] + section_slices(
                                        s,
                                        ds.drop_first(),
                                    ),
                                    Seq::<Seq<u8>>::empty(),
                                ),
                            ));
                            assert(splice_section_bytes(m, fd[0]) == s.subrange(d0.start, d0.end));
                            assert(seq![splice_section_bytes(m, fd[0])] + section_slices(
                                s,
                                ds.drop_first(),
                            ) =~= section_slices(s, ds));
                        } else {
                            assert(part0 == s.subrange(d0.start, d0.end));
                            lemma_unmatched_part(s, d0, names, t, pos);
                            assert(frags == frags1);
                            let fd = frags_data(frags);
                            assert(fd =~= frags_data(frags1));
                            assert(splice_record_of(t, ds2[0]) == Ok::<
                                Option<RecordModel>,
                                SpliceError,
                            >(None));
                            assert(t.subrange(ds2[0].start, ds2[0].end) == t.subrange(
                                pos,
                                pos + part0.len() as int,
                            ));
                            assert(spec_splice_sections(t, ds2, fd) == Ok::<
                                (Seq<Seq<u8>>, Seq<Seq<u8>>),
                                SpliceError,
                            >(
                                (
                                    seq![t.subrange(ds2[0].start, ds2[0].end)] + section_slices(
                                        s,
                                        ds.drop_first(),
                                    ),
                                    Seq::<Seq<u8>>::empty(),
                                ),
                            ));
                            assert(seq![t.subrange(ds2[0].start, ds2[0].end)] + section_slices(
                                s,
                                ds.drop_first(),
                            ) =~= section_slices(s, ds));
                        }
                    },
                }
            },
        }
    }
}

/// The digests of a list of fragments, in order.
pub open spec fn frags_digests(frags: Seq<FragModel>) -> Seq<Seq<u8>> {
    frags.map(|i: int, f: FragModel| f.digest)
}

/// Where a concatenation's head and tail sit in the buffer that holds it.
proof fn lemma_concat_head_layout(t: Seq<u8>, pos: int, part0: Seq<u8>, rest_concat: Seq<u8>)
    requires
        0 <= pos <= t.len(),
        t.subrange(pos, t.len() as int) == part0 + rest_concat,
    ensures
        pos + part0.len() <= t.len(),
        t.subrange(pos, pos + part0.len() as int) == part0,
        t.subrange(pos + part0.len(), t.len() as int) == rest_concat,
{
    assert(t.subrange(pos, t.len() as int).len() == part0.len() + rest_concat.len());
    assert(pos + part0.len() <= t.len());
    assert(t.subrange(pos, pos + part0.len() as int) =~= part0) by {
        assert forall|j: int| 0 <= j < part0.len() implies #[trigger] t.subrange(
            pos,
            pos + part0.len() as int,
        )[j] == part0[j] by {
            assert(t.subrange(pos, t.len() as int)[j] == (part0 + rest_concat)[j]);
            assert((part0 + rest_concat)[j] == part0[j]);
            assert(t.subrange(pos, t.len() as int)[j] == t[pos + j]);
            assert(t.subrange(pos, pos + part0.len() as int)[j] == t[pos + j]);
        }
    }
    assert(t.subrange(pos + part0.len(), t.len() as int) =~= rest_concat) by {
        assert forall|j: int| 0 <= j < rest_concat.len() implies #[trigger] t.subrange(
            pos + part0.len(),
            t.len() as int,
        )[j] == rest_concat[j] by {
            assert(t.subrange(pos, t.len() as int)[part0.len() + j] == (part0
                + rest_concat)[part0.len() + j]);
            assert((part0 + rest_concat)[part0.len() + j] == rest_concat[j]);
            assert(t.subrange(pos, t.len() as int)[part0.len() + j] == t[pos + part0.len() + j]);
            assert(t.subrange(pos + part0.len(), t.len() as int)[j] == t[pos + part0.len() + j]);
        }
    }
}

/// Reading the records of a split module's parts finds one record per
/// stored fragment, carrying that fragment's digest, in order.
#[verifier::rlimit(100)]
#[verifier::spinoff_prover]
proof fn lemma_records_of_parts(
    s: Seq<u8>,
    ds: Seq<DescModel>,
    names: Seq<Seq<u8>>,
    parts: Seq<Seq<u8>>,
    frags: Seq<FragModel>,
    t: Seq<u8>,
    pos: int,
)
    requires
        spec_split_sections(s, ds, names) == Ok::<(Seq<Seq<u8>>, Seq<FragModel>), SpliceError>(
            (parts, frags),
        ),
        forall|i: int| 0 <= i < ds.len() ==> desc_wf(s, #[trigger] ds[i]),
        forall|i: int| 0 <= i < ds.len() ==> (#[trigger] ds[i]).id != crate::EXTERNAL_SECTION_ID,
        forall|i: int| 0 <= i < ds.len() ==> matched_reversible(s, #[trigger] ds[i], names),
        0 <= pos <= t.len(),
        t.subrange(pos, t.len() as int) == concat_parts(parts),
    ensures
        spec_splice_records(t, scan_descs(parts, pos)) is Ok,
        spec_splice_records(t, scan_descs(parts, pos)).unwrap().len() == frags.len(),
        forall|i: int|
            0 <= i < frags.len() ==> spec_splice_records(t, scan_descs(parts, pos)).unwrap()[i]
                .digest_data == (#[trigger] frags[i]).digest,
    decreases ds.len(),
{
    lemma_split_sections_structure(s, ds, names, parts, frags);
    if ds.len() == 0 {
        assert(frags.len() == 0);
        assert(scan_descs(parts, pos) == Seq::<DescModel>::empty());
    } else {
        let d0 = ds[0];
        match split_head(s, d0, names) {
            Err(e) => {
                assert(false);
            },
            Ok((part0, fo)) => {
                match spec_split_sections(s, ds.drop_first(), names) {
                    Err(e) => {
                        assert(false);
                    },
                    Ok((parts1, frags1)) => {
                        assert(parts == seq![part0] + parts1);
                        assert(parts1 =~= parts.drop_first());
                        assert(parts[0] == part0);
                        assert forall|i: int| 0 <= i < ds.drop_first().len() implies desc_wf(
                            s,
                            #[trigger] ds.drop_first()[i],
                        ) && ds.drop_first()[i].id != crate::EXTERNAL_SECTION_ID
                            && matched_reversible(s, ds.drop_first()[i], names) by {
                            assert(ds.drop_first()[i] == ds[i + 1]);
                        }
                        let rest_concat = concat_parts(parts1);
                        assert(concat_parts(parts) == part0 + rest_concat);
                        lemma_concat_head_layout(t, pos, part0, rest_concat);
                        lemma_records_of_parts(
                            s,
                            ds.drop_first(),
                            names,
                            parts1,
                            frags1,
                            t,
                            pos + part0.len(),
                        );
                        let ds2 = scan_descs(parts, pos);
                        assert(ds2 == seq![part_desc(part0, pos)] + scan_descs(
                            parts.drop_first(),
                            pos + part0.len(),
                        ));
                        assert(scan_descs(parts.drop_first(), pos + part0.len()) == scan_descs(
                            parts1,
                            pos + part0.len(),
                        ));
                        assert(ds2[0] == part_desc(part0, pos));
                        assert(ds2.drop_first() =~= scan_descs(parts1, pos + part0.len()));
                        let rest_records = spec_splice_records(
                            t,
                            scan_descs(parts1, pos + part0.len()),
                        ).unwrap();
                        if split_matches(s, d0, names) {
                            let m = split_record(s, d0);
                            assert(part0 == section_bytes(crate::EXTERNAL_SECTION_ID,
                                wire_bytes(m)));
                            lemma_matched_part(s, d0, names, t, pos);
                            let fm = FragModel {
                                digest: sha256_of(split_fragment_data(s, d0)),
                                data: split_fragment_data(s, d0),
                            };
                            assert(frags == seq![fm] + frags1);
                            assert(splice_record_of(t, ds2[0]) == Ok::<
                                Option<RecordModel>,
                                SpliceError,
                            >(Some(m)));
                            assert(spec_splice_records(t, ds2) == Ok::<
                                Seq<RecordModel>,
                                SpliceError,
                            >(seq![m] + rest_records));
                            assert(m.digest_data == fm.digest);
                            assert forall|i: int|
                                0 <= i < frags.len() implies (seq![m] + rest_records)[i]
                                .digest_data == (#[trigger] frags[i]).digest by {
                                if i > 0 {
                                    assert(frags[i] == frags1[i - 1]);
                                    assert((seq![m] + rest_records)[i] == rest_records[i - 1]);
                                }
                            }
                        } else {
                            assert(part0 == s.subrange(d0.start, d0.end));
                            lemma_unmatched_part(s, d0, names, t, pos);
                            assert(frags == frags1);
                            assert(splice_record_of(t, ds2[0]) == Ok::<
                                Option<RecordModel>,
                                SpliceError,
                            >(None));
                            assert(spec_splice_records(t, ds2) == Ok::<
                                Seq<RecordModel>,
                                SpliceError,
                            >(rest_records));
                        }
                    },
                }
            },
        }
    }
}

/// Digest determinism across the two phases: asking a split module which
/// fragments it needs names exactly the digests split filed the fragments
/// under, in order.
#[verifier::rlimit(100)]
#[verifier::spinoff_prover]
pub proof fn lemma_split_splice_digests(
    s: Seq<u8>,
    names: Seq<Seq<u8>>,
    ds: Seq<DescModel>,
    parts: Seq<Seq<u8>>,
    frags: Seq<FragModel>,
)
    requires
        spec_module_parse(s) == Ok::<Seq<DescModel>, SpliceError>(ds),
        ds.len() > 0,
        spec_split_sections(s, ds, names) == Ok::<(Seq<Seq<u8>>, Seq<FragModel>), SpliceError>(
            (parts, frags),
        ),
        forall|i: int| 0 <= i < ds.len() ==> (#[trigger] ds[i]).id != crate::EXTERNAL_SECTION_ID,
        forall|i: int| 0 <= i < ds.len() ==> matched_reversible(s, #[trigger] ds[i], names),
    ensures
        spec_splice_digests(split_preamble(s) + concat_parts(parts)) == Ok::<
            Seq<Seq<u8>>,
            SpliceError,
        >(frags_digests(frags)),
{
    let m2 = split_preamble(s) + concat_parts(parts);
    let v = le_word(s.subrange(4, 8));
    crate::scanner::lemma_scan_props(s, 8, ds);
    lemma_split_sections_structure(s, ds, names, parts, frags);
    assert(split_preamble(s).len() == 8);
    assert(m2.subrange(8, m2.len() as int) =~= concat_parts(parts));
    assert forall|i: int| 0 <= i < parts.len() implies is_section_bytes(#[trigger] parts[i]) by {
        assert(desc_wf(s, ds[i]));
        assert(parts[i].subrange(0, parts[i].len() as int) =~= parts[i]);
        if split_matches(s, ds[i], names) {
            assert(parts[i] == section_bytes(crate::EXTERNAL_SECTION_ID, wire_bytes(split_record(
                s,
                ds[i],
            ))));
            lemma_matched_part(s, ds[i], names, parts[i], 0);
        } else {
            assert(parts[i] == s.subrange(ds[i].start, ds[i].end));
            lemma_unmatched_part(s, ds[i], names, parts[i], 0);
        }
    }
    lemma_scan_of_parts(m2, 8, parts);
    assert(parts.len() > 0);
    assert(concat_parts(parts) == parts[0] + concat_parts(parts.drop_first()));
    assert(is_section_bytes(parts[0]));
    assert(m2.len() > 8);
    assert(m2.subrange(0, 4) =~= s.subrange(0, 4));
    assert(spec_module_parse(m2) == Ok::<Seq<DescModel>, SpliceError>(scan_descs(parts, 8)));
    assert(m2.subrange(4, 8) =~= le_word_bytes(v | crate::EXTERNAL_SECTION_LAYER_BIT));
    lemma_le_word_round_trip(v | crate::EXTERNAL_SECTION_LAYER_BIT);
    assert((v | 0x00020000u32) & 0x00020000u32 != 0) by (bit_vector);
    assert(splice_flag_ok(m2));
    lemma_records_of_parts(s, ds, names, parts, frags, m2, 8);
    let rs = spec_splice_records(m2, scan_descs(parts, 8)).unwrap();
    assert(rs.map(|i: int, m: RecordModel| m.digest_data) =~= frags_digests(frags));
}

/// A corrupted fragment list stops splice at the first record whose
/// fragment changed length: the size mismatch is detected.
#[verifier::rlimit(100)]
#[verifier::spinoff_prover]
proof fn lemma_size_guard_sections(
    s: Seq<u8>,
    ds: Seq<DescModel>,
    names: Seq<Seq<u8>>,
    parts: Seq<Seq<u8>>,
    frags: Seq<FragModel>,
    t: Seq<u8>,
    pos: int,
    bad: Seq<Seq<u8>>,
    j: int,
)
    requires
        spec_split_sections(s, ds, names) == Ok::<(Seq<Seq<u8>>, Seq<FragModel>), SpliceError>(
            (parts, frags),
        ),
        forall|i: int| 0 <= i < ds.len() ==> desc_wf(s, #[trigger] ds[i]),
        forall|i: int| 0 <= i < ds.len() ==> (#[trigger] ds[i]).id != crate::EXTERNAL_SECTION_ID,
        forall|i: int| 0 <= i < ds.len() ==> matched_reversible(s, #[trigger] ds[i], names),
        0 <= pos <= t.len(),
        t.subrange(pos, t.len() as int) == concat_parts(parts),
        bad.len() == frags.len(),
        0 <= j < frags.len(),
        forall|i: int| 0 <= i < j ==> #[trigger] bad[i] == frags[i].data,
        bad[j].len() != frags[j].data.len(),
    ensures
        spec_splice_sections(t, scan_descs(parts, pos), bad) == Err::<
            (Seq<Seq<u8>>, Seq<Seq<u8>>),
            SpliceError,
        >(SpliceError::SizeMismatch),
    decreases ds.len(),
{
    lemma_split_sections_structure(s, ds, names, parts, frags);
    assert(ds.len() > 0);
    let d0 = ds[0];
    match split_head(s, d0, names) {
        Err(e) => {
            assert(false);
        },
        Ok((part0, fo)) => {
            match spec_split_sections(s, ds.drop_first(), names) {
                Err(e) => {
                    assert(false);
                },
                Ok((parts1, frags1)) => {
                    assert(parts == seq![part0] + parts1);
                    assert(parts1 =~= parts.drop_first());
                    assert(parts[0] == part0);
                    assert forall|i: int| 0 <= i < ds.drop_first().len() implies desc_wf(
                        s,
                        #[trigger] ds.drop_first()[i],
                    ) && ds.drop_first()[i].id != crate::EXTERNAL_SECTION_ID
                        && matched_reversible(s, ds.drop_first()[i], names) by {
                        assert(ds.drop_first()[i] == ds[i + 1]);
                    }
                    let rest_concat = concat_parts(parts1);
                    assert(concat_parts(parts) == part0 + rest_concat);
                    assert(pos + part0.len() <= t.len());
                    assert(t.subrange(pos, pos + part0.len() as int) =~= part0) by {
                        assert forall|jj: int|
                            0 <= jj < part0.len() implies t[pos + jj] == part0[jj] by {
                            assert(t.subrange(pos, t.len() as int)[jj] == (part0
                                + rest_concat)[jj]);
                        }
                    }
                    assert(t.subrange(pos + part0.len(), t.len() as int) =~= rest_concat) by {
                        assert forall|jj: int|
                            0 <= jj < rest_concat.len() implies t[pos + part0.len() + jj]
                            == rest_concat[jj] by {
                            assert(t.subrange(pos, t.len() as int)[part0.len() + jj] == (part0
                                + rest_concat)[part0.len() + jj]);
                        }
                    }
                    let ds2 = scan_descs(parts, pos);
                    assert(ds2 == seq![part_desc(part0, pos)] + scan_descs(
                        parts.drop_first(),
                        pos + part0.len(),
                    ));
                    assert(scan_descs(parts.drop_first(), pos + part0.len()) == scan_descs(
                        parts1,
                        pos + part0.len(),
                    ));
                    assert(ds2[0] == part_desc(part0, pos));
                    assert(ds2.drop_first() =~= scan_descs(parts1, pos + part0.len()));
                    if split_matches(s, d0, names) {
                        let m = split_record(s, d0);
                        assert(part0 == section_bytes(crate::EXTERNAL_SECTION_ID, wire_bytes(m)));
                        lemma_matched_part(s, d0, names, t, pos);
                        let fm = FragModel {
                            digest: sha256_of(split_fragment_data(s, d0)),
                            data: split_fragment_data(s, d0),
                        };
                        assert(frags == seq![fm] + frags1);
                        assert(splice_record_of(t, ds2[0]) == Ok::<
                            Option<RecordModel>,
                            SpliceError,
                        >(Some(m)));
                        assert(bad.len() > 0);
                        if j == 0 {
                            assert(bad[0].len() != fm.data.len());
                            assert(fm.data.len() == m.external_size);
                            assert(spec_splice_sections(t, ds2, bad) == Err::<
                                (Seq<Seq<u8>>, Seq<Seq<u8>>),
                                SpliceError,
                            >(SpliceError::SizeMismatch));
                        } else {
                            assert(bad[0] == frags[0].data);
                            assert(frags[0] == fm);
                            assert(bad[0].len() == m.external_size);
                            assert forall|i: int|
                                0 <= i < j - 1 implies #[trigger] bad.drop_first()[i]
                                == frags1[i].data by {
                                assert(bad.drop_first()[i] == bad[i + 1]);
                                assert(frags1[i] == frags[i + 1]);
                            }
                            assert(bad.drop_first()[j - 1] == bad[j]);
                            assert(frags1[j - 1] == frags[j]);
                            lemma_size_guard_sections(
                                s,
                                ds.drop_first(),
                                names,
                                parts1,
                                frags1,
                                t,
                                pos + part0.len(),
                                bad.drop_first(),
                                j - 1,
                            );
                            assert(spec_splice_sections(t, ds2, bad) == Err::<
                                (Seq<Seq<u8>>, Seq<Seq<u8>>),
                                SpliceError,
                            >(SpliceError::SizeMismatch));
                        }
                    } else {
                        assert(part0 == s.subrange(d0.start, d0.end));
                        lemma_unmatched_part(s, d0, names, t, pos);
                        assert(frags == frags1);
                        assert(splice_record_of(t, ds2[0]) == Ok::<
                            Option<RecordModel>,
                            SpliceError,
                        >(None));
                        lemma_size_guard_sections(
                            s,
                            ds.drop_first(),
                            names,
                            parts1,
                            frags1,
                            t,
                            pos + part0.len(),
                            bad,
                            j,
                        );
                        assert(spec_splice_sections(t, ds2, bad) == Err::<
                            (Seq<Seq<u8>>, Seq<Seq<u8>>),
                            SpliceError,
                        >(SpliceError::SizeMismatch));
                    }
                },
            }
        },
    }
}

/// Size guard: when any one fragment of a split module changes length
/// between split and splice, splice fails with a size mismatch rather
/// than write a malformed module.
#[verifier::rlimit(100)]
#[verifier::spinoff_prover]
pub proof fn lemma_splice_size_guard(
    s: Seq<u8>,
    names: Seq<Seq<u8>>,
    ds: Seq<DescModel>,
    parts: Seq<Seq<u8>>,
    frags: Seq<FragModel>,
    bad: Seq<Seq<u8>>,
    j: int,
)
    requires
        spec_module_parse(s) == Ok::<Seq<DescModel>, SpliceError>(ds),
        ds.len() > 0,
        spec_split_sections(s, ds, names) == Ok::<(Seq<Seq<u8>>, Seq<FragModel>), SpliceError>(
            (parts, frags),
        ),
        forall|i: int| 0 <= i < ds.len() ==> (#[trigger] ds[i]).id != crate::EXTERNAL_SECTION_ID,
        forall|i: int| 0 <= i < ds.len() ==> matched_reversible(s, #[trigger] ds[i], names),
        bad.len() == frags.len(),
        0 <= j < frags.len(),
        forall|i: int| 0 <= i < j ==> #[trigger] bad[i] == frags[i].data,
        bad[j].len() != frags[j].data.len(),
    ensures
        spec_splice(split_preamble(s) + concat_parts(parts), bad) == Err::<Seq<u8>, SpliceError>(
            SpliceError::SizeMismatch,
        ),
{
    let m2 = split_preamble(s) + concat_parts(parts);
    let v = le_word(s.subrange(4, 8));
    crate::scanner::lemma_scan_props(s, 8, ds);
    lemma_split_sections_structure(s, ds, names, parts, frags);
    assert(split_preamble(s).len() == 8);
    assert(m2.subrange(8, m2.len() as int) =~= concat_parts(parts));
    assert forall|i: int| 0 <= i < parts.len() implies is_section_bytes(#[trigger] parts[i]) by {
        assert(desc_wf(s, ds[i]));
        assert(parts[i].subrange(0, parts[i].len() as int) =~= parts[i]);
        if split_matches(s, ds[i], names) {
            assert(parts[i] == section_bytes(crate::EXTERNAL_SECTION_ID, wire_bytes(split_record(
                s,
                ds[i],
            ))));
            lemma_matched_part(s, ds[i], names, parts[i], 0);
        } else {
            assert(parts[i] == s.subrange(ds[i].start, ds[i].end));
            lemma_unmatched_part(s, ds[i], names, parts[i], 0);
        }
    }
    lemma_scan_of_parts(m2, 8, parts);
    assert(parts.len() > 0);
    assert(concat_parts(parts) == parts[0] + concat_parts(parts.drop_first()));
    assert(is_section_bytes(parts[0]));
    assert(m2.len() > 8);
    assert(m2.subrange(0, 4) =~= s.subrange(0, 4));
    assert(spec_module_parse(m2) == Ok::<Seq<DescModel>, SpliceError>(scan_descs(parts, 8)));
    assert(m2.subrange(4, 8) =~= le_word_bytes(v | crate::EXTERNAL_SECTION_LAYER_BIT));
    lemma_le_word_round_trip(v | crate::EXTERNAL_SECTION_LAYER_BIT);
    assert((v | 0x00020000u32) & 0x00020000u32 != 0) by (bit_vector);
    assert(splice_flag_ok(m2));
    lemma_size_guard_sections(s, ds, names, parts, frags, m2, 8, bad, j);
}

/// Round trip: splicing a split module against the fragments that split
/// stored, in order, writes the original module back byte for byte. This
/// holds of modules whose preamble layer flag starts unset, that hold at
/// least one section and no section under the reserved external tag, and
/// whose matched sections split reversibly (see `matched_reversible`).
#[verifier::rlimit(100)]
#[verifier::spinoff_prover]
pub proof fn lemma_split_splice_round_trip(
    s: Seq<u8>,
    names: Seq<Seq<u8>>,
    ds: Seq<DescModel>,
    parts: Seq<Seq<u8>>,
    frags: Seq<FragModel>,
)
    requires
        spec_module_parse(s) == Ok::<Seq<DescModel>, SpliceError>(ds),
        ds.len() > 0,
        spec_split_sections(s, ds, names) == Ok::<(Seq<Seq<u8>>, Seq<FragModel>), SpliceError>(
            (parts, frags),
        ),
        le_word(s.subrange(4, 8)) & crate::EXTERNAL_SECTION_LAYER_BIT == 0,
        forall|i: int| 0 <= i < ds.len() ==> (#[trigger] ds[i]).id != crate::EXTERNAL_SECTION_ID,
        forall|i: int| 0 <= i < ds.len() ==> matched_reversible(s, #[trigger] ds[i], names),
    ensures
        spec_split(s, names) == Ok::<(Seq<u8>, Seq<FragModel>), SpliceError>(
            (split_preamble(s) + concat_parts(parts), frags),
        ),
        spec_splice(split_preamble(s) + concat_parts(parts), frags_data(frags)) == Ok::<
            Seq<u8>,
            SpliceError,
        >(s),
{
    let m2 = split_preamble(s) + concat_parts(parts);
    let v = le_word(s.subrange(4, 8));
    crate::scanner::lemma_scan_props(s, 8, ds);
    lemma_split_sections_structure(s, ds, names, parts, frags);
    assert(split_preamble(s).len() == 8);
    assert(m2.subrange(8, m2.len() as int) =~= concat_parts(parts));

    // Every part is one serialized section.
    assert forall|i: int| 0 <= i < parts.len() implies is_section_bytes(#[trigger] parts[i]) by {
        assert(desc_wf(s, ds[i]));
        assert(parts[i].subrange(0, parts[i].len() as int) =~= parts[i]);
        if split_matches(s, ds[i], names) {
            assert(parts[i] == section_bytes(crate::EXTERNAL_SECTION_ID, wire_bytes(split_record(
                s,
                ds[i],
            ))));
            lemma_matched_part(s, ds[i], names, parts[i], 0);
        } else {
            assert(parts[i] == s.subrange(ds[i].start, ds[i].end));
            lemma_unmatched_part(s, ds[i], names, parts[i], 0);
        }
    }
    lemma_scan_of_parts(m2, 8, parts);

    // The split module parses, with the flag set.
    assert(parts.len() > 0);
    assert(concat_parts(parts) == parts[0] + concat_parts(parts.drop_first()));
    assert(is_section_bytes(parts[0]));
    assert(m2.len() > 8);
    assert(m2.subrange(0, 4) =~= s.subrange(0, 4));
    assert(spec_module_parse(m2) == Ok::<Seq<DescModel>, SpliceError>(scan_descs(parts, 8)));
    assert(m2.subrange(4, 8) =~= le_word_bytes(v | crate::EXTERNAL_SECTION_LAYER_BIT));
    lemma_le_word_round_trip(v | crate::EXTERNAL_SECTION_LAYER_BIT);
    assert(le_word(m2.subrange(4, 8)) == (v | crate::EXTERNAL_SECTION_LAYER_BIT));
    assert((v | 0x00020000u32) & 0x00020000u32 != 0) by (bit_vector);
    assert(splice_flag_ok(m2));

    // Every section splices back to the section it came from.
    lemma_round_trip_sections(s, ds, names, parts, frags, m2, 8);

    // The preamble comes back too: clearing the freshly set flag restores
    // the original version word.
    assert(((v | 0x00020000u32) & !0x00020000u32) == v) by (bit_vector)
        requires
            v & 0x00020000u32 == 0,
    ;
    lemma_le_bytes_round_trip(s.subrange(4, 8));
    assert(le_word_bytes(v) == s.subrange(4, 8));
    assert(splice_preamble(m2) =~= s.subrange(0, 8));

    // Reassemble.
    lemma_scan_reassemble(s, 8, ds);
    assert(concat_parts(section_slices(s, ds)) == s.subrange(8, s.len() as int));
    assert(spec_splice(m2, frags_data(frags)) == Ok::<Seq<u8>, SpliceError>(
        splice_preamble(m2) + concat_parts(section_slices(s, ds)),
    ));
    assert(splice_preamble(m2) + concat_parts(section_slices(s, ds)) =~= s);
}

/// Non-interference: a section that split does not match is byte-identical
/// between the input module and the split module, in the same relative
/// order; only its offset shifts.
pub proof fn lemma_split_non_interference(
    s: Seq<u8>,
    names: Seq<Seq<u8>>,
    ds: Seq<DescModel>,
    parts: Seq<Seq<u8>>,
    frags: Seq<FragModel>,
    i: int,
)
    requires
        spec_module_parse(s) == Ok::<Seq<DescModel>, SpliceError>(ds),
        spec_split_sections(s, ds, names) == Ok::<(Seq<Seq<u8>>, Seq<FragModel>), SpliceError>(
            (parts, frags),
        ),
        0 <= i < ds.len(),
        !split_matches(s, ds[i], names),
    ensures
        spec_split(s, names) == Ok::<(Seq<u8>, Seq<FragModel>), SpliceError>(
            (split_preamble(s) + concat_parts(parts), frags),
        ),
        ({
            let out = split_preamble(s) + concat_parts(parts);
            let off = 8 + parts_offset(parts, i);
            &&& 8 <= off
            &&& off + (ds[i].end - ds[i].start) <= out.len()
            &&& out.subrange(off, off + (ds[i].end - ds[i].start)) == s.subrange(
                ds[i].start,
                ds[i].end,
            )
        }),
{
    crate::scanner::lemma_scan_props(s, 8, ds);
    assert(crate::scanner::desc_wf(s, ds[i]));
    lemma_split_sections_structure(s, ds, names, parts, frags);
    assert(split_head(s, ds[i], names) is Ok);
    assert(parts[i] == s.subrange(ds[i].start, ds[i].end));
    lemma_concat_parts_slice(parts, i);
    let out = split_preamble(s) + concat_parts(parts);
    let off = 8 + parts_offset(parts, i);
    assert(split_preamble(s).len() == 8);
    assert(out.subrange(off, off + parts[i].len() as int) =~= concat_parts(parts).subrange(
        parts_offset(parts, i),
        parts_offset(parts, i) + parts[i].len() as int,
    ));
}

} // verus!
