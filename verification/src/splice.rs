//! Splice: resolve external-section records back into the sections they
//! stand for, using fragments fetched from the store.

use vstd::prelude::*;

use crate::codec::{section_bytes, spec_decode_record, ExternalSection, RecordModel};
use crate::error::SpliceError;
use crate::scanner::{
    action_bytes, descs_cover, descs_view, desc_wf, le_word, le_word_bytes, lemma_scan_covers,
    lemma_scan_props, parse_sections, push_le_word, read_version_word, spec_module_parse,
    transform_sections, DescModel, SectionAction, SectionDesc,
};
use crate::split::{concat_parts, custom_name_item, read_custom_name, sha256_name, sha256_name_vec};
use crate::varint::{bytes_eq, encode_leb_u64, leb_bytes, leb_item, lp_item, push_range};

verus! {

/// Splice's check of one section: the record it holds, if it is an
/// external section; an error for a corrupt record, an unsupported digest
/// algorithm, an empty digest, or a malformed custom name.
pub open spec fn splice_record_of(s: Seq<u8>, d: DescModel) -> Result<
    Option<RecordModel>,
    SpliceError,
> {
    if d.id == crate::EXTERNAL_SECTION_ID {
        match spec_decode_record(s.subrange(d.payload_start, d.end)) {
            Err(e) => Err(e),
            Ok(m) => if m.digest_algo != sha256_name() {
                Err(SpliceError::UnsupportedDigestAlgo)
            } else if m.digest_data.len() == 0 {
                Err(SpliceError::EmptyDigest)
            } else {
                Ok(Some(m))
            },
        }
    } else if d.id == crate::CUSTOM_SECTION_ID {
        match custom_name_item(s, d) {
            None => Err(SpliceError::MalformedCustomName),
            Some(_) => Ok(None),
        }
    } else {
        Ok(None)
    }
}

/// The records of all external sections, in order, or the first error met.
pub open spec fn spec_splice_records(s: Seq<u8>, ds: Seq<DescModel>) -> Result<
    Seq<RecordModel>,
    SpliceError,
>
    decreases ds.len(),
{
    if ds.len() == 0 {
        Ok(Seq::empty())
    } else {
        match splice_record_of(s, ds[0]) {
            Err(e) => Err(e),
            Ok(ro) => match spec_splice_records(s, ds.drop_first()) {
                Err(e) => Err(e),
                Ok(rest) => Ok(
                    match ro {
                        Some(m) => seq![m] + rest,
                        None => rest,
                    },
                ),
            },
        }
    }
}

/// The preamble layer flag is set: the module announces external sections.
pub open spec fn splice_flag_ok(s: Seq<u8>) -> bool {
    le_word(s.subrange(4, 8)) & crate::EXTERNAL_SECTION_LAYER_BIT != 0
}

/// The digests phase of splice: check the flag, parse, and name the digest
/// of every record, in section order, so the caller can fetch each
/// fragment from the store.
pub open spec fn spec_splice_digests(s: Seq<u8>) -> Result<Seq<Seq<u8>>, SpliceError> {
    if s.len() <= 8 {
        Err(SpliceError::InputTooSmall)
    } else if !splice_flag_ok(s) {
        Err(SpliceError::LayerFlagMissing)
    } else {
        match spec_module_parse(s) {
            Err(e) => Err(e),
            Ok(ds) => match spec_splice_records(s, ds) {
                Err(e) => Err(e),
                Ok(rs) => Ok(rs.map(|i: int, m: RecordModel| m.digest_data)),
            },
        }
    }
}

/// The section splice writes for a record: a fresh header carrying the
/// original section id, then the prefix, then the fragment.
pub open spec fn splice_section_bytes(m: RecordModel, frag: Seq<u8>) -> Seq<u8> {
    section_bytes(m.external_section_id, m.prefix + frag)
}

/// Splice's treatment of a run of sections, consuming fragments in order:
/// the bytes each section contributes and the fragments left over, or the
/// first error met. A fragment whose length differs from the record's
/// external size is refused.
pub open spec fn spec_splice_sections(
    s: Seq<u8>,
    ds: Seq<DescModel>,
    frags: Seq<Seq<u8>>,
) -> Result<(Seq<Seq<u8>>, Seq<Seq<u8>>), SpliceError>
    decreases ds.len(),
{
    if ds.len() == 0 {
        Ok((Seq::empty(), frags))
    } else {
        match splice_record_of(s, ds[0]) {
            Err(e) => Err(e),
            Ok(ro) => match ro {
                None => match spec_splice_sections(s, ds.drop_first(), frags) {
                    Err(e) => Err(e),
                    Ok((parts, rem)) => Ok(
                        (seq![s.subrange(ds[0].start, ds[0].end)] + parts, rem),
                    ),
                },
                Some(m) => if frags.len() == 0 {
                    Err(SpliceError::FragmentCountMismatch)
                } else if frags[0].len() != m.external_size {
                    Err(SpliceError::SizeMismatch)
                } else {
                    match spec_splice_sections(s, ds.drop_first(), frags.drop_first()) {
                        Err(e) => Err(e),
                        Ok((parts, rem)) => Ok(
                            (seq![splice_section_bytes(m, frags[0])] + parts, rem),
                        ),
                    }
                },
            },
        }
    }
}

/// The written-back preamble: the magic, then the version word with the
/// layer flag cleared.
pub open spec fn splice_preamble(s: Seq<u8>) -> Seq<u8> {
    s.subrange(0, 4) + le_word_bytes(
        le_word(s.subrange(4, 8)) & !crate::EXTERNAL_SECTION_LAYER_BIT,
    )
}

/// The splice of a whole module against the fragments fetched for its
/// records, in order: the reconstructed module bytes, or the first error
/// met. Every fragment must be used exactly once.
pub open spec fn spec_splice(s: Seq<u8>, frags: Seq<Seq<u8>>) -> Result<Seq<u8>, SpliceError> {
    if s.len() <= 8 {
        Err(SpliceError::InputTooSmall)
    } else if !splice_flag_ok(s) {
        Err(SpliceError::LayerFlagMissing)
    } else {
        match spec_module_parse(s) {
            Err(e) => Err(e),
            Ok(ds) => match spec_splice_sections(s, ds, frags) {
                Err(e) => Err(e),
                Ok((parts, rem)) => if rem.len() != 0 {
                    Err(SpliceError::FragmentCountMismatch)
                } else {
                    Ok(splice_preamble(s) + concat_parts(parts))
                },
            },
        }
    }
}

/// Unrolling `spec_splice_records` one section at a time.
proof fn lemma_splice_records_step(s: Seq<u8>, ds: Seq<DescModel>, i: int)
    requires
        0 <= i < ds.len(),
    ensures
        spec_splice_records(s, ds.skip(i)) == (match splice_record_of(s, ds[i]) {
            Err(e) => Err::<Seq<RecordModel>, SpliceError>(e),
            Ok(ro) => match spec_splice_records(s, ds.skip(i + 1)) {
                Err(e) => Err(e),
                Ok(rest) => Ok(
                    match ro {
                        Some(m) => seq![m] + rest,
                        None => rest,
                    },
                ),
            },
        }),
{
    assert(ds.skip(i)[0] == ds[i]);
    assert(ds.skip(i).drop_first() =~= ds.skip(i + 1));
}

/// Unrolling `spec_splice_sections` one section at a time.
proof fn lemma_splice_sections_step(
    s: Seq<u8>,
    ds: Seq<DescModel>,
    frags: Seq<Seq<u8>>,
    i: int,
    k: int,
)
    requires
        0 <= i < ds.len(),
        0 <= k <= frags.len(),
    ensures
        spec_splice_sections(s, ds.skip(i), frags.skip(k)) == (match splice_record_of(s, ds[i]) {
            Err(e) => Err::<(Seq<Seq<u8>>, Seq<Seq<u8>>), SpliceError>(e),
            Ok(ro) => match ro {
                None => match spec_splice_sections(s, ds.skip(i + 1), frags.skip(k)) {
                    Err(e) => Err(e),
                    Ok((parts, rem)) => Ok(
                        (seq![s.subrange(ds[i].start, ds[i].end)] + parts, rem),
                    ),
                },
                Some(m) => if k == frags.len() {
                    Err(SpliceError::FragmentCountMismatch)
                } else if frags[k].len() != m.external_size {
                    Err(SpliceError::SizeMismatch)
                } else {
                    match spec_splice_sections(s, ds.skip(i + 1), frags.skip(k + 1)) {
                        Err(e) => Err(e),
                        Ok((parts, rem)) => Ok(
                            (seq![splice_section_bytes(m, frags[k])] + parts, rem),
                        ),
                    }
                },
            },
        }),
{
    assert(ds.skip(i)[0] == ds[i]);
    assert(ds.skip(i).drop_first() =~= ds.skip(i + 1));
    assert(frags.skip(k).len() == frags.len() - k);
    if k < frags.len() {
        assert(frags.skip(k)[0] == frags[k]);
        assert(frags.skip(k).drop_first() =~= frags.skip(k + 1));
    }
}

/// Splicing a module whose layer flag is unset fails with the missing-flag
/// error, whatever bytes follow the preamble: the flag is tested before
/// any section is parsed.
pub proof fn lemma_flag_precondition(s: Seq<u8>, frags: Seq<Seq<u8>>)
    requires
        s.len() > 8,
        !splice_flag_ok(s),
    ensures
        spec_splice(s, frags) == Err::<Seq<u8>, SpliceError>(SpliceError::LayerFlagMissing),
        spec_splice_digests(s) == Err::<Seq<Seq<u8>>, SpliceError>(SpliceError::LayerFlagMissing),
{
}

/// Checks one section for splice, exactly as `splice_record_of` describes:
/// hands back the record of an external section after checking its digest
/// algorithm and digest.
fn splice_check_one(input: &[u8], d: &SectionDesc) -> (r: Result<
    Option<ExternalSection>,
    SpliceError,
>)
    requires
        desc_wf(input@, d@),
    ensures
        match r {
            Ok(Some(rec)) => {
                &&& splice_record_of(input@, d@) == Ok::<Option<RecordModel>, SpliceError>(
                    Some(rec@),
                )
                &&& rec@.prefix.len() < 0x100000000
            },
            Ok(None) => splice_record_of(input@, d@) == Ok::<Option<RecordModel>, SpliceError>(
                None,
            ),
            Err(e) => splice_record_of(input@, d@) == Err::<Option<RecordModel>, SpliceError>(e),
        },
{
    let ghost s = input@;
    if d.id == crate::EXTERNAL_SECTION_ID {
        let payload = vstd::slice::slice_subrange(input, d.payload_start, d.end);
        match ExternalSection::from_bytes(payload) {
            Err(e) => Err(e),
            Ok(rec) => {
                let algo_name = sha256_name_vec();
                if !bytes_eq(rec.digest_algo.as_slice(), algo_name.as_slice()) {
                    return Err(SpliceError::UnsupportedDigestAlgo);
                }
                if rec.digest_data.len() == 0 {
                    return Err(SpliceError::EmptyDigest);
                }
                proof {
                    let pb = payload@;
                    assert(spec_decode_record(pb) == Ok::<RecordModel, SpliceError>(rec@));
                    assert(pb.len() >= 1);
                    match lp_item(pb, 1) {
                        None => {
                            assert(false);
                        },
                        Some((prefix, p1)) => {
                            assert(prefix.len() < 0x100000000) by {
                                crate::varint::lemma_leb_item_bounds(pb, 1);
                                match leb_item(pb, 1) {
                                    None => {
                                        assert(false);
                                    },
                                    Some((nn, e)) => {
                                        if e + nn as int > pb.len() {
                                            assert(lp_item(pb, 1) is None);
                                            assert(false);
                                        } else {
                                            assert(prefix == pb.subrange(e, e + nn as int));
                                        }
                                    },
                                }
                            }
                            match leb_item(pb, p1) {
                                None => {
                                    assert(false);
                                },
                                Some((size, p2)) => {
                                    match lp_item(pb, p2) {
                                        None => {
                                            assert(false);
                                        },
                                        Some((algo, p3)) => {
                                            match lp_item(pb, p3) {
                                                None => {
                                                    assert(false);
                                                },
                                                Some((dig, p4)) => {
                                                    assert(p4 == pb.len());
                                                    assert(rec@.prefix == prefix);
                                                },
                                            }
                                        },
                                    }
                                },
                            }
                        },
                    }
                }
                Ok(Some(rec))
            },
        }
    } else if d.id == crate::CUSTOM_SECTION_ID {
        match read_custom_name(input, d) {
            None => Err(SpliceError::MalformedCustomName),
            Some(_) => Ok(None),
        }
    } else {
        Ok(None)
    }
}

/// The digests phase of splice: checks the layer flag, parses the module,
/// and returns the digest of every external-section record in section
/// order, so the caller can fetch the fragments from the store. Returns
/// exactly what `spec_splice_digests` describes.
#[verifier::rlimit(60)]
pub fn splice_requests(input: &[u8]) -> (r: Result<Vec<Vec<u8>>, SpliceError>)
    ensures
        match r {
            Ok(ds) => spec_splice_digests(input@) == Ok::<Seq<Seq<u8>>, SpliceError>(
                ds.deep_view(),
            ),
            Err(e) => spec_splice_digests(input@) == Err::<Seq<Seq<u8>>, SpliceError>(e),
        },
{
    let ghost s = input@;
    if input.len() <= 8 {
        return Err(SpliceError::InputTooSmall);
    }
    let version = read_version_word(input);
    if version & crate::EXTERNAL_SECTION_LAYER_BIT == 0 {
        return Err(SpliceError::LayerFlagMissing);
    }
    let descs = match parse_sections(input) {
        Err(e) => {
            return Err(e);
        },
        Ok(ds) => ds,
    };
    let ghost dv = descs_view(descs@);
    proof {
        lemma_scan_props(s, 8, dv);
        lemma_scan_covers(s, dv);
        assert(dv.skip(0) =~= dv);
        match spec_splice_records(s, dv) {
            Err(e) => {},
            Ok(rest) => {
                assert(Seq::<RecordModel>::empty() + rest =~= rest);
            },
        }
    }
    let n = descs.len();
    let mut digests: Vec<Vec<u8>> = Vec::new();
    let ghost mut recs: Seq<RecordModel> = Seq::empty();
    let mut i: usize = 0;
    while i < n
        invariant
            i <= n,
            n == descs@.len(),
            s == input@,
            s.len() > 8,
            splice_flag_ok(s),
            dv == descs_view(descs@),
            spec_module_parse(s) == Ok::<Seq<DescModel>, SpliceError>(dv),
            forall|j: int| 0 <= j < dv.len() ==> desc_wf(s, #[trigger] dv[j]),
            digests@.len() == recs.len(),
            forall|j: int| 0 <= j < recs.len() ==> digests@[j]@ == (#[trigger] recs[j]).digest_data,
            spec_splice_records(s, dv) == (match spec_splice_records(s, dv.skip(i as int)) {
                Err(e) => Err::<Seq<RecordModel>, SpliceError>(e),
                Ok(rest) => Ok(recs + rest),
            }),
        decreases n - i,
    {
        let d = descs[i];
        proof {
            assert(dv[i as int] == descs@[i as int]@);
            assert(desc_wf(s, dv[i as int]));
            lemma_splice_records_step(s, dv, i as int);
        }
        let ghost pre_recs = recs;
        let ghost pre_digests = digests@;
        match splice_check_one(input, &d) {
            Err(e) => {
                return Err(e);
            },
            Ok(None) => {},
            Ok(Some(rec)) => {
                proof {
                    recs = recs.push(rec@);
                }
                digests.push(rec.digest_data);
            },
        }
        proof {
            match spec_splice_records(s, dv.skip(i + 1)) {
                Err(e) => {},
                Ok(rest) => {
                    if recs.len() > pre_recs.len() {
                        assert(pre_recs + (seq![recs.last()] + rest) =~= recs + rest);
                    }
                },
            }
        }
        i = i + 1;
    }
    proof {
        assert(dv.skip(n as int).len() == 0);
        assert(spec_splice_records(s, dv.skip(n as int)) == Ok::<Seq<RecordModel>, SpliceError>(
            Seq::empty(),
        ));
        assert(recs + Seq::<RecordModel>::empty() =~= recs);
        assert forall|j: int| 0 <= j < digests@.len() implies digests.deep_view()[j] == digests@[j]@
            by {
            assert(digests.deep_view()[j] =~= digests@[j]@);
        }
        assert(digests.deep_view() =~= recs.map(|j: int, m: RecordModel| m.digest_data));
    }
    Ok(digests)
}

/// Splices a module against the fragments fetched for its records, in
/// order: every external section is replaced by the section it stands for,
/// the preamble's layer flag is cleared, and everything else is copied
/// verbatim. Returns exactly what `spec_splice` describes; in particular a
/// fragment whose length differs from its record's external size is
/// refused with a size mismatch.
#[verifier::rlimit(60)]
pub fn splice_module(input: &[u8], fragments: &Vec<Vec<u8>>) -> (r: Result<Vec<u8>, SpliceError>)
    ensures
        match r {
            Ok(out) => spec_splice(input@, fragments.deep_view()) == Ok::<Seq<u8>, SpliceError>(
                out@,
            ),
            Err(e) => spec_splice(input@, fragments.deep_view()) == Err::<Seq<u8>, SpliceError>(e),
        },
{
    let ghost s = input@;
    let ghost fv = fragments.deep_view();
    if input.len() <= 8 {
        return Err(SpliceError::InputTooSmall);
    }
    let version = read_version_word(input);
    if version & crate::EXTERNAL_SECTION_LAYER_BIT == 0 {
        return Err(SpliceError::LayerFlagMissing);
    }
    let descs = match parse_sections(input) {
        Err(e) => {
            return Err(e);
        },
        Ok(ds) => ds,
    };
    let ghost dv = descs_view(descs@);
    proof {
        lemma_scan_props(s, 8, dv);
        lemma_scan_covers(s, dv);
        assert(dv.skip(0) =~= dv);
        assert(fv.skip(0) =~= fv);
        match spec_splice_sections(s, dv, fv) {
            Err(e) => {},
            Ok((parts, rem)) => {
                assert(Seq::<Seq<u8>>::empty() + parts =~= parts);
            },
        }
    }
    let n = descs.len();
    let mut actions: Vec<SectionAction> = Vec::new();
    let ghost mut done: Seq<Seq<u8>> = Seq::empty();
    let mut k: usize = 0;
    let mut i: usize = 0;
    while i < n
        invariant
            i <= n,
            n == descs@.len(),
            k <= fragments@.len(),
            k <= fv.len(),
            s == input@,
            s.len() > 8,
            splice_flag_ok(s),
            fv == fragments.deep_view(),
            dv == descs_view(descs@),
            spec_module_parse(s) == Ok::<Seq<DescModel>, SpliceError>(dv),
            descs_cover(s, dv),
            forall|j: int| 0 <= j < dv.len() ==> desc_wf(s, #[trigger] dv[j]),
            actions@.len() == i,
            done.len() == i,
            forall|j: int|
                0 <= j < i ==> action_bytes(s, dv[j], #[trigger] actions@[j]) == done[j],
            spec_splice_sections(s, dv, fv) == (match spec_splice_sections(
                s,
                dv.skip(i as int),
                fv.skip(k as int),
            ) {
                Err(e) => Err::<(Seq<Seq<u8>>, Seq<Seq<u8>>), SpliceError>(e),
                Ok((parts, rem)) => Ok((done + parts, rem)),
            }),
        decreases n - i,
    {
        let d = descs[i];
        proof {
            assert(dv[i as int] == descs@[i as int]@);
            assert(desc_wf(s, dv[i as int]));
            lemma_splice_sections_step(s, dv, fv, i as int, k as int);
        }
        let ghost pre_done = done;
        let ghost pre_actions = actions@;
        match splice_check_one(input, &d) {
            Err(e) => {
                return Err(e);
            },
            Ok(None) => {
                proof {
                    done = done.push(s.subrange(dv[i as int].start, dv[i as int].end));
                }
                actions.push(SectionAction::Keep);
                proof {
                    match spec_splice_sections(s, dv.skip(i + 1), fv.skip(k as int)) {
                        Err(e) => {},
                        Ok((parts, rem)) => {
                            assert(pre_done + (seq![done.last()] + parts) =~= done + parts);
                        },
                    }
                }
            },
            Ok(Some(rec)) => {
                if k == fragments.len() {
                    return Err(SpliceError::FragmentCountMismatch);
                }
                let frag = &fragments[k];
                proof {
                    assert(fv[k as int] == fragments@[k as int]@);
                }
                if frag.len() != rec.external_size as usize {
                    return Err(SpliceError::SizeMismatch);
                }
                let mut repl: Vec<u8> = Vec::new();
                repl.push(rec.external_section_id);
                let total: u64 = rec.prefix.len() as u64 + frag.len() as u64;
                encode_leb_u64(&mut repl, total);
                push_range(&mut repl, rec.prefix.as_slice(), 0, rec.prefix.len());
                push_range(&mut repl, frag.as_slice(), 0, frag.len());
                proof {
                    let m = rec@;
                    let fb = fv[k as int];
                    assert((m.prefix + fb).len() == total as nat);
                    assert(repl@ =~= seq![m.external_section_id] + leb_bytes((m.prefix
                        + fb).len()) + (m.prefix + fb));
                    assert(repl@ =~= splice_section_bytes(m, fb));
                    done = done.push(repl@);
                }
                actions.push(SectionAction::Replace(repl));
                k = k + 1;
                proof {
                    match spec_splice_sections(s, dv.skip(i + 1), fv.skip(k as int)) {
                        Err(e) => {},
                        Ok((parts, rem)) => {
                            assert(pre_done + (seq![done.last()] + parts) =~= done + parts);
                        },
                    }
                }
            },
        }
        proof {
            assert forall|j: int|
                0 <= j < i + 1 implies action_bytes(s, dv[j], #[trigger] actions@[j])
                == done[j] by {
                if j < i as int {
                    assert(actions@[j] == pre_actions[j] && done[j] == pre_done[j]);
                }
            }
        }
        i = i + 1;
    }
    proof {
        assert(dv.skip(n as int).len() == 0);
        assert(spec_splice_sections(s, dv.skip(n as int), fv.skip(k as int)) == Ok::<
            (Seq<Seq<u8>>, Seq<Seq<u8>>),
            SpliceError,
        >((Seq::empty(), fv.skip(k as int))));
        assert(done + Seq::<Seq<u8>>::empty() =~= done);
    }
    if k != fragments.len() {
        proof {
            assert(fv.skip(k as int).len() != 0);
        }
        return Err(SpliceError::FragmentCountMismatch);
    }
    proof {
        assert(fv.skip(k as int).len() == 0);
    }
    // Write back the preamble: magic verbatim, layer flag cleared.
    let new_version = version & !crate::EXTERNAL_SECTION_LAYER_BIT;
    let mut preamble: Vec<u8> = Vec::new();
    push_range(&mut preamble, input, 0, 4);
    push_le_word(&mut preamble, new_version);
    proof {
        assert(preamble@ =~= splice_preamble(s));
    }
    let module = transform_sections(input, &preamble, &descs, &actions);
    proof {
        crate::split::lemma_parts_pointwise(s, dv, actions@, done);
        assert(module@ == splice_preamble(s) + concat_parts(done));
    }
    Ok(module)
}

} // verus!
