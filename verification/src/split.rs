//! Split: extract matching custom sections into the store, leaving
//! external-section reference records in their place.

use vstd::prelude::*;

use crate::codec::{section_bytes, wire_bytes, ExternalSection, RecordModel};
use crate::error::SpliceError;
use crate::scanner::{
    action_bytes, descs_cover, descs_view, desc_wf, le_word, le_word_bytes, lemma_scan_covers,
    lemma_scan_props, parse_sections, push_le_word, read_version_word, spec_module_parse,
    spec_parts, transform_sections, DescModel, SectionAction, SectionDesc,
};
use crate::store::{sha256, sha256_of};
use crate::varint::{bytes_eq, lp_item, push_range, read_lp};

verus! {

/// The name bytes "sha256", the only digest algorithm in use.
pub open spec fn sha256_name() -> Seq<u8> {
    seq![0x73u8, 0x68u8, 0x61u8, 0x32u8, 0x35u8, 0x36u8]
}

/// Builds the name bytes "sha256".
pub fn sha256_name_vec() -> (v: Vec<u8>)
    ensures
        v@ == sha256_name(),
{
    let mut v: Vec<u8> = Vec::new();
    v.push(0x73);
    v.push(0x68);
    v.push(0x61);
    v.push(0x32);
    v.push(0x35);
    v.push(0x36);
    proof {
        assert(v@ =~= sha256_name());
    }
    v
}

/// The name at the head of a custom section's payload: a length-prefixed
/// byte string parsed within the payload alone.
pub open spec fn custom_name_item(s: Seq<u8>, d: DescModel) -> Option<(Seq<u8>, int)> {
    lp_item(s.subrange(d.payload_start, d.end), 0)
}

/// Reads the name of the custom section `d`; the returned offset is where
/// the section's remaining payload starts, relative to the payload.
pub fn read_custom_name(input: &[u8], d: &SectionDesc) -> (r: Option<(Vec<u8>, usize)>)
    requires
        0 <= d@.payload_start <= d@.end <= input@.len(),
    ensures
        match r {
            Some((name, ne)) => {
                &&& custom_name_item(input@, d@) == Some((name@, ne as int))
                &&& 0 < ne <= d@.end - d@.payload_start
            },
            None => custom_name_item(input@, d@) is None,
        },
{
    let payload = vstd::slice::slice_subrange(input, d.payload_start, d.end);
    read_lp(payload, 0)
}

/// Some name in `names` equals `name`.
pub open spec fn name_selected(names: Seq<Seq<u8>>, name: Seq<u8>) -> bool {
    exists|i: int| 0 <= i < names.len() && names[i] == name
}

/// True exactly when `name` occurs in `names`.
pub fn contains_name(names: &Vec<Vec<u8>>, name: &[u8]) -> (r: bool)
    ensures
        r == name_selected(names.deep_view(), name@),
{
    let n = names.len();
    let mut i: usize = 0;
    while i < n
        invariant
            i <= n,
            n == names@.len(),
            forall|j: int| 0 <= j < i ==> names@[j]@ != name@,
        decreases n - i,
    {
        if bytes_eq(names[i].as_slice(), name) {
            proof {
                assert(names.deep_view()[i as int] == name@);
            }
            return true;
        }
        i = i + 1;
    }
    proof {
        assert forall|j: int| 0 <= j < names.deep_view().len() implies names.deep_view()[j]
            != name@ by {
            assert(names.deep_view()[j] == names@[j]@);
        }
    }
    false
}

/// Split matches the custom sections whose name is in `names`.
pub open spec fn split_matches(s: Seq<u8>, d: DescModel, names: Seq<Seq<u8>>) -> bool {
    &&& d.id == crate::CUSTOM_SECTION_ID
    &&& custom_name_item(s, d) is Some
    &&& name_selected(names, custom_name_item(s, d).unwrap().0)
}

/// The payload bytes moved to the store for a matched custom section:
/// everything past the encoded name.
pub open spec fn split_fragment_data(s: Seq<u8>, d: DescModel) -> Seq<u8> {
    let ne = custom_name_item(s, d).unwrap().1;
    s.subrange(d.payload_start + ne, d.end)
}

/// The record that replaces a matched custom section: the custom tag, the
/// encoded name as prefix, the externalized payload's length, and its
/// digest.
pub open spec fn split_record(s: Seq<u8>, d: DescModel) -> RecordModel {
    let ne = custom_name_item(s, d).unwrap().1;
    RecordModel {
        external_section_id: crate::CUSTOM_SECTION_ID,
        prefix: s.subrange(d.payload_start, d.payload_start + ne),
        external_size: split_fragment_data(s, d).len() as u32,
        digest_algo: sha256_name(),
        digest_data: sha256_of(split_fragment_data(s, d)),
    }
}

/// A fragment bound for the store: the payload bytes under their digest.
#[derive(Debug)]
pub struct Fragment {
    pub digest: Vec<u8>,
    pub data: Vec<u8>,
}

/// Mathematical image of a `Fragment`.
pub struct FragModel {
    pub digest: Seq<u8>,
    pub data: Seq<u8>,
}

impl View for Fragment {
    type V = FragModel;

    open spec fn view(&self) -> FragModel {
        FragModel { digest: self.digest@, data: self.data@ }
    }
}

/// The images of a list of fragments.
pub open spec fn frags_view(v: Seq<Fragment>) -> Seq<FragModel> {
    v.map(|i: int, f: Fragment| f@)
}

/// Concatenation of the per-section byte strings.
pub open spec fn concat_parts(parts: Seq<Seq<u8>>) -> Seq<u8>
    decreases parts.len(),
{
    if parts.len() == 0 {
        Seq::empty()
    } else {
        parts[0] + concat_parts(parts.drop_first())
    }
}

/// Split's treatment of one section: the bytes it contributes to the
/// output and the fragment it stores, if any, or the error it raises.
pub open spec fn split_head(s: Seq<u8>, d: DescModel, names: Seq<Seq<u8>>) -> Result<
    (Seq<u8>, Option<FragModel>),
    SpliceError,
> {
    if d.id == crate::CUSTOM_SECTION_ID && custom_name_item(s, d) is None {
        Err(SpliceError::MalformedCustomName)
    } else if split_matches(s, d, names) {
        Ok(
            (
                section_bytes(crate::EXTERNAL_SECTION_ID, wire_bytes(split_record(s, d))),
                Some(
                    FragModel {
                        digest: sha256_of(split_fragment_data(s, d)),
                        data: split_fragment_data(s, d),
                    },
                ),
            ),
        )
    } else {
        Ok((s.subrange(d.start, d.end), None))
    }
}

/// Split's treatment of a run of sections: the bytes each section
/// contributes and the fragments stored, in order, or the first error met.
pub open spec fn spec_split_sections(s: Seq<u8>, ds: Seq<DescModel>, names: Seq<Seq<u8>>) -> Result<
    (Seq<Seq<u8>>, Seq<FragModel>),
    SpliceError,
>
    decreases ds.len(),
{
    if ds.len() == 0 {
        Ok((Seq::empty(), Seq::empty()))
    } else {
        match split_head(s, ds[0], names) {
            Err(e) => Err(e),
            Ok((part, fo)) => match spec_split_sections(s, ds.drop_first(), names) {
                Err(e) => Err(e),
                Ok((parts, frags)) => Ok(
                    (
                        seq![part] + parts,
                        match fo {
                            Some(f) => seq![f] + frags,
                            None => frags,
                        },
                    ),
                ),
            },
        }
    }
}

/// Unrolling `spec_split_sections` one section at a time.
proof fn lemma_split_sections_step(s: Seq<u8>, ds: Seq<DescModel>, names: Seq<Seq<u8>>, i: int)
    requires
        0 <= i < ds.len(),
    ensures
        spec_split_sections(s, ds.skip(i), names) == (match split_head(s, ds[i], names) {
            Err(e) => Err::<(Seq<Seq<u8>>, Seq<FragModel>), SpliceError>(e),
            Ok((part, fo)) => match spec_split_sections(s, ds.skip(i + 1), names) {
                Err(e) => Err(e),
                Ok((parts, frags)) => Ok(
                    (
                        seq![part] + parts,
                        match fo {
                            Some(f) => seq![f] + frags,
                            None => frags,
                        },
                    ),
                ),
            },
        }),
{
    assert(ds.skip(i)[0] == ds[i]);
    assert(ds.skip(i).drop_first() =~= ds.skip(i + 1));
}

/// The rewritten preamble: the magic, then the version word with the layer
/// flag set.
pub open spec fn split_preamble(s: Seq<u8>) -> Seq<u8> {
    s.subrange(0, 4) + le_word_bytes(
        le_word(s.subrange(4, 8)) | crate::EXTERNAL_SECTION_LAYER_BIT,
    )
}

/// The split of a whole module: the rewritten module bytes and the
/// fragments to store, or the first error met.
pub open spec fn spec_split(s: Seq<u8>, names: Seq<Seq<u8>>) -> Result<
    (Seq<u8>, Seq<FragModel>),
    SpliceError,
> {
    match spec_module_parse(s) {
        Err(e) => Err(e),
        Ok(ds) => match spec_split_sections(s, ds, names) {
            Err(e) => Err(e),
            Ok((parts, frags)) => Ok((split_preamble(s) + concat_parts(parts), frags)),
        },
    }
}

/// When every action's bytes equal the corresponding part, the rewriter's
/// output equals the parts' concatenation.
pub proof fn lemma_parts_pointwise(
    s: Seq<u8>,
    ds: Seq<DescModel>,
    acts: Seq<SectionAction>,
    parts: Seq<Seq<u8>>,
)
    requires
        ds.len() == acts.len(),
        ds.len() == parts.len(),
        forall|i: int| 0 <= i < ds.len() ==> action_bytes(s, ds[i], #[trigger] acts[i]) == parts[i],
    ensures
        spec_parts(s, ds, acts) == concat_parts(parts),
    decreases ds.len(),
{
    if ds.len() > 0 {
        assert forall|i: int| 0 <= i < ds.drop_first().len() implies action_bytes(
            s,
            ds.drop_first()[i],
            #[trigger] acts.drop_first()[i],
        ) == parts.drop_first()[i] by {
            assert(acts.drop_first()[i] == acts[i + 1]);
        }
        lemma_parts_pointwise(s, ds.drop_first(), acts.drop_first(), parts.drop_first());
        assert(action_bytes(s, ds[0], acts[0]) == parts[0]);
    }
}

/// Carries out split's treatment of one section, exactly as `split_head`
/// describes it.
fn split_one(input: &[u8], d: &SectionDesc, names: &Vec<Vec<u8>>) -> (r: Result<
    (SectionAction, Option<Fragment>),
    SpliceError,
>)
    requires
        desc_wf(input@, d@),
    ensures
        match r {
            Ok((act, fo)) => split_head(input@, d@, names.deep_view()) == Ok::<
                (Seq<u8>, Option<FragModel>),
                SpliceError,
            >(
                (
                    action_bytes(input@, d@, act),
                    match fo {
                        Some(f) => Some(f@),
                        None => None,
                    },
                ),
            ),
            Err(e) => split_head(input@, d@, names.deep_view()) == Err::<
                (Seq<u8>, Option<FragModel>),
                SpliceError,
            >(e),
        },
{
    let ghost s = input@;
    if d.id != crate::CUSTOM_SECTION_ID {
        proof {
            assert(!split_matches(s, d@, names.deep_view()));
        }
        return Ok((SectionAction::Keep, None));
    }
    match read_custom_name(input, d) {
        None => Err(SpliceError::MalformedCustomName),
        Some((name, ne)) => {
            if !contains_name(names, name.as_slice()) {
                proof {
                    assert(!split_matches(s, d@, names.deep_view()));
                }
                return Ok((SectionAction::Keep, None));
            }
            let data_start = d.payload_start + ne;
            let data_slice = vstd::slice::slice_subrange(input, data_start, d.end);
            let digest = sha256(data_slice);
            let data = vstd::slice::slice_to_vec(data_slice);
            let prefix = vstd::slice::slice_to_vec(
                vstd::slice::slice_subrange(input, d.payload_start, data_start),
            );
            let external_size = (d.end - data_start) as u32;
            let ghost frag_digest = digest@;
            let record = ExternalSection {
                external_section_id: crate::CUSTOM_SECTION_ID,
                prefix,
                external_size,
                digest_algo: sha256_name_vec(),
                digest_data: digest,
            };
            let mut repl: Vec<u8> = Vec::new();
            record.write_section(&mut repl);
            proof {
                let dm = d@;
                assert(split_matches(s, dm, names.deep_view()));
                assert(split_fragment_data(s, dm) == data@);
                assert(record@ == split_record(s, dm));
            }
            let frag = Fragment { digest: record.digest_data, data };
            Ok((SectionAction::Replace(repl), Some(frag)))
        },
    }
}

/// What split produces: the rewritten module and the fragments to store.
#[derive(Debug)]
pub struct SplitOutput {
    pub module: Vec<u8>,
    pub fragments: Vec<Fragment>,
}

/// Splits a module: every custom section whose name is in `names` is
/// replaced by an external-section record and its payload handed back as a
/// fragment; the preamble's layer flag is set; everything else is copied
/// verbatim. Returns exactly what `spec_split` describes.
#[verifier::rlimit(60)]
pub fn split_module(input: &[u8], names: &Vec<Vec<u8>>) -> (r: Result<SplitOutput, SpliceError>)
    ensures
        match r {
            Ok(out) => spec_split(input@, names.deep_view()) == Ok::<
                (Seq<u8>, Seq<FragModel>),
                SpliceError,
            >((out.module@, frags_view(out.fragments@))),
            Err(e) => spec_split(input@, names.deep_view()) == Err::<
                (Seq<u8>, Seq<FragModel>),
                SpliceError,
            >(e),
        },
{
    let ghost s = input@;
    let ghost nv = names.deep_view();
    let descs = match parse_sections(input) {
        Err(e) => {
            return Err(e);
        },
        Ok(ds) => ds,
    };
    let ghost dv = descs_view(descs@);
    proof {
        lemma_scan_props(s, 8, dv);
        lemma_scan_covers(s, dv);
        assert(dv.skip(0) =~= dv);
        match spec_split_sections(s, dv, nv) {
            Err(e) => {},
            Ok((parts, frags)) => {
                assert(Seq::<Seq<u8>>::empty() + parts =~= parts);
                assert(frags_view(Seq::<Fragment>::empty()) + frags =~= frags);
            },
        }
    }
    let n = descs.len();
    let mut actions: Vec<SectionAction> = Vec::new();
    let mut fragments: Vec<Fragment> = Vec::new();
    let ghost mut done: Seq<Seq<u8>> = Seq::empty();
    let mut i: usize = 0;
    while i < n
        invariant
            i <= n,
            n == descs@.len(),
            s == input@,
            nv == names.deep_view(),
            dv == descs_view(descs@),
            spec_module_parse(s) == Ok::<Seq<DescModel>, SpliceError>(dv),
            descs_cover(s, dv),
            forall|j: int| 0 <= j < dv.len() ==> desc_wf(s, #[trigger] dv[j]),
            actions@.len() == i,
            done.len() == i,
            forall|j: int|
                0 <= j < i ==> action_bytes(s, dv[j], #[trigger] actions@[j]) == done[j],
            spec_split_sections(s, dv, nv) == (match spec_split_sections(
                s,
                dv.skip(i as int),
                nv,
            ) {
                Err(e) => Err::<(Seq<Seq<u8>>, Seq<FragModel>), SpliceError>(e),
                Ok((parts, frags)) => Ok((done + parts, frags_view(fragments@) + frags)),
            }),
        decreases n - i,
    {
        let d = descs[i];
        proof {
            assert(dv[i as int] == descs@[i as int]@);
            assert(desc_wf(s, dv[i as int]));
            lemma_split_sections_step(s, dv, nv, i as int);
        }
        let ghost pre_frags = fragments@;
        let ghost pre_actions = actions@;
        let ghost pre_done = done;
        match split_one(input, &d, names) {
            Err(e) => {
                return Err(e);
            },
            Ok((act, fo)) => {
                proof {
                    done = done.push(action_bytes(s, dv[i as int], act));
                }
                match fo {
                    Some(f) => {
                        fragments.push(f);
                    },
                    None => {},
                }
                actions.push(act);
                proof {
                    match spec_split_sections(s, dv.skip(i + 1), nv) {
                        Err(e) => {},
                        Ok((parts, frags)) => {
                            assert(pre_done + (seq![done.last()] + parts) =~= done + parts);
                            match split_head(s, dv[i as int], nv) {
                                Err(e) => {},
                                Ok((part, foo)) => {
                                    match foo {
                                        Some(fm) => {
                                            assert(frags_view(fragments@) =~= frags_view(pre_frags)
                                                + seq![fm]);
                                            assert(frags_view(pre_frags) + (seq![fm] + frags)
                                                =~= frags_view(fragments@) + frags);
                                        },
                                        None => {
                                            assert(frags_view(fragments@) =~= frags_view(
                                                pre_frags,
                                            ));
                                        },
                                    }
                                },
                            }
                        },
                    }
                    assert forall|j: int|
                        0 <= j < i + 1 implies action_bytes(s, dv[j], #[trigger] actions@[j])
                        == done[j] by {
                        if j < i as int {
                            assert(actions@[j] == pre_actions[j] && done[j] == pre_done[j]);
                        }
                    }
                }
                i = i + 1;
            },
        }
    }
    proof {
        assert(dv.skip(n as int).len() == 0);
        assert(spec_split_sections(s, dv.skip(n as int), nv) == Ok::<
            (Seq<Seq<u8>>, Seq<FragModel>),
            SpliceError,
        >((Seq::empty(), Seq::empty())));
        assert(done + Seq::<Seq<u8>>::empty() =~= done);
        assert(frags_view(fragments@) + Seq::<FragModel>::empty() =~= frags_view(fragments@));
    }
    // Rewrite the preamble: magic verbatim, layer flag set in the version word.
    let version = read_version_word(input);
    let new_version = version | crate::EXTERNAL_SECTION_LAYER_BIT;
    let mut preamble: Vec<u8> = Vec::new();
    push_range(&mut preamble, input, 0, 4);
    push_le_word(&mut preamble, new_version);
    proof {
        assert(preamble@ =~= split_preamble(s));
    }
    let module = transform_sections(input, &preamble, &descs, &actions);
    proof {
        lemma_parts_pointwise(s, dv, actions@, done);
        assert(module@ == split_preamble(s) + concat_parts(done));
    }
    Ok(SplitOutput { module, fragments })
}

} // verus!
