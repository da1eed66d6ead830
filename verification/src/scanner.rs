//! Single-pass section scanner and copy-with-substitution rewriter.

use vstd::prelude::*;

use crate::error::SpliceError;
use crate::varint::{leb_item, lemma_leb_item_bounds, push_range, read_var_u32};

verus! {

/// Where a section lies in a module buffer.
#[derive(Clone, Copy, PartialEq, Eq, Structural, Debug)]
pub struct SectionDesc {
    /// Type tag of the section.
    pub id: u8,
    /// Offset of the section header's first byte.
    pub start: usize,
    /// Offset of the payload's first byte, just past the header.
    pub payload_start: usize,
    /// One past the payload's last byte.
    pub end: usize,
}

/// Mathematical image of a `SectionDesc`.
pub struct DescModel {
    pub id: u8,
    pub start: int,
    pub payload_start: int,
    pub end: int,
}

impl View for SectionDesc {
    type V = DescModel;

    open spec fn view(&self) -> DescModel {
        DescModel {
            id: self.id,
            start: self.start as int,
            payload_start: self.payload_start as int,
            end: self.end as int,
        }
    }
}

/// The images of a list of section descriptors.
pub open spec fn descs_view(v: Seq<SectionDesc>) -> Seq<DescModel> {
    v.map(|i: int, d: SectionDesc| d@)
}

/// The four magic bytes every module starts with.
pub open spec fn magic_bytes() -> Seq<u8> {
    seq![0u8, 0x61u8, 0x73u8, 0x6du8]
}

/// Scans the sections of `s` from `pos` to the end: each section is a type
/// tag, a payload length, and that many payload bytes; the sections tile
/// the buffer exactly.
pub open spec fn spec_scan(s: Seq<u8>, pos: int) -> Option<Seq<DescModel>>
    decreases s.len() - pos,
        via spec_scan_dec
{
    if pos < 0 || pos > s.len() {
        None
    } else if pos == s.len() {
        Some(Seq::empty())
    } else {
        match leb_item(s, pos + 1) {
            None => None,
            Some((size, hdr_end)) => if hdr_end + size > s.len() {
                None
            } else {
                match spec_scan(s, hdr_end + size) {
                    None => None,
                    Some(rest) => Some(
                        seq![
                            DescModel {
                                id: s[pos],
                                start: pos,
                                payload_start: hdr_end,
                                end: hdr_end + size,
                            },
                        ] + rest,
                    ),
                }
            },
        }
    }
}

#[via_fn]
proof fn spec_scan_dec(s: Seq<u8>, pos: int) {
    if 0 <= pos < s.len() {
        lemma_leb_item_bounds(s, pos + 1);
    }
}

/// Parses a whole module: the eight-byte preamble starting with the magic,
/// then sections tiling the rest of the buffer.
pub open spec fn spec_module_parse(s: Seq<u8>) -> Result<Seq<DescModel>, SpliceError> {
    if s.len() < 8 {
        Err(SpliceError::InputTooSmall)
    } else if s.subrange(0, 4) != magic_bytes() {
        Err(SpliceError::BadMagic)
    } else {
        match spec_scan(s, 8) {
            None => Err(SpliceError::MalformedSection),
            Some(ds) => Ok(ds),
        }
    }
}

/// A descriptor faithfully describes one section of `s`.
pub open spec fn desc_wf(s: Seq<u8>, d: DescModel) -> bool {
    &&& 0 <= d.start < d.payload_start <= d.end <= s.len()
    &&& d.end - d.payload_start < 0x100000000
    &&& s[d.start] == d.id
    &&& leb_item(s, d.start + 1) == Some(((d.end - d.payload_start) as u32, d.payload_start))
}

/// What a successful scan guarantees: descriptors tile `[pos, s.len())` in
/// order, and each one faithfully describes its section.
pub proof fn lemma_scan_props(s: Seq<u8>, pos: int, ds: Seq<DescModel>)
    requires
        0 <= pos <= s.len(),
        spec_scan(s, pos) == Some(ds),
    ensures
        ds.len() == 0 ==> pos == s.len(),
        ds.len() > 0 ==> ds[0].start == pos && ds[ds.len() - 1].end == s.len(),
        forall|i: int| 0 <= i < ds.len() ==> desc_wf(s, #[trigger] ds[i]),
        forall|i: int| 0 <= i < ds.len() - 1 ==> (#[trigger] ds[i]).end == ds[i + 1].start,
    decreases ds.len(),
{
    if pos == s.len() {
    } else {
        let (size, hdr_end) = leb_item(s, pos + 1).unwrap();
        lemma_leb_item_bounds(s, pos + 1);
        let rest = spec_scan(s, hdr_end + size).unwrap();
        let d0 = DescModel { id: s[pos], start: pos, payload_start: hdr_end, end: hdr_end + size };
        assert(ds == seq![d0] + rest);
        assert(rest =~= ds.drop_first());
        lemma_scan_props(s, hdr_end + size, rest);
        assert(ds[0] == d0);
        assert(desc_wf(s, d0));
        assert forall|i: int| 0 <= i < ds.len() implies desc_wf(s, #[trigger] ds[i]) by {
            if i > 0 {
                assert(ds[i] == rest[i - 1]);
            }
        }
        assert forall|i: int| 0 <= i < ds.len() - 1 implies (#[trigger] ds[i]).end == ds[i
            + 1].start by {
            if i == 0 {
                if rest.len() == 0 {
                } else {
                    assert(rest[0].start == hdr_end + size);
                }
            } else {
                assert(ds[i] == rest[i - 1] && ds[i + 1] == rest[i]);
            }
        }
    }
}

/// Parses a module buffer into its section descriptors, exactly as
/// `spec_module_parse` describes.
pub fn parse_sections(input: &[u8]) -> (r: Result<Vec<SectionDesc>, SpliceError>)
    ensures
        match r {
            Ok(ds) => spec_module_parse(input@) == Ok::<Seq<DescModel>, SpliceError>(
                descs_view(ds@),
            ),
            Err(e) => spec_module_parse(input@) == Err::<Seq<DescModel>, SpliceError>(e),
        },
{
    let ghost s = input@;
    let n = input.len();
    if n < 8 {
        return Err(SpliceError::InputTooSmall);
    }
    if input[0] != 0 || input[1] != 0x61 || input[2] != 0x73 || input[3] != 0x6d {
        proof {
            assert(s.subrange(0, 4) != magic_bytes()) by {
                if s.subrange(0, 4) == magic_bytes() {
                    assert(s[0] == magic_bytes()[0] && s[1] == magic_bytes()[1] && s[2]
                        == magic_bytes()[2] && s[3] == magic_bytes()[3]) by {
                        assert(forall|j: int|
                            0 <= j < 4 ==> s.subrange(0, 4)[j] == magic_bytes()[j]);
                    }
                }
            }
        }
        return Err(SpliceError::BadMagic);
    }
    proof {
        assert(s.subrange(0, 4) =~= magic_bytes());
    }
    let mut descs: Vec<SectionDesc> = Vec::new();
    let mut pos: usize = 8;
    while pos < n
        invariant
            8 <= pos <= n,
            n == s.len(),
            s == input@,
            s.len() >= 8,
            s.subrange(0, 4) == magic_bytes(),
            match spec_scan(s, pos as int) {
                None => spec_scan(s, 8) is None,
                Some(rest) => spec_scan(s, 8) == Some(descs_view(descs@) + rest),
            },
        decreases n - pos,
    {
        let id = input[pos];
        let ghost old_pos = pos as int;
        match read_var_u32(input, pos + 1) {
            None => {
                proof {
                    assert(spec_scan(s, old_pos) is None);
                }
                return Err(SpliceError::MalformedSection);
            },
            Some((size, hdr_end)) => {
                if size as usize > n - hdr_end {
                    proof {
                        assert(spec_scan(s, old_pos) is None);
                    }
                    return Err(SpliceError::MalformedSection);
                }
                let end = hdr_end + size as usize;
                let desc = SectionDesc { id, start: pos, payload_start: hdr_end, end };
                descs.push(desc);
                pos = end;
                proof {
                    let d0 = DescModel {
                        id: s[old_pos],
                        start: old_pos,
                        payload_start: hdr_end as int,
                        end: end as int,
                    };
                    assert(desc@ == d0);
                    match spec_scan(s, pos as int) {
                        None => {
                            assert(spec_scan(s, old_pos) is None);
                        },
                        Some(rest) => {
                            assert(spec_scan(s, old_pos) == Some(seq![d0] + rest));
                            assert(descs_view(descs@) =~= descs_view(
                                descs@.subrange(0, descs@.len() - 1),
                            ) + seq![d0]);
                            assert(descs_view(descs@.subrange(0, descs@.len() - 1)) + (seq![d0]
                                + rest) =~= descs_view(descs@) + rest);
                        },
                    }
                }
            },
        }
    }
    proof {
        assert(spec_scan(s, pos as int) == Some(Seq::<DescModel>::empty()));
        assert(descs_view(descs@) + Seq::<DescModel>::empty() =~= descs_view(descs@));
    }
    Ok(descs)
}

/// What to do with one section: copy it verbatim, or substitute the given
/// bytes for it.
pub enum SectionAction {
    Keep,
    Replace(Vec<u8>),
}

/// The bytes one section contributes to the rewritten module.
pub open spec fn action_bytes(s: Seq<u8>, d: DescModel, a: SectionAction) -> Seq<u8> {
    match a {
        SectionAction::Keep => s.subrange(d.start, d.end),
        SectionAction::Replace(r) => r@,
    }
}

/// The bytes all sections contribute, in input order.
pub open spec fn spec_parts(s: Seq<u8>, ds: Seq<DescModel>, acts: Seq<SectionAction>) -> Seq<u8>
    decreases ds.len(),
{
    if ds.len() == 0 {
        Seq::empty()
    } else {
        action_bytes(s, ds[0], acts[0]) + spec_parts(s, ds.drop_first(), acts.drop_first())
    }
}

/// The descriptors tile `[8, s.len())` in order within bounds.
pub open spec fn descs_cover(s: Seq<u8>, ds: Seq<DescModel>) -> bool {
    &&& s.len() >= 8
    &&& forall|i: int| 0 <= i < ds.len() ==> 8 <= (#[trigger] ds[i]).start <= ds[i].end <= s.len()
    &&& (ds.len() == 0 ==> s.len() == 8)
    &&& (ds.len() > 0 ==> ds[0].start == 8 && ds[ds.len() - 1].end == s.len())
    &&& forall|i: int| 0 <= i < ds.len() - 1 ==> (#[trigger] ds[i]).end == ds[i + 1].start
}

/// A successful scan from offset eight yields covering descriptors.
pub proof fn lemma_scan_covers(s: Seq<u8>, ds: Seq<DescModel>)
    requires
        s.len() >= 8,
        spec_scan(s, 8) == Some(ds),
    ensures
        descs_cover(s, ds),
{
    lemma_scan_props(s, 8, ds);
    assert forall|i: int| 0 <= i < ds.len() implies 8 <= (#[trigger] ds[i]).start <= ds[i].end
        <= s.len() by {
        assert(desc_wf(s, ds[i]));
        lemma_scan_starts(s, 8, ds, i);
    }
}

/// Every descriptor of a scan starts at or after the scan's start.
proof fn lemma_scan_starts(s: Seq<u8>, pos: int, ds: Seq<DescModel>, i: int)
    requires
        0 <= pos <= s.len(),
        spec_scan(s, pos) == Some(ds),
        0 <= i < ds.len(),
    ensures
        ds[i].start >= pos,
    decreases i,
{
    lemma_leb_item_bounds(s, pos + 1);
    if pos < s.len() {
        let (size, hdr_end) = leb_item(s, pos + 1).unwrap();
        let rest = spec_scan(s, hdr_end + size).unwrap();
        assert(rest =~= ds.drop_first());
        if i > 0 {
            lemma_scan_starts(s, hdr_end + size, rest, i - 1);
            assert(ds[i] == rest[i - 1]);
        }
    }
}

/// Rewrites a module: emits `preamble`, then every section in input order,
/// each either copied verbatim from `input` or substituted.
pub fn transform_sections(
    input: &[u8],
    preamble: &Vec<u8>,
    descs: &Vec<SectionDesc>,
    actions: &Vec<SectionAction>,
) -> (out: Vec<u8>)
    requires
        descs_cover(input@, descs_view(descs@)),
        actions@.len() == descs@.len(),
    ensures
        out@ == preamble@ + spec_parts(input@, descs_view(descs@), actions@),
{
    let ghost s = input@;
    let ghost dv = descs_view(descs@);
    let mut out: Vec<u8> = Vec::new();
    push_range(&mut out, preamble.as_slice(), 0, preamble.len());
    proof {
        assert(preamble@.subrange(0, preamble@.len() as int) =~= preamble@);
        assert(dv.skip(0) =~= dv);
        assert(actions@.skip(0) =~= actions@);
        assert(out@ =~= preamble@);
    }
    let n = descs.len();
    let mut i: usize = 0;
    while i < n
        invariant
            i <= n,
            n == descs@.len(),
            actions@.len() == n,
            s == input@,
            dv == descs_view(descs@),
            descs_cover(s, dv),
            out@ + spec_parts(s, dv.skip(i as int), actions@.skip(i as int)) == preamble@
                + spec_parts(s, dv, actions@),
        decreases n - i,
    {
        let d = descs[i];
        proof {
            assert(dv[i as int] == descs@[i as int]@);
            assert(8 <= dv[i as int].start <= dv[i as int].end <= s.len());
        }
        let ghost pre_out = out@;
        match &actions[i] {
            SectionAction::Keep => {
                push_range(&mut out, input, d.start, d.end);
            },
            SectionAction::Replace(r) => {
                push_range(&mut out, r.as_slice(), 0, r.len());
            },
        }
        proof {
            let dtail = dv.skip(i as int);
            let atail = actions@.skip(i as int);
            assert(dtail[0] == dv[i as int] && atail[0] == actions@[i as int]);
            assert(dtail.drop_first() =~= dv.skip(i + 1));
            assert(atail.drop_first() =~= actions@.skip(i + 1));
            assert(spec_parts(s, dtail, atail) == action_bytes(s, dv[i as int], actions@[i as int])
                + spec_parts(s, dv.skip(i + 1), actions@.skip(i + 1)));
            match actions@[i as int] {
                SectionAction::Keep => {
                    assert(out@ == pre_out + s.subrange(dv[i as int].start, dv[i as int].end));
                },
                SectionAction::Replace(r) => {
                    assert(r@.subrange(0, r@.len() as int) =~= r@);
                },
            }
            assert(out@ + spec_parts(s, dv.skip(i + 1), actions@.skip(i + 1)) =~= preamble@
                + spec_parts(s, dv, actions@));
        }
        i = i + 1;
    }
    proof {
        assert(dv.skip(n as int).len() == 0);
        assert(out@ =~= preamble@ + spec_parts(s, dv, actions@));
    }
    out
}

/// The 32-bit value of four little-endian bytes.
pub open spec fn le_word(s: Seq<u8>) -> u32 {
    (s[0] + 0x100 * s[1] + 0x10000 * s[2] + 0x1000000 * s[3]) as u32
}

/// The four little-endian bytes of a 32-bit value.
pub open spec fn le_word_bytes(v: u32) -> Seq<u8> {
    seq![
        (v % 0x100) as u8,
        ((v / 0x100) % 0x100) as u8,
        ((v / 0x10000) % 0x100) as u8,
        ((v / 0x1000000) % 0x100) as u8,
    ]
}

/// Reads the version/flags word from a module's preamble.
pub fn read_version_word(input: &[u8]) -> (v: u32)
    requires
        input@.len() >= 8,
    ensures
        v == le_word(input@.subrange(4, 8)),
{
    let b4 = input[4] as u32;
    let b5 = input[5] as u32;
    let b6 = input[6] as u32;
    let b7 = input[7] as u32;
    let v = b4 + 0x100 * b5 + 0x10000 * b6 + 0x1000000 * b7;
    proof {
        let w = input@.subrange(4, 8);
        assert(w[0] == input@[4] && w[1] == input@[5] && w[2] == input@[6] && w[3] == input@[7]);
    }
    v
}

/// Appends the four little-endian bytes of `v` to `out`.
pub fn push_le_word(out: &mut Vec<u8>, v: u32)
    ensures
        final(out)@ == old(out)@ + le_word_bytes(v),
{
    out.push((v % 0x100) as u8);
    out.push((v / 0x100 % 0x100) as u8);
    out.push((v / 0x10000 % 0x100) as u8);
    out.push((v / 0x1000000 % 0x100) as u8);
    proof {
        assert(out@ =~= old(out)@ + le_word_bytes(v));
    }
}

/// Reading back the four bytes of a word yields the word.
pub proof fn lemma_le_word_round_trip(v: u32)
    ensures
        le_word(le_word_bytes(v)) == v,
{
    let s = le_word_bytes(v);
    assert(s[0] + 0x100 * s[1] + 0x10000 * s[2] + 0x1000000 * s[3] == v) by (nonlinear_arith)
        requires
            s[0] == v % 0x100,
            s[1] == (v / 0x100) % 0x100,
            s[2] == (v / 0x10000) % 0x100,
            s[3] == (v / 0x1000000) % 0x100,
            v <= 0xffffffff,
    ;
}

/// Writing back the word read from four bytes yields the same bytes.
pub proof fn lemma_le_bytes_round_trip(s: Seq<u8>)
    requires
        s.len() == 4,
    ensures
        le_word_bytes(le_word(s)) == s,
{
    let v = le_word(s);
    assert(v == s[0] + 0x100 * s[1] + 0x10000 * s[2] + 0x1000000 * s[3]);
    assert(v % 0x100 == s[0] && (v / 0x100) % 0x100 == s[1] && (v / 0x10000) % 0x100 == s[2] && (v
        / 0x1000000) % 0x100 == s[3]) by (nonlinear_arith)
        requires
            v == s[0] + 0x100 * s[1] + 0x10000 * s[2] + 0x1000000 * s[3],
            s[0] < 0x100,
            s[1] < 0x100,
            s[2] < 0x100,
            s[3] < 0x100,
    ;
    assert(le_word_bytes(v) =~= s);
}

} // verus!
