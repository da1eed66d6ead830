//! The external-section reference record and its binary wire format.

use vstd::prelude::*;

use crate::error::{RecordField, SpliceError};
use crate::varint::{
    encode_leb_u64, encode_lp, lemma_leb_bytes_props, lemma_leb_item_at, lemma_lp_item_at,
    lp_bytes, lp_item, leb_bytes, leb_item, push_range, read_lp, read_var_u32,
};

verus! {

/// The reference record that replaces an externalized section: the original
/// section's type tag, the bytes kept in line ahead of the externalized
/// payload, the payload's exact length, and the digest that addresses the
/// payload in the store.
#[derive(Debug)]
pub struct ExternalSection {
    pub external_section_id: u8,
    pub prefix: Vec<u8>,
    pub external_size: u32,
    pub digest_algo: Vec<u8>,
    pub digest_data: Vec<u8>,
}

/// Mathematical image of an `ExternalSection`.
pub struct RecordModel {
    pub external_section_id: u8,
    pub prefix: Seq<u8>,
    pub external_size: u32,
    pub digest_algo: Seq<u8>,
    pub digest_data: Seq<u8>,
}

impl View for ExternalSection {
    type V = RecordModel;

    open spec fn view(&self) -> RecordModel {
        RecordModel {
            external_section_id: self.external_section_id,
            prefix: self.prefix@,
            external_size: self.external_size,
            digest_algo: self.digest_algo@,
            digest_data: self.digest_data@,
        }
    }
}

/// Every variable-length field is short enough for its length prefix to be
/// read back as a 32-bit length.
pub open spec fn wf_record(m: RecordModel) -> bool {
    &&& m.prefix.len() < 0x100000000
    &&& m.digest_algo.len() < 0x100000000
    &&& m.digest_data.len() < 0x100000000
}

/// The record's wire format: the original section id, then the prefix, the
/// external size, the digest algorithm name and the digest bytes, the
/// variable-length fields length-prefixed.
pub open spec fn wire_bytes(m: RecordModel) -> Seq<u8> {
    seq![m.external_section_id] + lp_bytes(m.prefix) + leb_bytes(m.external_size as nat)
        + lp_bytes(m.digest_algo) + lp_bytes(m.digest_data)
}

/// A section as laid out in a module: type tag, payload length, payload.
pub open spec fn section_header_bytes(id: u8, size: nat) -> Seq<u8> {
    seq![id] + leb_bytes(size)
}

/// A whole section as laid out in a module.
pub open spec fn section_bytes(id: u8, payload: Seq<u8>) -> Seq<u8> {
    section_header_bytes(id, payload.len()) + payload
}

/// Decoding a record from a byte string: the fields in wire order, with
/// nothing left over. This is the sole meaning of the wire format; the
/// executable decoder returns exactly this.
pub open spec fn spec_decode_record(s: Seq<u8>) -> Result<RecordModel, SpliceError> {
    if s.len() < 1 {
        Err(SpliceError::RecordTruncated(RecordField::SectionId))
    } else {
        match lp_item(s, 1) {
            None => Err(SpliceError::RecordTruncated(RecordField::Prefix)),
            Some((prefix, p1)) => match leb_item(s, p1) {
                None => Err(SpliceError::RecordTruncated(RecordField::ExternalSize)),
                Some((size, p2)) => match lp_item(s, p2) {
                    None => Err(SpliceError::RecordTruncated(RecordField::DigestAlgo)),
                    Some((algo, p3)) => match lp_item(s, p3) {
                        None => Err(SpliceError::RecordTruncated(RecordField::DigestData)),
                        Some((digest, p4)) => if p4 != s.len() {
                            Err(SpliceError::RecordTrailingData)
                        } else {
                            Ok(
                                RecordModel {
                                    external_section_id: s[0],
                                    prefix,
                                    external_size: size,
                                    digest_algo: algo,
                                    digest_data: digest,
                                },
                            )
                        },
                    },
                },
            },
        }
    }
}

impl ExternalSection {
    /// Serializes the record into its wire format.
    pub fn to_bytes(&self) -> (r: Vec<u8>)
        ensures
            r@ == wire_bytes(self@),
    {
        let mut data: Vec<u8> = Vec::new();
        data.push(self.external_section_id);
        encode_lp(&mut data, self.prefix.as_slice());
        encode_leb_u64(&mut data, self.external_size as u64);
        encode_lp(&mut data, self.digest_algo.as_slice());
        encode_lp(&mut data, self.digest_data.as_slice());
        proof {
            assert(data@ =~= wire_bytes(self@));
        }
        data
    }

    /// Appends a whole external section to `out`: the reserved section tag,
    /// the record's length, then the record; returns how many bytes were
    /// appended.
    pub fn write_section(&self, out: &mut Vec<u8>) -> (n: usize)
        ensures
            final(out)@ == old(out)@ + section_bytes(
                crate::EXTERNAL_SECTION_ID,
                wire_bytes(self@),
            ),
            n == section_bytes(crate::EXTERNAL_SECTION_ID, wire_bytes(self@)).len(),
    {
        let start = out.len();
        let data = self.to_bytes();
        write_section_header(out, crate::EXTERNAL_SECTION_ID, data.len());
        push_range(out, data.as_slice(), 0, data.len());
        proof {
            assert(data@.subrange(0, data@.len() as int) =~= data@);
            assert(out@ =~= old(out)@ + section_bytes(
                crate::EXTERNAL_SECTION_ID,
                wire_bytes(self@),
            ));
        }
        out.len() - start
    }

    /// Parses a record from a byte string, which must hold the record and
    /// nothing else; reports the field at which a corrupt record runs out.
    pub fn from_bytes(bytes: &[u8]) -> (r: Result<ExternalSection, SpliceError>)
        ensures
            match r {
                Ok(rec) => spec_decode_record(bytes@) == Ok::<RecordModel, SpliceError>(rec@),
                Err(e) => spec_decode_record(bytes@) == Err::<RecordModel, SpliceError>(e),
            },
    {
        if bytes.len() < 1 {
            return Err(SpliceError::RecordTruncated(RecordField::SectionId));
        }
        let section_id = bytes[0];
        let (prefix, p1) = match read_lp(bytes, 1) {
            None => {
                return Err(SpliceError::RecordTruncated(RecordField::Prefix));
            },
            Some(x) => x,
        };
        let (size, p2) = match read_var_u32(bytes, p1) {
            None => {
                return Err(SpliceError::RecordTruncated(RecordField::ExternalSize));
            },
            Some(x) => x,
        };
        let (algo, p3) = match read_lp(bytes, p2) {
            None => {
                return Err(SpliceError::RecordTruncated(RecordField::DigestAlgo));
            },
            Some(x) => x,
        };
        let (digest, p4) = match read_lp(bytes, p3) {
            None => {
                return Err(SpliceError::RecordTruncated(RecordField::DigestData));
            },
            Some(x) => x,
        };
        if p4 != bytes.len() {
            return Err(SpliceError::RecordTrailingData);
        }
        Ok(
            ExternalSection {
                external_section_id: section_id,
                prefix,
                external_size: size,
                digest_algo: algo,
                digest_data: digest,
            },
        )
    }
}

/// Appends a section header to `out`: the type tag, then the payload length
/// as a varint; returns how many bytes were appended.
pub fn write_section_header(out: &mut Vec<u8>, section_id: u8, payload_size: usize) -> (n: usize)
    ensures
        final(out)@ == old(out)@ + section_header_bytes(section_id, payload_size as nat),
        n == section_header_bytes(section_id, payload_size as nat).len(),
{
    let start = out.len();
    out.push(section_id);
    encode_leb_u64(out, payload_size as u64);
    proof {
        assert(out@ =~= old(out)@ + section_header_bytes(section_id, payload_size as nat));
    }
    out.len() - start
}

/// Parsing a buffer that starts with `wire_bytes(m)` finds the fields of
/// `m` at their expected positions.
proof fn lemma_decode_fields(m: RecordModel, s: Seq<u8>)
    requires
        wf_record(m),
        wire_bytes(m).len() <= s.len(),
        s.subrange(0, wire_bytes(m).len() as int) == wire_bytes(m),
    ensures
        ({
            let w = wire_bytes(m);
            let e1 = 1 + lp_bytes(m.prefix).len() as int;
            let e2 = e1 + leb_bytes(m.external_size as nat).len() as int;
            let e3 = e2 + lp_bytes(m.digest_algo).len() as int;
            let e4 = e3 + lp_bytes(m.digest_data).len() as int;
            &&& s.len() >= 1
            &&& s[0] == m.external_section_id
            &&& lp_item(s, 1) == Some((m.prefix, e1))
            &&& leb_item(s, e1) == Some((m.external_size, e2))
            &&& lp_item(s, e2) == Some((m.digest_algo, e3))
            &&& lp_item(s, e3) == Some((m.digest_data, e4))
            &&& e4 == w.len()
        }),
{
    let w = wire_bytes(m);
    let lp_p = lp_bytes(m.prefix);
    let lb_s = leb_bytes(m.external_size as nat);
    let lp_a = lp_bytes(m.digest_algo);
    let lp_d = lp_bytes(m.digest_data);
    let e1 = 1 + lp_p.len() as int;
    let e2 = e1 + lb_s.len() as int;
    let e3 = e2 + lp_a.len() as int;
    let e4 = e3 + lp_d.len() as int;
    assert(w.len() == e4);
    assert forall|j: int| 0 <= j < w.len() implies s[j] == w[j] by {
        assert(s.subrange(0, w.len() as int)[j] == w[j]);
    }
    assert(s[0] == w[0] && w[0] == m.external_section_id);
    assert(s.subrange(1, e1) =~= lp_p) by {
        assert forall|j: int| 0 <= j < lp_p.len() implies s[1 + j] == lp_p[j] by {
            assert(w[1 + j] == lp_p[j]);
        }
    }
    lemma_lp_item_at(s, 1, m.prefix);
    assert(s.subrange(e1, e2) =~= lb_s) by {
        assert forall|j: int| 0 <= j < lb_s.len() implies s[e1 + j] == lb_s[j] by {
            assert(w[e1 + j] == lb_s[j]);
        }
    }
    lemma_leb_item_at(s, e1, m.external_size as nat);
    assert(m.external_size as nat as u32 == m.external_size);
    assert(s.subrange(e2, e3) =~= lp_a) by {
        assert forall|j: int| 0 <= j < lp_a.len() implies s[e2 + j] == lp_a[j] by {
            assert(w[e2 + j] == lp_a[j]);
        }
    }
    lemma_lp_item_at(s, e2, m.digest_algo);
    assert(s.subrange(e3, e4) =~= lp_d) by {
        assert forall|j: int| 0 <= j < lp_d.len() implies s[e3 + j] == lp_d[j] by {
            assert(w[e3 + j] == lp_d[j]);
        }
    }
    lemma_lp_item_at(s, e3, m.digest_data);
}

/// Decoding takes a serialized record back to exactly the fields it was
/// built from.
pub proof fn lemma_record_round_trip(m: RecordModel)
    requires
        wf_record(m),
    ensures
        spec_decode_record(wire_bytes(m)) == Ok::<RecordModel, SpliceError>(m),
{
    let w = wire_bytes(m);
    assert(w.subrange(0, w.len() as int) =~= w);
    lemma_decode_fields(m, w);
}

/// No two well-formed records serialize to the same bytes.
pub proof fn lemma_record_injective(a: RecordModel, b: RecordModel)
    requires
        wf_record(a),
        wf_record(b),
        wire_bytes(a) == wire_bytes(b),
    ensures
        a == b,
{
    lemma_record_round_trip(a);
    lemma_record_round_trip(b);
}

/// A serialized record followed by anything at all no longer decodes: the
/// leftover bytes are detected.
pub proof fn lemma_record_trailing(m: RecordModel, extra: Seq<u8>)
    requires
        wf_record(m),
        extra.len() > 0,
    ensures
        spec_decode_record(wire_bytes(m) + extra) == Err::<RecordModel, SpliceError>(
            SpliceError::RecordTrailingData,
        ),
{
    let w = wire_bytes(m);
    let s = w + extra;
    assert(s.subrange(0, w.len() as int) =~= w);
    lemma_decode_fields(m, s);
}

} // verus!
