//! The content-addressed store: fragment files keyed by digest.

use vstd::prelude::*;

use vstd::string::StringExecFns;

use crate::error::SpliceError;

verus! {

/// Lowercase hex digit for a value below sixteen.
pub open spec fn hex_digit(n: u8) -> char {
    if n == 0 {
        '0'
    } else if n == 1 {
        '1'
    } else if n == 2 {
        '2'
    } else if n == 3 {
        '3'
    } else if n == 4 {
        '4'
    } else if n == 5 {
        '5'
    } else if n == 6 {
        '6'
    } else if n == 7 {
        '7'
    } else if n == 8 {
        '8'
    } else if n == 9 {
        '9'
    } else if n == 10 {
        'a'
    } else if n == 11 {
        'b'
    } else if n == 12 {
        'c'
    } else if n == 13 {
        'd'
    } else if n == 14 {
        'e'
    } else {
        'f'
    }
}

/// Lowercase hex rendering of a byte string: two digits per byte, in order.
pub open spec fn spec_hex(bytes: Seq<u8>) -> Seq<char>
    decreases bytes.len(),
{
    if bytes.len() == 0 {
        Seq::empty()
    } else {
        seq![hex_digit(bytes[0] / 16), hex_digit(bytes[0] % 16)] + spec_hex(bytes.drop_first())
    }
}

/// Relies on hex::encode: two lowercase hex digits per byte, in input
/// order.
#[verifier::external_body]
fn hex_encode(digest: &[u8]) -> (r: String)
    ensures
        r@ == spec_hex(digest@),
{
    hex::encode(digest)
}

/// The digest under which a payload is filed in the store.
pub uninterp spec fn sha256_of(data: Seq<u8>) -> Seq<u8>;

/// Relies on sha2::Sha256: the digest depends on the input bytes alone and
/// is exactly 32 bytes long.
#[verifier::external_body]
pub(crate) fn sha256(data: &[u8]) -> (r: Vec<u8>)
    ensures
        r@ == sha256_of(data@),
        r@.len() == 32,
{
    let digest = <sha2::Sha256 as sha2::Digest>::digest(data);
    digest.as_slice().to_vec()
}

/// Mathematical image of a `SpliceConfig`.
pub struct ConfigModel {
    pub dir: Seq<char>,
    pub extension: Seq<char>,
}

/// Where the content-addressed store lives: a directory (the current one
/// when empty) and the extension its fragment files carry.
pub struct SpliceConfig {
    external_section_dir: String,
    external_section_extension: String,
}

impl View for SpliceConfig {
    type V = ConfigModel;

    closed spec fn view(&self) -> ConfigModel {
        ConfigModel {
            dir: self.external_section_dir@,
            extension: self.external_section_extension@,
        }
    }
}

/// The store path of a digest: the directory, the hex-encoded digest, a
/// dot, and the extension.
pub open spec fn spec_store_path(c: ConfigModel, digest: Seq<u8>) -> Seq<char> {
    (if c.dir.len() == 0 {
        Seq::<char>::empty()
    } else {
        c.dir + seq!['/']
    }) + spec_hex(digest) + seq!['.'] + c.extension
}

impl SpliceConfig {
    /// A store rooted in `dir`, fragment files carrying `extension`.
    pub fn new(dir: String, extension: String) -> (c: SpliceConfig)
        ensures
            c@ == (ConfigModel { dir: dir@, extension: extension@ }),
    {
        SpliceConfig { external_section_dir: dir, external_section_extension: extension }
    }

    /// The store path addressing `digest`; an empty digest addresses
    /// nothing and is refused.
    pub fn external_section_path(&self, digest: &[u8]) -> (r: Result<String, SpliceError>)
        ensures
            match r {
                Ok(p) => digest@.len() > 0 && p@ == spec_store_path(self@, digest@),
                Err(e) => digest@.len() == 0 && e == SpliceError::EmptyDigest,
            },
    {
        if digest.len() == 0 {
            return Err(SpliceError::EmptyDigest);
        }
        let mut p = String::new();
        if !self.external_section_dir.as_str().is_empty() {
            p.append(self.external_section_dir.as_str());
            p.append("/");
        }
        let h = hex_encode(digest);
        p.append(h.as_str());
        p.append(".");
        p.append(self.external_section_extension.as_str());
        proof {
            reveal_strlit("/");
            reveal_strlit(".");
            assert("/"@ =~= seq!['/']);
            assert("."@ =~= seq!['.']);
            assert(p@ =~= spec_store_path(self@, digest@));
        }
        Ok(p)
    }
}

impl Default for SpliceConfig {
    /// The default store: the current directory, extension "ext".
    fn default() -> (c: SpliceConfig)
        ensures
            c@ == (ConfigModel { dir: Seq::<char>::empty(), extension: "ext"@ }),
    {
        SpliceConfig {
            external_section_dir: String::new(),
            external_section_extension: String::from_str("ext"),
        }
    }
}

/// Splitting the same payload bytes twice files them under the same store
/// path, in the same or different modules: the digest, and with it the
/// path, depends on the payload bytes alone.
pub proof fn lemma_store_path_deterministic(c: ConfigModel, data1: Seq<u8>, data2: Seq<u8>)
    requires
        data1 == data2,
    ensures
        spec_store_path(c, sha256_of(data1)) == spec_store_path(c, sha256_of(data2)),
{
}

} // verus!
