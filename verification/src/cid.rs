//! Content identifiers: a version, the codec of the block, and the hash of its
//! bytes.

use vstd::prelude::*;
use std::str::FromStr;

verus! {

/// Codec tag of an uninterpreted payload block.
pub const RAW_CODEC: u64 = 0x55;

/// Codec tag of a structured (DAG-CBOR) block.
pub const DAG_CBOR_CODEC: u64 = 0x71;

/// Codec tag of a DAG-PB block, the only codec of a version 0 identifier.
pub const DAG_PB_CODEC: u64 = 0x70;

/// Hash code of SHA2-256, the only hash of a version 0 identifier.
pub const SHA2_256_CODE: u64 = 0x12;

/// Hash code of BLAKE3 with 32 bytes, the hash of the blocks written here.
pub const BLAKE3_256_CODE: u64 = 0x1e;

/// The longest digest an identifier can hold, in bytes.
pub const MAX_DIGEST_LEN: usize = 64;

/// What an identifier is: its four parts as plain values.
pub struct CidView {
    pub version: u64,
    pub codec: u64,
    pub hash_code: u64,
    pub digest: Seq<u8>,
}

/// The identifier that stands for "none": version 1, codec 0, an empty digest
/// under hash code 0.
pub open spec fn default_cid() -> CidView {
    CidView { version: 1, codec: 0, hash_code: 0, digest: Seq::empty() }
}

/// Whether four parts can make an identifier.
pub open spec fn cid_parts_valid(version: u64, codec: u64, hash_code: u64, digest: Seq<u8>) -> bool {
    &&& digest.len() <= MAX_DIGEST_LEN
    &&& (version == 1 || (version == 0 && codec == DAG_PB_CODEC && hash_code == SHA2_256_CODE))
}

/// A content identifier.
#[derive(Debug)]
pub struct Cid {
    version: u64,
    codec: u64,
    hash_code: u64,
    digest: Vec<u8>,
}

/// Why a text or a byte string is no identifier.
#[derive(Debug, Clone, Copy, PartialEq, Eq)]
pub enum CidError {
    /// The text is not the text form of an identifier.
    InvalidText,
    /// The bytes are not the binary form of an identifier.
    InvalidBytes,
}

#[verifier::external_type_specification]
#[verifier::external_body]
pub struct ExCidCrateError(libipld::cid::Error);

/// The text form that `libipld::Cid` gives an identifier through `Display`:
/// multibase, base 32 for version 1 and base 58 for version 0.
pub uninterp spec fn cid_text(cid: CidView) -> Seq<char>;

/// The identifier that `libipld::Cid::from_str` reads from a text, if it reads one.
pub uninterp spec fn cid_from_text(text: Seq<char>) -> Option<CidView>;

/// The binary form that `libipld::Cid::to_bytes` gives an identifier.
pub uninterp spec fn cid_bytes(cid: CidView) -> Seq<u8>;

/// The identifier that `libipld::Cid::try_from` reads from the front of a
/// byte string, if it reads one.
pub uninterp spec fn cid_from_bytes(bytes: Seq<u8>) -> Option<CidView>;

impl View for Cid {
    type V = CidView;

    closed spec fn view(&self) -> CidView {
        CidView {
            version: self.version,
            codec: self.codec,
            hash_code: self.hash_code,
            digest: self.digest@,
        }
    }
}

/// Whether two byte strings are the same.
pub fn bytes_equal(a: &Vec<u8>, b: &Vec<u8>) -> (r: bool)
    ensures
        r == (a@ == b@),
{
    if a.len() != b.len() {
        return false;
    }
    let n = a.len();
    let mut i: usize = 0;
    while i < n
        invariant
            i <= n,
            n == a@.len(),
            n == b@.len(),
            a@.take(i as int) == b@.take(i as int),
        decreases n - i,
    {
        if a[i] != b[i] {
            return false;
        }
        proof {
            assert(a@.take(i as int + 1) =~= a@.take(i as int).push(a@[i as int]));
            assert(b@.take(i as int + 1) =~= b@.take(i as int).push(b@[i as int]));
        }
        i = i + 1;
    }
    proof {
        assert(a@ =~= a@.take(n as int));
        assert(b@ =~= b@.take(n as int));
    }
    true
}

impl Cid {
    #[verifier::type_invariant]
    spec fn inv(&self) -> bool {
        cid_parts_valid(self.version, self.codec, self.hash_code, self.digest@)
    }

    /// An identifier of version 1, where the digest is short enough for one.
    pub fn new_v1(codec: u64, hash_code: u64, digest: Vec<u8>) -> (r: Option<Cid>)
        ensures
            r is Some == (digest@.len() <= MAX_DIGEST_LEN),
            r is Some ==> r->0@ == (CidView { version: 1, codec, hash_code, digest: digest@ }),
    {
        if digest.len() <= MAX_DIGEST_LEN {
            Some(Cid { version: 1, codec, hash_code, digest })
        } else {
            None
        }
    }

    /// An identifier of the four parts, where they can make one.
    pub fn from_parts(version: u64, codec: u64, hash_code: u64, digest: Vec<u8>) -> (r: Option<Cid>)
        ensures
            r is Some == cid_parts_valid(version, codec, hash_code, digest@),
            r is Some ==> r->0@ == (CidView { version, codec, hash_code, digest: digest@ }),
    {
        if digest.len() <= MAX_DIGEST_LEN && (version == 1 || (version == 0 && codec == DAG_PB_CODEC
            && hash_code == SHA2_256_CODE)) {
            Some(Cid { version, codec, hash_code, digest })
        } else {
            None
        }
    }

    /// The version: 0 or 1.
    pub fn version(&self) -> (r: u64)
        ensures
            r == self@.version,
            r == 0 || r == 1,
    {
        proof {
            use_type_invariant(self);
        }
        self.version
    }

    /// The codec tag of the block that the identifier names.
    pub fn codec(&self) -> (r: u64)
        ensures
            r == self@.codec,
    {
        self.codec
    }

    /// The code of the hash function.
    pub fn hash_code(&self) -> (r: u64)
        ensures
            r == self@.hash_code,
    {
        self.hash_code
    }

    /// The digest of the block's bytes.
    pub fn digest(&self) -> (r: &Vec<u8>)
        ensures
            r@ == self@.digest,
            r@.len() <= MAX_DIGEST_LEN,
    {
        proof {
            use_type_invariant(self);
        }
        &self.digest
    }

    /// Whether the identifier names an uninterpreted payload block.
    pub fn is_raw(&self) -> (r: bool)
        ensures
            r == (self@.codec == RAW_CODEC),
    {
        self.codec == RAW_CODEC
    }

    /// Whether this is the identifier that stands for "none".
    pub fn is_default(&self) -> (r: bool)
        ensures
            r == (self@ == default_cid()),
    {
        let r = self.version == 1 && self.codec == 0 && self.hash_code == 0 && self.digest.len() == 0;
        proof {
            if r {
                assert(self@.digest =~= Seq::<u8>::empty());
            }
        }
        r
    }

    /// Whether two identifiers are the same.
    pub fn same(&self, other: &Cid) -> (r: bool)
        ensures
            r == (self@ == other@),
    {
        self.version == other.version && self.codec == other.codec && self.hash_code
            == other.hash_code && bytes_equal(&self.digest, &other.digest)
    }

    /// `libipld::Cid`'s `Display`. The contract names the text after the
    /// identifier's parts and claims no more of it.
    #[verifier::external_body]
    pub(crate) fn text_form(&self) -> (r: String)
        ensures
            r@ == cid_text(self@),
    {
        let version = libipld::cid::Version::try_from(self.version).unwrap();
        let hash = libipld::multihash::Multihash::wrap(self.hash_code, &self.digest).unwrap();
        libipld::Cid::new(version, self.codec, hash).unwrap().to_string()
    }

    /// `libipld::Cid::from_str`. The contract names the identifier after the
    /// text, reports failure exactly where the name has none, and claims no
    /// more.
    #[verifier::external_body]
    pub(crate) fn parse_text(text: &str) -> (r: Result<Cid, libipld::cid::Error>)
        ensures
            r is Ok == cid_from_text(text@) is Some,
            r is Ok ==> r->Ok_0@ == cid_from_text(text@)->0,
    {
        let c = libipld::Cid::from_str(text)?;
        Ok(Cid {
            version: c.version().into(),
            codec: c.codec(),
            hash_code: c.hash().code(),
            digest: c.hash().digest().to_vec(),
        })
    }

    /// `libipld::Cid::to_bytes`. The contract names the bytes after the
    /// identifier's parts and claims no more of them.
    #[verifier::external_body]
    pub(crate) fn binary_form(&self) -> (r: Vec<u8>)
        ensures
            r@ == cid_bytes(self@),
    {
        let version = libipld::cid::Version::try_from(self.version).unwrap();
        let hash = libipld::multihash::Multihash::wrap(self.hash_code, &self.digest).unwrap();
        libipld::Cid::new(version, self.codec, hash).unwrap().to_bytes()
    }

    /// `libipld::Cid::try_from` on a byte slice, which reads an identifier
    /// from the front of the bytes and leaves the rest unread. The contract
    /// names the identifier after the bytes and reports failure exactly where
    /// the name has none.
    #[verifier::external_body]
    pub(crate) fn parse_bytes(bytes: &Vec<u8>) -> (r: Result<Cid, libipld::cid::Error>)
        ensures
            r is Ok == cid_from_bytes(bytes@) is Some,
            r is Ok ==> r->Ok_0@ == cid_from_bytes(bytes@)->0,
    {
        let c = libipld::Cid::try_from(bytes.as_slice())?;
        Ok(Cid {
            version: c.version().into(),
            codec: c.codec(),
            hash_code: c.hash().code(),
            digest: c.hash().digest().to_vec(),
        })
    }

    /// The text form of the identifier.
    pub fn to_string(&self) -> (r: String)
        ensures
            r@ == cid_text(self@),
    {
        self.text_form()
    }

    /// Reads an identifier from its text form.
    pub fn from_str(text: &str) -> (r: Result<Cid, CidError>)
        ensures
            r is Ok == cid_from_text(text@) is Some,
            r is Ok ==> r->Ok_0@ == cid_from_text(text@)->0,
            r is Err ==> r->Err_0 == CidError::InvalidText,
    {
        match Cid::parse_text(text) {
            Ok(cid) => Ok(cid),
            Err(_) => Err(CidError::InvalidText),
        }
    }

    /// The binary form of the identifier.
    pub fn to_bytes(&self) -> (r: Vec<u8>)
        ensures
            r@ == cid_bytes(self@),
    {
        self.binary_form()
    }

    /// Reads an identifier from the front of a byte string.
    pub fn from_bytes(bytes: &Vec<u8>) -> (r: Result<Cid, CidError>)
        ensures
            r is Ok == cid_from_bytes(bytes@) is Some,
            r is Ok ==> r->Ok_0@ == cid_from_bytes(bytes@)->0,
            r is Err ==> r->Err_0 == CidError::InvalidBytes,
    {
        match Cid::parse_bytes(bytes) {
            Ok(cid) => Ok(cid),
            Err(_) => Err(CidError::InvalidBytes),
        }
    }
}

impl Clone for Cid {
    fn clone(&self) -> (r: Self)
        ensures
            r@ == self@,
    {
        proof {
            use_type_invariant(self);
        }
        Cid {
            version: self.version,
            codec: self.codec,
            hash_code: self.hash_code,
            digest: self.digest.clone(),
        }
    }
}

impl Default for Cid {
    fn default() -> (r: Self)
        ensures
            r@ == default_cid(),
    {
        let r = Cid { version: 1, codec: 0, hash_code: 0, digest: Vec::new() };
        proof {
            assert(r@.digest =~= Seq::<u8>::empty());
        }
        r
    }
}

impl PartialEq for Cid {
    fn eq(&self, other: &Self) -> (r: bool) {
        self.same(other)
    }
}

impl Eq for Cid {}

impl vstd::std_specs::cmp::PartialEqSpecImpl for Cid {
    open spec fn obeys_eq_spec() -> bool {
        true
    }

    open spec fn eq_spec(&self, other: &Self) -> bool {
        self@ == other@
    }
}

} // verus!
