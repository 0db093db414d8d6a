//! The record's self-checksum: the first four bytes of the SHA-256 digest of
//! the whole input with the checksum field zeroed.

use sha2::{Digest, Sha256};
use vstd::prelude::*;
use vstd::slice::slice_to_vec;
use crate::encode::{encodable, record_bytes};
use crate::laws::lemma_round_trip;
use crate::record::{
    parse, record_of, well_formed, ESNIKeys, ESNIKeysModel, ParseError, CHECKSUM_END,
    CHECKSUM_START,
};

verus! {

/// The SHA-256 digest of `data`.
pub uninterp spec fn sha256_of(data: Seq<u8>) -> Seq<u8>;

/// Relies on `sha2::Sha256::digest`: the SHA-256 digest of `data`, whose
/// output size is 32 bytes.
#[verifier::external_body]
fn sha256(data: &[u8]) -> (r: Vec<u8>)
    ensures
        r@ == sha256_of(data@),
        r@.len() == 32,
{
    Sha256::digest(data).to_vec()
}

/// `i` lies in the checksum field.
pub open spec fn in_checksum_field(i: int) -> bool {
    CHECKSUM_START <= i < CHECKSUM_END
}

/// `s` with the bytes of the checksum field that it has set to zero.
pub open spec fn checksum_domain_of(s: Seq<u8>) -> Seq<u8> {
    Seq::new(s.len(), |i: int| if in_checksum_field(i) { 0u8 } else { s[i] })
}

/// The first four bytes of `digest` are `checksum`.
pub open spec fn digest_matches(digest: Seq<u8>, checksum: Seq<u8>) -> bool {
    digest.len() >= 4 && digest.subrange(0, 4) == checksum
}

/// The checksum field of `s` matches the digest of `s` with that field zeroed.
pub open spec fn checksum_ok(s: Seq<u8>) -> bool {
    digest_matches(sha256_of(checksum_domain_of(s)), s.subrange(CHECKSUM_START as int, CHECKSUM_END as int))
}

/// A copy of `bytes` with the checksum field zeroed: the input of the digest.
pub fn checksum_domain(bytes: &[u8]) -> (r: Vec<u8>)
    ensures
        r@ == checksum_domain_of(bytes@),
{
    let mut v = slice_to_vec(bytes);
    let mut i: usize = CHECKSUM_START;
    while i < CHECKSUM_END && i < v.len()
        invariant
            v@.len() == bytes@.len(),
            CHECKSUM_START <= i <= CHECKSUM_END,
            forall|j: int|
                0 <= j < v@.len() ==> #[trigger] v@[j] == if CHECKSUM_START <= j < i {
                    0u8
                } else {
                    bytes@[j]
                },
        decreases CHECKSUM_END - i,
    {
        v.set(i, 0);
        i = i + 1;
    }
    assert(v@ =~= checksum_domain_of(bytes@));
    v
}

/// Accepts `candidate` when the first four bytes of `digest` equal its
/// checksum field.
pub fn check_digest(digest: &[u8], candidate: ESNIKeys) -> (r: Result<ESNIKeys, ParseError>)
    ensures
        match r {
            Ok(k) => digest_matches(digest@, candidate.checksum@) && k@ == candidate@,
            Err(e) => !digest_matches(digest@, candidate.checksum@) && e
                == ParseError::ChecksumMismatch,
        },
{
    if digest.len() < 4 {
        return Err(ParseError::ChecksumMismatch);
    }
    let mut i: usize = 0;
    while i < 4
        invariant
            digest@.len() >= 4,
            i <= 4,
            forall|j: int| 0 <= j < i ==> digest@[j] == candidate.checksum@[j],
        decreases 4 - i,
    {
        if digest[i] != candidate.checksum[i] {
            return Err(ParseError::ChecksumMismatch);
        }
        i = i + 1;
    }
    assert(digest@.subrange(0, 4) =~= candidate.checksum@);
    Ok(candidate)
}

/// Accepts `candidate`, decoded from `bytes`, when its checksum field equals
/// the first four bytes of the SHA-256 digest of `bytes` with the checksum
/// field zeroed.
pub fn verify_checksum(bytes: &[u8], candidate: ESNIKeys) -> (r: Result<ESNIKeys, ParseError>)
    ensures
        match r {
            Ok(k) => digest_matches(sha256_of(checksum_domain_of(bytes@)), candidate.checksum@)
                && k@ == candidate@,
            Err(e) => !digest_matches(sha256_of(checksum_domain_of(bytes@)), candidate.checksum@)
                && e == ParseError::ChecksumMismatch,
        },
{
    let domain = checksum_domain(bytes);
    let digest = sha256(domain.as_slice());
    check_digest(digest.as_slice(), candidate)
}

/// Decodes a record and checks its checksum. A record that is cut short is
/// `Truncated`; a complete one whose checksum does not match is
/// `ChecksumMismatch`.
pub fn parse_esnikeys(bytes: &[u8]) -> (r: Result<ESNIKeys, ParseError>)
    ensures
        match r {
            Ok(k) => well_formed(bytes@) && checksum_ok(bytes@) && k@ == record_of(bytes@),
            Err(ParseError::Truncated) => !well_formed(bytes@),
            Err(ParseError::ChecksumMismatch) => well_formed(bytes@) && !checksum_ok(bytes@),
        },
{
    let candidate = match parse(bytes) {
        Ok(k) => k,
        Err(e) => return Err(e),
    };
    verify_checksum(bytes, candidate)
}

/// `k` with its checksum field replaced by the one its wire form calls for.
pub open spec fn with_recomputed_checksum(k: ESNIKeysModel) -> ESNIKeysModel {
    ESNIKeysModel {
        checksum: sha256_of(checksum_domain_of(record_bytes(k))).subrange(0, 4),
        ..k
    }
}

impl ESNIKeys {
    /// The record in wire form with its checksum field recomputed from the
    /// other bytes, so that it passes `parse_esnikeys`; `None` when a length
    /// does not fit its 16-bit prefix.
    pub fn to_bytes_with_checksum(&self) -> (r: Option<Vec<u8>>)
        ensures
            match r {
                Some(b) => {
                    &&& encodable(self@)
                    &&& b@ == record_bytes(with_recomputed_checksum(self@))
                    &&& well_formed(b@)
                    &&& checksum_ok(b@)
                    &&& record_of(b@) == with_recomputed_checksum(self@)
                },
                None => !encodable(self@),
            },
    {
        let mut b = match self.to_bytes() {
            Some(b) => b,
            None => return None,
        };
        let ghost plain = b@;
        let domain = checksum_domain(b.as_slice());
        let digest = sha256(domain.as_slice());
        let mut i: usize = CHECKSUM_START;
        while i < CHECKSUM_END
            invariant
                CHECKSUM_START <= i <= CHECKSUM_END,
                b@.len() == plain.len(),
                plain.len() >= CHECKSUM_END,
                digest@.len() == 32,
                forall|j: int|
                    0 <= j < plain.len() ==> #[trigger] b@[j] == if CHECKSUM_START <= j < i {
                        digest@[j - CHECKSUM_START]
                    } else {
                        plain[j]
                    },
            decreases CHECKSUM_END - i,
        {
            b.set(i, digest[i - CHECKSUM_START]);
            i = i + 1;
        }
        proof {
            let k2 = with_recomputed_checksum(self@);
            assert(checksum_domain_of(b@) =~= checksum_domain_of(plain));
            assert(b@ =~= record_bytes(k2));
            lemma_round_trip(k2);
            assert(b@.subrange(CHECKSUM_START as int, CHECKSUM_END as int) =~= digest@.subrange(0, 4));
        }
        Some(b)
    }
}

} // verus!
