//! The `ESNIKeys` record: its types, the wire layout they are read from, and
//! the structural parser.

use vstd::prelude::*;
use crate::decoder::{read_bytes, read_u16_be, read_u64_be, read_u8, u16_at, u64_at};

verus! {

/// One key-share offer: a named group and its key-exchange bytes.
#[derive(Debug, Clone)]
pub struct KeyShareEntry {
    pub group: u16,
    pub key_exchange: Vec<u8>,
}

/// A cipher suite, as its two identifying bytes.
pub type CipherSuite = (u8, u8);

/// A decoded `ESNIKeys` record.
#[derive(Debug, Clone)]
pub struct ESNIKeys {
    pub version: u16,
    pub checksum: [u8; 4],
    pub keys: Vec<KeyShareEntry>,
    pub cipher_suites: Vec<CipherSuite>,
    pub padded_length: u16,
    pub not_before: u64,
    pub not_after: u64,
    pub extensions: Vec<u8>,
}

/// Why a record is rejected.
#[derive(Debug, Clone, Copy, PartialEq, Eq, Structural)]
pub enum ParseError {
    /// The input ended before a fixed-width field or a declared block.
    Truncated,
    /// The record is complete but its checksum does not match its digest.
    ChecksumMismatch,
}

/// What a key-share entry holds.
pub struct KeyShareEntryModel {
    pub group: u16,
    pub key_exchange: Seq<u8>,
}

/// What a record holds.
pub struct ESNIKeysModel {
    pub version: u16,
    pub checksum: Seq<u8>,
    pub keys: Seq<KeyShareEntryModel>,
    pub cipher_suites: Seq<CipherSuite>,
    pub padded_length: u16,
    pub not_before: u64,
    pub not_after: u64,
    pub extensions: Seq<u8>,
}

impl View for KeyShareEntry {
    type V = KeyShareEntryModel;

    open spec fn view(&self) -> KeyShareEntryModel {
        KeyShareEntryModel { group: self.group, key_exchange: self.key_exchange@ }
    }
}

/// The views of a sequence of key-share entries.
pub open spec fn entries_view(v: Seq<KeyShareEntry>) -> Seq<KeyShareEntryModel> {
    v.map_values(|e: KeyShareEntry| e@)
}

impl View for ESNIKeys {
    type V = ESNIKeysModel;

    open spec fn view(&self) -> ESNIKeysModel {
        ESNIKeysModel {
            version: self.version,
            checksum: self.checksum@,
            keys: entries_view(self.keys@),
            cipher_suites: self.cipher_suites@,
            padded_length: self.padded_length,
            not_before: self.not_before,
            not_after: self.not_after,
            extensions: self.extensions@,
        }
    }
}

// Wire layout. Offsets are from the start of the record:
//   version 0..2, checksum 2..6, key-share block length 6..8, key-share block,
//   cipher-suite block length, cipher-suite block, padded length (2),
//   not_before (8), not_after (8), extensions length (2), extensions.
/// Offset of the checksum field.
pub const CHECKSUM_START: usize = 2;

/// Offset just past the checksum field.
pub const CHECKSUM_END: usize = 6;

/// Offset just past the key-share block.
pub open spec fn key_shares_end(s: Seq<u8>) -> int {
    8 + u16_at(s, 6)
}

/// Offset just past the cipher-suite block.
pub open spec fn suites_end(s: Seq<u8>) -> int {
    key_shares_end(s) + 2 + u16_at(s, key_shares_end(s))
}

/// Offset of the extensions block.
pub open spec fn extensions_start(s: Seq<u8>) -> int {
    suites_end(s) + 20
}

/// Offset just past the record, as its length fields declare it.
pub open spec fn record_end(s: Seq<u8>) -> int {
    extensions_start(s) + u16_at(s, extensions_start(s) - 2)
}

/// `s` is long enough for every field and block that its length fields declare.
pub open spec fn well_formed(s: Seq<u8>) -> bool {
    &&& s.len() >= 8
    &&& s.len() >= key_shares_end(s) + 2
    &&& s.len() >= extensions_start(s)
    &&& s.len() >= record_end(s)
}

/// The key-share entries read from the front of a block, up to the first one
/// that does not fit in what is left.
pub open spec fn key_shares(s: Seq<u8>) -> Seq<KeyShareEntryModel>
    decreases s.len(),
{
    if s.len() >= 4 && s.len() >= 4 + u16_at(s, 2) {
        seq![KeyShareEntryModel {
            group: u16_at(s, 0) as u16,
            key_exchange: s.subrange(4, 4 + u16_at(s, 2)),
        }] + key_shares(s.subrange(4 + u16_at(s, 2), s.len() as int))
    } else {
        seq![]
    }
}

/// The cipher suites read from a block, two bytes each; an odd last byte is
/// left over.
pub open spec fn cipher_suites(s: Seq<u8>) -> Seq<CipherSuite>
    decreases s.len(),
{
    if s.len() >= 2 {
        seq![(s[0], s[1])] + cipher_suites(s.subrange(2, s.len() as int))
    } else {
        seq![]
    }
}

/// The record that a well-formed `s` holds.
pub open spec fn record_of(s: Seq<u8>) -> ESNIKeysModel {
    ESNIKeysModel {
        version: u16_at(s, 0) as u16,
        checksum: s.subrange(2, 6),
        keys: key_shares(s.subrange(8, key_shares_end(s))),
        cipher_suites: cipher_suites(s.subrange(key_shares_end(s) + 2, suites_end(s))),
        padded_length: u16_at(s, suites_end(s)) as u16,
        not_before: u64_at(s, suites_end(s) + 2) as u64,
        not_after: u64_at(s, suites_end(s) + 10) as u64,
        extensions: s.subrange(extensions_start(s), record_end(s)),
    }
}

/// Reads one key-share entry: group, key-exchange length, key-exchange bytes.
pub fn parse_key_share_entry(input: &[u8]) -> (r: Option<(KeyShareEntry, &[u8])>)
    ensures
        match r {
            Some((e, rest)) => {
                &&& input@.len() >= 4 && input@.len() >= 4 + u16_at(input@, 2)
                &&& e@ == key_shares(input@)[0]
                &&& rest@ == input@.subrange(4 + u16_at(input@, 2), input@.len() as int)
            },
            None => !(input@.len() >= 4 && input@.len() >= 4 + u16_at(input@, 2)),
        },
{
    let (group, rest) = match read_u16_be(input) {
        Ok(x) => x,
        Err(_) => return None,
    };
    let (len, rest) = match read_u16_be(rest) {
        Ok(x) => x,
        Err(_) => return None,
    };
    let (key_exchange, rest) = match read_bytes(rest, len as usize) {
        Ok(x) => x,
        Err(_) => return None,
    };
    proof {
        assert(key_exchange@ =~= input@.subrange(4, 4 + u16_at(input@, 2)));
        assert(rest@ =~= input@.subrange(4 + u16_at(input@, 2), input@.len() as int));
    }
    Some((KeyShareEntry { group, key_exchange }, rest))
}

/// Reads key-share entries from the front of a block until one does not fit.
pub fn parse_key_share_entrys(input: &[u8]) -> (r: Vec<KeyShareEntry>)
    ensures
        entries_view(r@) == key_shares(input@),
{
    let mut out: Vec<KeyShareEntry> = Vec::new();
    let mut rest = input;
    while rest.len() > 0
        invariant
            entries_view(out@) + key_shares(rest@) == key_shares(input@),
        decreases rest@.len(),
    {
        match parse_key_share_entry(rest) {
            Some((e, next)) => {
                proof {
                    assert(entries_view(out@.push(e)) =~= entries_view(out@).push(e@));
                    assert(entries_view(out@).push(e@) + key_shares(next@) =~= entries_view(out@)
                        + key_shares(rest@));
                }
                out.push(e);
                rest = next;
            },
            None => {
                proof {
                    assert(entries_view(out@) + key_shares(rest@) =~= entries_view(out@));
                }
                return out;
            },
        }
    }
    proof {
        assert(entries_view(out@) + key_shares(rest@) =~= entries_view(out@));
    }
    out
}

/// Reads two-byte cipher suites from a block until fewer than two bytes are left.
pub fn parse_cipher_suites(input: &[u8]) -> (r: Vec<CipherSuite>)
    ensures
        r@ == cipher_suites(input@),
{
    let mut out: Vec<CipherSuite> = Vec::new();
    let mut rest = input;
    while rest.len() >= 2
        invariant
            out@ + cipher_suites(rest@) == cipher_suites(input@),
        decreases rest@.len(),
    {
        let (b0, next) = match read_u8(rest) {
            Ok(x) => x,
            Err(_) => return out,
        };
        let (b1, next) = match read_u8(next) {
            Ok(x) => x,
            Err(_) => return out,
        };
        proof {
            assert(next@ =~= rest@.subrange(2, rest@.len() as int));
            assert(out@.push((b0, b1)) + cipher_suites(next@) =~= out@ + cipher_suites(rest@));
        }
        out.push((b0, b1));
        rest = next;
    }
    proof {
        assert(out@ + cipher_suites(rest@) =~= out@);
    }
    out
}

/// Reads a block prefixed by its 16-bit length.
fn read_block(input: &[u8]) -> (r: Option<(&[u8], &[u8])>)
    ensures
        match r {
            Some((block, rest)) => {
                &&& input@.len() >= 2 && input@.len() >= 2 + u16_at(input@, 0)
                &&& block@ == input@.subrange(2, 2 + u16_at(input@, 0))
                &&& rest@ == input@.subrange(2 + u16_at(input@, 0), input@.len() as int)
            },
            None => !(input@.len() >= 2 && input@.len() >= 2 + u16_at(input@, 0)),
        },
{
    let (len, rest) = match read_u16_be(input) {
        Ok(x) => x,
        Err(_) => return None,
    };
    if rest.len() < len as usize {
        return None;
    }
    let block = &rest[0..len as usize];
    let after = &rest[len as usize..rest.len()];
    assert(block@ =~= input@.subrange(2, 2 + u16_at(input@, 0)));
    assert(after@ =~= input@.subrange(2 + u16_at(input@, 0), input@.len() as int));
    Some((block, after))
}

/// Reads the four checksum bytes.
fn read_checksum(input: &[u8]) -> (r: Option<([u8; 4], &[u8])>)
    ensures
        match r {
            Some((c, rest)) => input@.len() >= 4 && c@ == input@.subrange(0, 4) && rest@
                == input@.subrange(4, input@.len() as int),
            None => input@.len() < 4,
        },
{
    if input.len() < 4 {
        return None;
    }
    let c: [u8; 4] = [input[0], input[1], input[2], input[3]];
    assert(c@ =~= input@.subrange(0, 4));
    Some((c, &input[4..input.len()]))
}

/// The fields that follow the cipher-suite block: padded length, validity
/// window and extensions.
struct Trailer {
    padded_length: u16,
    not_before: u64,
    not_after: u64,
    extensions: Vec<u8>,
}

/// Reads the fields that follow the cipher-suite block.
fn read_trailer(input: &[u8]) -> (r: Option<Trailer>)
    ensures
        match r {
            Some(t) => {
                &&& input@.len() >= 20 && input@.len() >= 20 + u16_at(input@, 18)
                &&& t.padded_length == u16_at(input@, 0)
                &&& t.not_before == u64_at(input@, 2)
                &&& t.not_after == u64_at(input@, 10)
                &&& t.extensions@ == input@.subrange(20, 20 + u16_at(input@, 18))
            },
            None => !(input@.len() >= 20 && input@.len() >= 20 + u16_at(input@, 18)),
        },
{
    let (padded_length, rest) = match read_u16_be(input) {
        Ok(x) => x,
        Err(_) => return None,
    };
    let (not_before, rest) = match read_u64_be(rest) {
        Ok(x) => x,
        Err(_) => return None,
    };
    let (not_after, rest) = match read_u64_be(rest) {
        Ok(x) => x,
        Err(_) => return None,
    };
    let (len, rest) = match read_u16_be(rest) {
        Ok(x) => x,
        Err(_) => return None,
    };
    assert(rest@ =~= input@.subrange(20, input@.len() as int));
    let (extensions, _rest) = match read_bytes(rest, len as usize) {
        Ok(x) => x,
        Err(_) => return None,
    };
    assert(extensions@ =~= input@.subrange(20, 20 + u16_at(input@, 18)));
    Some(Trailer { padded_length, not_before, not_after, extensions })
}

/// Decodes the fields of a record in wire order, without looking at its
/// checksum. Bytes past the declared end are ignored.
pub fn parse(bytes: &[u8]) -> (r: Result<ESNIKeys, ParseError>)
    ensures
        match r {
            Ok(k) => well_formed(bytes@) && k@ == record_of(bytes@),
            Err(e) => !well_formed(bytes@) && e == ParseError::Truncated,
        },
{
    let ghost s = bytes@;
    let (version, rest) = match read_u16_be(bytes) {
        Ok(x) => x,
        Err(_) => return Err(ParseError::Truncated),
    };
    let (checksum, rest) = match read_checksum(rest) {
        Some(x) => x,
        None => return Err(ParseError::Truncated),
    };
    assert(rest@ =~= s.subrange(6, s.len() as int));
    let (ks_block, rest) = match read_block(rest) {
        Some(x) => x,
        None => return Err(ParseError::Truncated),
    };
    let ghost ks_end = key_shares_end(s);
    assert(ks_block@ =~= s.subrange(8, ks_end));
    assert(rest@ =~= s.subrange(ks_end, s.len() as int));
    let (cs_block, rest) = match read_block(rest) {
        Some(x) => x,
        None => return Err(ParseError::Truncated),
    };
    let ghost cs_end = suites_end(s);
    assert(cs_block@ =~= s.subrange(ks_end + 2, cs_end));
    assert(rest@ =~= s.subrange(cs_end, s.len() as int));
    let t = match read_trailer(rest) {
        Some(t) => t,
        None => return Err(ParseError::Truncated),
    };
    assert(checksum@ =~= s.subrange(2, 6));
    assert(t.padded_length == u16_at(s, cs_end));
    assert(t.not_before == u64_at(s, cs_end + 2));
    assert(t.not_after == u64_at(s, cs_end + 10));
    assert(u16_at(rest@, 18) == u16_at(s, extensions_start(s) - 2));
    assert(t.extensions@ =~= s.subrange(extensions_start(s), record_end(s)));
    let keys = parse_key_share_entrys(ks_block);
    let cipher_suites = parse_cipher_suites(cs_block);
    Ok(
        ESNIKeys {
            version,
            checksum,
            keys,
            cipher_suites,
            padded_length: t.padded_length,
            not_before: t.not_before,
            not_after: t.not_after,
            extensions: t.extensions,
        },
    )
}

} // verus!
