//! Writing a record back out in its wire layout.

use vstd::prelude::*;
use vstd::slice::slice_to_vec;
use crate::decoder::{u16_at, u64_at};
use crate::record::{entries_view, CipherSuite, ESNIKeys, ESNIKeysModel, KeyShareEntryModel};

verus! {

/// `v` as two big-endian bytes.
pub open spec fn be16_bytes(v: int) -> Seq<u8> {
    seq![(v / 0x100) as u8, (v % 0x100) as u8]
}

/// `v` as four big-endian bytes.
pub open spec fn be32_bytes(v: int) -> Seq<u8> {
    be16_bytes(v / 0x1_0000) + be16_bytes(v % 0x1_0000)
}

/// `v` as eight big-endian bytes.
pub open spec fn be64_bytes(v: int) -> Seq<u8> {
    be32_bytes(v / 0x1_0000_0000) + be32_bytes(v % 0x1_0000_0000)
}

/// One key-share entry in wire form.
pub open spec fn entry_bytes(e: KeyShareEntryModel) -> Seq<u8> {
    be16_bytes(e.group as int) + be16_bytes(e.key_exchange.len() as int) + e.key_exchange
}

/// A key-share block holding `es`, in order.
pub open spec fn key_shares_bytes(es: Seq<KeyShareEntryModel>) -> Seq<u8>
    decreases es.len(),
{
    if es.len() == 0 {
        seq![]
    } else {
        key_shares_bytes(es.drop_last()) + entry_bytes(es.last())
    }
}

/// A cipher-suite block holding `cs`, in order.
pub open spec fn suites_bytes(cs: Seq<CipherSuite>) -> Seq<u8>
    decreases cs.len(),
{
    if cs.len() == 0 {
        seq![]
    } else {
        suites_bytes(cs.drop_last()) + seq![cs.last().0, cs.last().1]
    }
}

/// Every key-exchange value of `es` fits a 16-bit length.
pub open spec fn entries_encodable(es: Seq<KeyShareEntryModel>) -> bool {
    forall|i: int| 0 <= i < es.len() ==> #[trigger] es[i].key_exchange.len() <= 0xffff
}

/// `k` can be written out: a four-byte checksum, and every length prefix fits
/// in 16 bits.
pub open spec fn encodable(k: ESNIKeysModel) -> bool {
    &&& k.checksum.len() == 4
    &&& entries_encodable(k.keys)
    &&& key_shares_bytes(k.keys).len() <= 0xffff
    &&& suites_bytes(k.cipher_suites).len() <= 0xffff
    &&& k.extensions.len() <= 0xffff
}

/// The bytes up to and including the key-share block's length.
pub open spec fn head_bytes(k: ESNIKeysModel) -> Seq<u8> {
    be16_bytes(k.version as int) + k.checksum + be16_bytes(key_shares_bytes(k.keys).len() as int)
}

/// The bytes from the padded length up to the extensions block.
pub open spec fn tail_bytes(k: ESNIKeysModel) -> Seq<u8> {
    be16_bytes(k.padded_length as int) + be64_bytes(k.not_before as int) + be64_bytes(
        k.not_after as int,
    ) + be16_bytes(k.extensions.len() as int)
}

/// `k` in wire form.
pub open spec fn record_bytes(k: ESNIKeysModel) -> Seq<u8> {
    head_bytes(k) + key_shares_bytes(k.keys) + be16_bytes(suites_bytes(k.cipher_suites).len() as int)
        + suites_bytes(k.cipher_suites) + tail_bytes(k) + k.extensions
}

/// Two big-endian bytes read back give the value written.
pub proof fn lemma_be16_read(v: int)
    requires
        0 <= v <= 0xffff,
    ensures
        be16_bytes(v).len() == 2,
        u16_at(be16_bytes(v), 0) == v,
{
}

/// Eight big-endian bytes read back give the value written.
pub proof fn lemma_be64_read(v: int)
    requires
        0 <= v <= 0xffff_ffff_ffff_ffff,
    ensures
        be64_bytes(v).len() == 8,
        u64_at(be64_bytes(v), 0) == v,
{
    let hi = v / 0x1_0000_0000;
    let lo = v % 0x1_0000_0000;
    assert(0 <= hi <= 0xffff_ffff);
    let s = be64_bytes(v);
    assert(s[0] as int == hi / 0x1_0000 / 0x100);
    assert(u16_at(s, 0) == hi / 0x1_0000);
    assert(u16_at(s, 2) == hi % 0x1_0000);
    assert(u16_at(s, 4) == lo / 0x1_0000);
    assert(u16_at(s, 6) == lo % 0x1_0000);
}

/// Appends `x` as two big-endian bytes.
fn push_u16(out: &mut Vec<u8>, x: u16)
    ensures
        final(out)@ == old(out)@ + be16_bytes(x as int),
{
    out.push((x / 0x100) as u8);
    out.push((x % 0x100) as u8);
    assert(final(out)@ =~= old(out)@ + be16_bytes(x as int));
}

/// Appends `x` as eight big-endian bytes.
fn push_u64(out: &mut Vec<u8>, x: u64)
    ensures
        final(out)@ == old(out)@ + be64_bytes(x as int),
{
    let hi: u64 = x / 0x1_0000_0000;
    let lo: u64 = x % 0x1_0000_0000;
    push_u16(out, (hi / 0x1_0000) as u16);
    push_u16(out, (hi % 0x1_0000) as u16);
    push_u16(out, (lo / 0x1_0000) as u16);
    push_u16(out, (lo % 0x1_0000) as u16);
    assert(final(out)@ =~= old(out)@ + be64_bytes(x as int));
}

/// Appends a copy of `b`.
fn push_bytes(out: &mut Vec<u8>, b: &[u8])
    ensures
        final(out)@ == old(out)@ + b@,
{
    let mut tail = slice_to_vec(b);
    out.append(&mut tail);
}

impl ESNIKeys {
    /// The record in wire form, with its checksum field as it stands; `None`
    /// when a key-exchange value, a block or the extensions is too long for
    /// its 16-bit length prefix.
    pub fn to_bytes(&self) -> (r: Option<Vec<u8>>)
        ensures
            match r {
                Some(b) => encodable(self@) && b@ == record_bytes(self@),
                None => !encodable(self@),
            },
    {
        let mut ks: Vec<u8> = Vec::new();
        let mut i: usize = 0;
        while i < self.keys.len()
            invariant
                i <= self.keys@.len(),
                entries_encodable(entries_view(self.keys@).take(i as int)),
                ks@ == key_shares_bytes(entries_view(self.keys@).take(i as int)),
                ks@.len() <= 0xffff,
            decreases self.keys@.len() - i,
        {
            let e = &self.keys[i];
            let ghost es = entries_view(self.keys@);
            if e.key_exchange.len() > 0xffff {
                assert(es[i as int].key_exchange.len() > 0xffff);
                return None;
            }
            if ks.len() + 4 + e.key_exchange.len() > 0xffff {
                proof {
                    lemma_key_shares_bytes_grow(es, i as int + 1, es.len() as int);
                    assert(es.take(i as int + 1).drop_last() =~= es.take(i as int));
                    assert(es.take(i as int + 1).last() == es[i as int]);
                    assert(es.take(es.len() as int) =~= es);
                }
                return None;
            }
            push_u16(&mut ks, e.group);
            push_u16(&mut ks, e.key_exchange.len() as u16);
            push_bytes(&mut ks, e.key_exchange.as_slice());
            proof {
                assert(es.take(i as int + 1).drop_last() =~= es.take(i as int));
                assert(ks@ =~= key_shares_bytes(es.take(i as int)) + entry_bytes(es[i as int]));
            }
            i = i + 1;
        }
        assert(entries_view(self.keys@).take(self.keys@.len() as int) =~= entries_view(self.keys@));
        let mut cs: Vec<u8> = Vec::new();
        let mut j: usize = 0;
        while j < self.cipher_suites.len()
            invariant
                j <= self.cipher_suites@.len(),
                cs@ == suites_bytes(self.cipher_suites@.take(j as int)),
                cs@.len() <= 0xffff,
            decreases self.cipher_suites@.len() - j,
        {
            let ghost c = self.cipher_suites@;
            if cs.len() > 0xffff - 2 {
                proof {
                    lemma_suites_bytes_grow(c, j as int + 1, c.len() as int);
                    assert(c.take(j as int + 1).drop_last() =~= c.take(j as int));
                    assert(c.take(c.len() as int) =~= c);
                }
                return None;
            }
            let (b0, b1) = self.cipher_suites[j];
            cs.push(b0);
            cs.push(b1);
            proof {
                assert(c.take(j as int + 1).drop_last() =~= c.take(j as int));
                assert(cs@ =~= suites_bytes(c.take(j as int + 1)));
            }
            j = j + 1;
        }
        assert(self.cipher_suites@.take(self.cipher_suites@.len() as int) =~= self.cipher_suites@);
        if self.extensions.len() > 0xffff {
            return None;
        }
        let mut out: Vec<u8> = Vec::new();
        push_u16(&mut out, self.version);
        push_bytes(&mut out, self.checksum.as_slice());
        push_u16(&mut out, ks.len() as u16);
        push_bytes(&mut out, ks.as_slice());
        push_u16(&mut out, cs.len() as u16);
        push_bytes(&mut out, cs.as_slice());
        push_u16(&mut out, self.padded_length);
        push_u64(&mut out, self.not_before);
        push_u64(&mut out, self.not_after);
        push_u16(&mut out, self.extensions.len() as u16);
        push_bytes(&mut out, self.extensions.as_slice());
        assert(out@ =~= record_bytes(self@));
        Some(out)
    }
}

/// A key-share block only grows as entries are added.
proof fn lemma_key_shares_bytes_grow(es: Seq<KeyShareEntryModel>, i: int, j: int)
    requires
        0 <= i <= j <= es.len(),
    ensures
        key_shares_bytes(es.take(i)).len() <= key_shares_bytes(es.take(j)).len(),
    decreases j - i,
{
    if i < j {
        lemma_key_shares_bytes_grow(es, i, j - 1);
        assert(es.take(j).drop_last() =~= es.take(j - 1));
    }
}

/// A cipher-suite block only grows as suites are added.
proof fn lemma_suites_bytes_grow(cs: Seq<CipherSuite>, i: int, j: int)
    requires
        0 <= i <= j <= cs.len(),
    ensures
        suites_bytes(cs.take(i)).len() <= suites_bytes(cs.take(j)).len(),
    decreases j - i,
{
    if i < j {
        lemma_suites_bytes_grow(cs, i, j - 1);
        assert(cs.take(j).drop_last() =~= cs.take(j - 1));
    }
}

} // verus!
