//! Properties of the parser, stated over the wire layout and proved.

use vstd::prelude::*;
use crate::checksum::{checksum_domain_of, checksum_ok};
use crate::decoder::{u16_at, u64_at};
use crate::encode::{
    be16_bytes, be64_bytes, encodable, entries_encodable, entry_bytes, head_bytes,
    key_shares_bytes, lemma_be16_read, lemma_be64_read, record_bytes, suites_bytes, tail_bytes,
};
use crate::record::{
    cipher_suites, extensions_start, key_shares, key_shares_end, record_end, record_of,
    suites_end, well_formed, CipherSuite, ESNIKeysModel, KeyShareEntryModel, CHECKSUM_END,
    CHECKSUM_START,
};

verus! {

/// A buffer cut anywhere before the end that a complete record's length
/// fields declare is not a complete record: parsing it reports truncation.
pub proof fn lemma_truncated_prefix(s: Seq<u8>, n: int)
    requires
        well_formed(s),
        0 <= n < record_end(s),
    ensures
        !well_formed(s.subrange(0, n)),
{
    let t = s.subrange(0, n);
    if t.len() >= 8 {
        assert(u16_at(t, 6) == u16_at(s, 6));
        let k = key_shares_end(s);
        if t.len() >= k + 2 {
            assert(u16_at(t, k) == u16_at(s, k));
            let e = extensions_start(s);
            if t.len() >= e {
                assert(u16_at(t, e - 2) == u16_at(s, e - 2));
            }
        }
    }
}

/// `s` does not begin with a whole key-share entry.
pub open spec fn entry_incomplete(s: Seq<u8>) -> bool {
    !(s.len() >= 4 && s.len() >= 4 + u16_at(s, 2))
}

proof fn lemma_key_shares_bytes_front(e: KeyShareEntryModel, es: Seq<KeyShareEntryModel>)
    ensures
        key_shares_bytes(seq![e] + es) == entry_bytes(e) + key_shares_bytes(es),
    decreases es.len(),
{
    let x = seq![e] + es;
    if es.len() == 0 {
        assert(x.drop_last() =~= Seq::<KeyShareEntryModel>::empty());
        assert(key_shares_bytes(x.drop_last()) == Seq::<u8>::empty());
        assert(x.last() == e);
        assert(key_shares_bytes(x) =~= entry_bytes(e) + key_shares_bytes(es));
    } else {
        assert(x.drop_last() =~= seq![e] + es.drop_last());
        lemma_key_shares_bytes_front(e, es.drop_last());
        assert(x.last() == es.last());
        assert(key_shares_bytes(x) == key_shares_bytes(seq![e] + es.drop_last()) + entry_bytes(
            es.last(),
        ));
        assert(key_shares_bytes(x) =~= entry_bytes(e) + key_shares_bytes(es));
    }
}

/// Key-share entries written one after another, followed by bytes that do not
/// make up another entry, read back as exactly those entries: the trailing
/// bytes end the list without failing it.
pub proof fn lemma_key_shares_prefix_maximal(es: Seq<KeyShareEntryModel>, t: Seq<u8>)
    requires
        entries_encodable(es),
        entry_incomplete(t),
    ensures
        key_shares(key_shares_bytes(es) + t) == es,
    decreases es.len(),
{
    let s = key_shares_bytes(es) + t;
    if es.len() == 0 {
        assert(s =~= t);
        assert(key_shares(t) =~= es);
    } else {
        let e = es[0];
        let rest = es.drop_first();
        assert(es =~= seq![e] + rest);
        lemma_key_shares_bytes_front(e, rest);
        assert(entries_encodable(rest)) by {
            assert forall|i: int| 0 <= i < rest.len() implies #[trigger] rest[i].key_exchange.len()
                <= 0xffff by {
                assert(rest[i] == es[i + 1]);
            }
        }
        lemma_key_shares_prefix_maximal(rest, t);
        let len = e.key_exchange.len() as int;
        lemma_be16_read(e.group as int);
        lemma_be16_read(len);
        assert(s.subrange(0, 2) =~= be16_bytes(e.group as int));
        assert(s.subrange(2, 4) =~= be16_bytes(len));
        assert(u16_at(s.subrange(0, 2), 0) == u16_at(s, 0));
        assert(u16_at(s.subrange(2, 4), 0) == u16_at(s, 2));
        assert(s.subrange(4, 4 + len) =~= e.key_exchange);
        assert(s.subrange(4 + len, s.len() as int) =~= key_shares_bytes(rest) + t);
        assert(key_shares(s) =~= es);
    }
}

/// Cipher suites written one after another, followed by fewer than two bytes,
/// read back as exactly those suites.
pub proof fn lemma_suites_prefix_maximal(cs: Seq<CipherSuite>, t: Seq<u8>)
    requires
        t.len() < 2,
    ensures
        cipher_suites(suites_bytes(cs) + t) == cs,
    decreases cs.len(),
{
    let s = suites_bytes(cs) + t;
    if cs.len() == 0 {
        assert(s =~= t);
        assert(cipher_suites(t) =~= cs);
    } else {
        let c = cs[0];
        let rest = cs.drop_first();
        assert(cs =~= seq![c] + rest);
        lemma_suites_bytes_front(c, rest);
        lemma_suites_prefix_maximal(rest, t);
        assert(s.subrange(2, s.len() as int) =~= suites_bytes(rest) + t);
        assert(cipher_suites(s) =~= cs);
    }
}

proof fn lemma_suites_bytes_front(c: CipherSuite, cs: Seq<CipherSuite>)
    ensures
        suites_bytes(seq![c] + cs) == seq![c.0, c.1] + suites_bytes(cs),
    decreases cs.len(),
{
    let x = seq![c] + cs;
    if cs.len() == 0 {
        assert(x.drop_last() =~= Seq::<CipherSuite>::empty());
        assert(suites_bytes(x.drop_last()) == Seq::<u8>::empty());
        assert(x.last() == c);
        assert(suites_bytes(x) =~= seq![c.0, c.1] + suites_bytes(cs));
    } else {
        assert(x.drop_last() =~= seq![c] + cs.drop_last());
        lemma_suites_bytes_front(c, cs.drop_last());
        assert(x.last() == cs.last());
        assert(suites_bytes(x) == suites_bytes(seq![c] + cs.drop_last()) + seq![
            cs.last().0,
            cs.last().1,
        ]);
        assert(suites_bytes(x) =~= seq![c.0, c.1] + suites_bytes(cs));
    }
}

proof fn lemma_key_shares_bytes_concat(a: Seq<KeyShareEntryModel>, b: Seq<KeyShareEntryModel>)
    ensures
        key_shares_bytes(a + b) == key_shares_bytes(a) + key_shares_bytes(b),
    decreases b.len(),
{
    if b.len() == 0 {
        assert(a + b =~= a);
        assert(key_shares_bytes(a) + key_shares_bytes(b) =~= key_shares_bytes(a));
    } else {
        assert((a + b).drop_last() =~= a + b.drop_last());
        assert((a + b).last() == b.last());
        lemma_key_shares_bytes_concat(a, b.drop_last());
        assert(key_shares_bytes(a + b) =~= key_shares_bytes(a) + key_shares_bytes(b));
    }
}

proof fn lemma_suites_bytes_concat(a: Seq<CipherSuite>, b: Seq<CipherSuite>)
    ensures
        suites_bytes(a + b) == suites_bytes(a) + suites_bytes(b),
    decreases b.len(),
{
    if b.len() == 0 {
        assert(a + b =~= a);
        assert(suites_bytes(a) + suites_bytes(b) =~= suites_bytes(a));
    } else {
        assert((a + b).drop_last() =~= a + b.drop_last());
        assert((a + b).last() == b.last());
        lemma_suites_bytes_concat(a, b.drop_last());
        assert(suites_bytes(a + b) =~= suites_bytes(a) + suites_bytes(b));
    }
}

/// Entries that come first in a key-share block come first in the list read
/// from it: the block of `a` followed by the block of `b` reads as `a` then `b`.
pub proof fn lemma_key_shares_order(a: Seq<KeyShareEntryModel>, b: Seq<KeyShareEntryModel>)
    requires
        entries_encodable(a),
        entries_encodable(b),
    ensures
        key_shares(key_shares_bytes(a) + key_shares_bytes(b)) == a + b,
{
    lemma_key_shares_bytes_concat(a, b);
    assert(entries_encodable(a + b)) by {
        assert forall|i: int| 0 <= i < (a + b).len() implies #[trigger] (a
            + b)[i].key_exchange.len() <= 0xffff by {
            if i >= a.len() {
                assert((a + b)[i] == b[i - a.len()]);
            }
        }
    }
    lemma_key_shares_prefix_maximal(a + b, seq![]);
    assert(key_shares_bytes(a + b) + seq![] =~= key_shares_bytes(a + b));
}

/// Suites that come first in a cipher-suite block come first in the list read
/// from it: the block of `a` followed by the block of `b` reads as `a` then `b`.
pub proof fn lemma_suites_order(a: Seq<CipherSuite>, b: Seq<CipherSuite>)
    ensures
        cipher_suites(suites_bytes(a) + suites_bytes(b)) == a + b,
{
    lemma_suites_bytes_concat(a, b);
    lemma_suites_prefix_maximal(a + b, seq![]);
    assert(suites_bytes(a + b) + seq![] =~= suites_bytes(a + b));
}

/// A record written out in its wire layout reads back as the same record.
pub proof fn lemma_round_trip(k: ESNIKeysModel)
    requires
        encodable(k),
    ensures
        well_formed(record_bytes(k)),
        record_of(record_bytes(k)) == k,
{
    let ksb = key_shares_bytes(k.keys);
    let csb = suites_bytes(k.cipher_suites);
    let h = head_bytes(k);
    let m = be16_bytes(csb.len() as int);
    let t = tail_bytes(k);
    let x = k.extensions;
    let s = record_bytes(k);
    lemma_be16_read(k.version as int);
    lemma_be16_read(ksb.len() as int);
    lemma_be16_read(csb.len() as int);
    lemma_be16_read(k.padded_length as int);
    lemma_be64_read(k.not_before as int);
    lemma_be64_read(k.not_after as int);
    lemma_be16_read(x.len() as int);
    let ke: int = 8 + ksb.len() as int;
    let ce: int = ke + 2 + csb.len() as int;
    assert(s.subrange(0, 2) =~= be16_bytes(k.version as int));
    assert(s.subrange(2, 6) =~= k.checksum);
    assert(s.subrange(6, 8) =~= be16_bytes(ksb.len() as int));
    assert(u16_at(s.subrange(0, 2), 0) == u16_at(s, 0));
    assert(u16_at(s.subrange(6, 8), 0) == u16_at(s, 6));
    assert(key_shares_end(s) == ke);
    assert(s.subrange(8, ke) =~= ksb);
    assert(s.subrange(ke, ke + 2) =~= m);
    assert(u16_at(s.subrange(ke, ke + 2), 0) == u16_at(s, ke));
    assert(suites_end(s) == ce);
    assert(s.subrange(ke + 2, ce) =~= csb);
    assert(s.subrange(ce, ce + 2) =~= be16_bytes(k.padded_length as int));
    assert(s.subrange(ce + 2, ce + 10) =~= be64_bytes(k.not_before as int));
    assert(s.subrange(ce + 10, ce + 18) =~= be64_bytes(k.not_after as int));
    assert(s.subrange(ce + 18, ce + 20) =~= be16_bytes(x.len() as int));
    assert(u16_at(s.subrange(ce, ce + 2), 0) == u16_at(s, ce));
    assert(u64_at(s.subrange(ce + 2, ce + 10), 0) == u64_at(s, ce + 2));
    assert(u64_at(s.subrange(ce + 10, ce + 18), 0) == u64_at(s, ce + 10));
    assert(u16_at(s.subrange(ce + 18, ce + 20), 0) == u16_at(s, ce + 18));
    assert(extensions_start(s) == ce + 20);
    assert(record_end(s) == s.len());
    assert(s.subrange(ce + 20, s.len() as int) =~= x);
    lemma_key_shares_prefix_maximal(k.keys, seq![]);
    assert(ksb + seq![] =~= ksb);
    lemma_suites_prefix_maximal(k.cipher_suites, seq![]);
    assert(csb + seq![] =~= csb);
    assert(record_of(s) =~= k);
}

/// Changing one byte of the checksum field of a record whose checksum matches
/// leaves a record that still decodes but whose checksum no longer matches.
pub proof fn lemma_checksum_byte_changed(s: Seq<u8>, i: int, b: u8)
    requires
        well_formed(s),
        checksum_ok(s),
        CHECKSUM_START <= i < CHECKSUM_END,
        b != s[i],
    ensures
        well_formed(s.update(i, b)),
        !checksum_ok(s.update(i, b)),
{
    let f = s.update(i, b);
    assert(u16_at(f, 6) == u16_at(s, 6));
    assert(u16_at(f, key_shares_end(s)) == u16_at(s, key_shares_end(s)));
    assert(u16_at(f, extensions_start(s) - 2) == u16_at(s, extensions_start(s) - 2));
    assert(checksum_domain_of(f) =~= checksum_domain_of(s));
    assert(f.subrange(CHECKSUM_START as int, CHECKSUM_END as int)[i - CHECKSUM_START] != s.subrange(
        CHECKSUM_START as int,
        CHECKSUM_END as int,
    )[i - CHECKSUM_START]);
}

} // verus!
