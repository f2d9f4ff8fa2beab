//! Layer by layer: parsing what was encoded gives the value back, and parsing a
//! strict prefix of an encoding reports that the data ended too early.
use crate::error::{PartError, ReaderError};
use crate::format::{
    enc_block, enc_blocks, enc_bytes, enc_end, enc_entry, enc_entry_list, enc_partition,
    enc_partitions, parse_block, parse_blocks, parse_bytes, parse_entries, parse_entry_head,
    parse_item_head, parse_items, valid_blocks, valid_bytes, valid_entry, valid_partition,
    valid_partitions, EntryHead, EntryModel, PartitionModel,
};
use crate::le::{lemma_le_enc_len, lemma_le_round_trip, lemma_pow256_values};
use vstd::prelude::*;

verus! {

pub proof fn lemma_bytes_round_trip(s: Seq<u8>, rest: Seq<u8>)
    requires
        valid_bytes(s),
    ensures
        enc_bytes(s).len() == 8 + s.len(),
        parse_bytes(enc_bytes(s) + rest) == Some((s, 8 + s.len() as int)),
{
    let d = enc_bytes(s) + rest;
    lemma_le_enc_len(s.len(), 8);
    assert(d.subrange(0, 8) =~= crate::le::le_enc(s.len(), 8));
    lemma_le_round_trip(s.len(), 8);
    assert(d.subrange(8, 8 + s.len() as int) =~= s);
}

pub proof fn lemma_bytes_truncated(s: Seq<u8>, k: int)
    requires
        valid_bytes(s),
        0 <= k < enc_bytes(s).len(),
    ensures
        parse_bytes(enc_bytes(s).subrange(0, k)) is None,
{
    let d = enc_bytes(s).subrange(0, k);
    lemma_le_enc_len(s.len(), 8);
    if k >= 8 {
        assert(d.subrange(0, 8) =~= crate::le::le_enc(s.len(), 8));
        lemma_le_round_trip(s.len(), 8);
    }
}

pub proof fn lemma_block_round_trip(b: Seq<u8>, rest: Seq<u8>)
    requires
        b.len() < 0x1_0000,
    ensures
        enc_block(b).len() == 2 + b.len(),
        parse_block(enc_block(b) + rest) == Some((b, 2 + b.len() as int)),
        (enc_block(b) + rest).subrange(0, 2) == crate::le::le_enc(b.len(), 2),
        crate::le::le_val(crate::le::le_enc(b.len(), 2)) == b.len(),
{
    let d = enc_block(b) + rest;
    lemma_le_enc_len(b.len(), 2);
    lemma_pow256_values();
    assert(d.subrange(0, 2) =~= crate::le::le_enc(b.len(), 2));
    lemma_le_round_trip(b.len(), 2);
    assert(d.subrange(2, 2 + b.len() as int) =~= b);
}

pub proof fn lemma_blocks_round_trip(cs: Seq<Seq<u8>>, rest: Seq<u8>)
    requires
        valid_blocks(cs),
    ensures
        enc_blocks(cs).len() >= 2,
        parse_blocks(enc_blocks(cs) + rest) == Some((cs, enc_blocks(cs).len() as int)),
    decreases cs.len(),
{
    let d = enc_blocks(cs) + rest;
    if cs.len() == 0 {
        lemma_block_round_trip(Seq::empty(), rest);
        assert(cs =~= Seq::<Seq<u8>>::empty());
    } else {
        let tail = cs.subrange(1, cs.len() as int);
        assert forall|i: int| 0 <= i < tail.len() implies 0 < #[trigger] tail[i].len()
            < 0x1_0000 by {
            assert(tail[i] == cs[i + 1]);
        }
        assert(0 < cs[0].len() < 0x1_0000);
        lemma_block_round_trip(cs[0], enc_blocks(tail) + rest);
        assert(d =~= enc_block(cs[0]) + (enc_blocks(tail) + rest));
        let n = cs[0].len() as int;
        assert(d.subrange(2 + n, d.len() as int) =~= enc_blocks(tail) + rest);
        lemma_blocks_round_trip(tail, rest);
        assert(d.subrange(2, 2 + n) =~= cs[0]);
        assert(seq![cs[0]] + tail =~= cs);
    }
}

pub proof fn lemma_blocks_truncated(cs: Seq<Seq<u8>>, k: int)
    requires
        valid_blocks(cs),
        0 <= k < enc_blocks(cs).len(),
    ensures
        parse_blocks(enc_blocks(cs).subrange(0, k)) is None,
    decreases cs.len(),
{
    let full = enc_blocks(cs);
    let d = full.subrange(0, k);
    if k >= 2 {
        if cs.len() == 0 {
            lemma_block_round_trip(Seq::empty(), Seq::empty());
            assert(full =~= enc_block(Seq::empty()) + Seq::empty());
        } else {
            let tail = cs.subrange(1, cs.len() as int);
            assert forall|i: int| 0 <= i < tail.len() implies 0 < #[trigger] tail[i].len()
                < 0x1_0000 by {
                assert(tail[i] == cs[i + 1]);
            }
            assert(0 < cs[0].len() < 0x1_0000);
            lemma_block_round_trip(cs[0], enc_blocks(tail));
            let n = cs[0].len() as int;
            assert(d.subrange(0, 2) =~= full.subrange(0, 2));
            if k >= 2 + n {
                assert(d.subrange(2 + n, d.len() as int) =~= enc_blocks(tail).subrange(
                    0,
                    k - 2 - n,
                ));
                lemma_blocks_truncated(tail, k - 2 - n);
            }
        }
    }
}

proof fn lemma_valid_tail_entries(es: Seq<EntryModel>)
    requires
        es.len() > 0,
        forall|i: int| 0 <= i < es.len() ==> valid_entry(#[trigger] es[i]),
    ensures
        forall|i: int|
            0 <= i < es.subrange(1, es.len() as int).len() ==> valid_entry(
                #[trigger] es.subrange(1, es.len() as int)[i],
            ),
        valid_entry(es[0]),
{
    let tail = es.subrange(1, es.len() as int);
    assert forall|i: int| 0 <= i < tail.len() implies valid_entry(#[trigger] tail[i]) by {
        assert(tail[i] == es[i + 1]);
    }
}

#[verifier::rlimit(50)]
pub proof fn lemma_entries_round_trip(es: Seq<EntryModel>, rest: Seq<u8>)
    requires
        forall|i: int| 0 <= i < es.len() ==> valid_entry(#[trigger] es[i]),
    ensures
        parse_entries(enc_entry_list(es) + seq![0u8] + rest) == Ok::<
            (Seq<EntryModel>, int),
            PartError,
        >((es, enc_entry_list(es).len() + 1int)),
    decreases es.len(),
{
    let d = enc_entry_list(es) + seq![0u8] + rest;
    if es.len() == 0 {
        assert(d =~= seq![0u8] + rest);
        assert(es =~= Seq::<EntryModel>::empty());
    } else {
        lemma_valid_tail_entries(es);
        let tail = es.subrange(1, es.len() as int);
        let after = enc_entry_list(tail) + seq![0u8] + rest;
        lemma_entries_round_trip(tail, rest);
        match es[0] {
            EntryModel::Directory(p) => {
                lemma_bytes_round_trip(p, after);
                assert(d =~= seq![1u8] + enc_bytes(p) + after);
                assert(d.subrange(1, d.len() as int) =~= enc_bytes(p) + after);
                let k = 9 + p.len() as int;
                assert(parse_entry_head(d) == Ok::<Option<(EntryHead, int)>, PartError>(
                    Some((EntryHead::Directory(p), k)),
                ));
                assert(d.subrange(k, d.len() as int) =~= after);
                assert(seq![EntryModel::Directory(p)] + tail =~= es);
                assert(enc_entry_list(es) == enc_entry(es[0]) + enc_entry_list(tail));
                assert(enc_entry(es[0]).len() == k);
            },
            EntryModel::File(p, cs) => {
                let eb = enc_blocks(cs);
                lemma_bytes_round_trip(p, eb + after);
                lemma_blocks_round_trip(cs, after);
                assert(d =~= seq![2u8] + enc_bytes(p) + eb + after);
                assert(d.subrange(1, d.len() as int) =~= enc_bytes(p) + (eb + after));
                let k = 9 + p.len() as int;
                assert(parse_entry_head(d) == Ok::<Option<(EntryHead, int)>, PartError>(
                    Some((EntryHead::File(p), k)),
                ));
                let r = d.subrange(k, d.len() as int);
                assert(r =~= eb + after);
                assert(r.subrange(eb.len() as int, r.len() as int) =~= after);
                assert(seq![EntryModel::File(p, cs)] + tail =~= es);
                assert(enc_entry_list(es) == enc_entry(es[0]) + enc_entry_list(tail));
                assert(enc_entry(es[0]).len() == k + eb.len());
            },
        }
    }
}

pub proof fn lemma_entries_truncated(es: Seq<EntryModel>, k: int)
    requires
        forall|i: int| 0 <= i < es.len() ==> valid_entry(#[trigger] es[i]),
        0 <= k < enc_entry_list(es).len() + 1,
    ensures
        parse_entries((enc_entry_list(es) + seq![0u8]).subrange(0, k)) == Err::<
            (Seq<EntryModel>, int),
            PartError,
        >(PartError::Truncated),
    decreases es.len(),
{
    let full = enc_entry_list(es) + seq![0u8];
    let d = full.subrange(0, k);
    if k > 0 && es.len() > 0 {
        lemma_valid_tail_entries(es);
        let tail = es.subrange(1, es.len() as int);
        let after = enc_entry_list(tail) + seq![0u8];
        match es[0] {
            EntryModel::Directory(p) => {
                assert(full =~= seq![1u8] + enc_bytes(p) + after);
                lemma_bytes_round_trip(p, Seq::empty());
                let hk = 9 + p.len() as int;
                if k < hk {
                    assert(d.subrange(1, d.len() as int) =~= enc_bytes(p).subrange(0, k - 1));
                    lemma_bytes_truncated(p, k - 1);
                } else {
                    let a = after.subrange(0, k - hk);
                    lemma_bytes_round_trip(p, a);
                    assert(d.subrange(1, d.len() as int) =~= enc_bytes(p) + a);
                    assert(d.subrange(hk, d.len() as int) =~= a);
                    lemma_entries_truncated(tail, k - hk);
                }
            },
            EntryModel::File(p, cs) => {
                let eb = enc_blocks(cs);
                assert(full =~= seq![2u8] + enc_bytes(p) + eb + after);
                lemma_bytes_round_trip(p, Seq::empty());
                let hk = 9 + p.len() as int;
                if k < hk {
                    assert(d.subrange(1, d.len() as int) =~= enc_bytes(p).subrange(0, k - 1));
                    lemma_bytes_truncated(p, k - 1);
                } else {
                    let tb = (eb + after).subrange(0, k - hk);
                    lemma_bytes_round_trip(p, tb);
                    assert(d.subrange(1, d.len() as int) =~= enc_bytes(p) + tb);
                    let r = d.subrange(hk, d.len() as int);
                    assert(r =~= tb);
                    if k - hk < eb.len() {
                        assert(r =~= eb.subrange(0, k - hk));
                        lemma_blocks_truncated(cs, k - hk);
                    } else {
                        let a = after.subrange(0, k - hk - eb.len() as int);
                        assert(r =~= eb + a);
                        lemma_blocks_round_trip(cs, a);
                        assert(r.subrange(eb.len() as int, r.len() as int) =~= a);
                        lemma_entries_truncated(tail, k - hk - eb.len() as int);
                    }
                }
            },
        }
    }
}

proof fn lemma_valid_tail_partitions(ps: Seq<PartitionModel>)
    requires
        ps.len() > 0,
        valid_partitions(ps),
    ensures
        valid_partitions(ps.subrange(1, ps.len() as int)),
        valid_partition(ps[0]),
{
    let tail = ps.subrange(1, ps.len() as int);
    assert forall|i: int| 0 <= i < tail.len() implies valid_partition(#[trigger] tail[i]) by {
        assert(tail[i] == ps[i + 1]);
    }
}

/// One partition item, then `rest`.
#[verifier::rlimit(50)]
proof fn lemma_item_step(p: PartitionModel, after: Seq<u8>)
    requires
        valid_partition(p),
    ensures
        parse_items(enc_partition(p) + after) == match parse_items(after) {
            Err(e) => Err(e),
            Ok(qs) => Ok(seq![p] + qs),
        },
{
    let d = enc_partition(p) + after;
    let le = enc_entry_list(p.entries) + seq![0u8];
    assert(d =~= seq![1u8, 0u8] + enc_bytes(p.fs) + enc_bytes(p.dev) + le + after);
    lemma_bytes_round_trip(p.fs, enc_bytes(p.dev) + le + after);
    assert(d.subrange(2, d.len() as int) =~= enc_bytes(p.fs) + (enc_bytes(p.dev) + le + after));
    let k1 = 8 + p.fs.len() as int;
    lemma_bytes_round_trip(p.dev, le + after);
    assert(d.subrange(2 + k1, d.len() as int) =~= enc_bytes(p.dev) + (le + after));
    let k = 2 + k1 + 8 + p.dev.len() as int;
    assert(parse_item_head(d) == Ok::<Option<(Seq<u8>, Seq<u8>, int)>, ReaderError>(
        Some((p.fs, p.dev, k)),
    ));
    let r = d.subrange(k, d.len() as int);
    assert(r =~= enc_entry_list(p.entries) + seq![0u8] + after);
    lemma_entries_round_trip(p.entries, after);
    assert(r.subrange(le.len() as int, r.len() as int) =~= after);
    assert(p == PartitionModel { fs: p.fs, dev: p.dev, entries: p.entries });
}

/// Parsing partition items followed by `rest` gives those partitions, then
/// whatever `rest` gives.
pub proof fn lemma_items_round_trip(ps: Seq<PartitionModel>, rest: Seq<u8>)
    requires
        valid_partitions(ps),
    ensures
        parse_items(enc_partitions(ps) + rest) == match parse_items(rest) {
            Ok(qs) => Ok(ps + qs),
            Err(e) => Err(e),
        },
    decreases ps.len(),
{
    let d = enc_partitions(ps) + rest;
    if ps.len() == 0 {
        assert(d =~= rest);
        match parse_items(rest) {
            Ok(qs) => {
                assert(ps + qs =~= qs);
            },
            Err(e) => {},
        }
    } else {
        lemma_valid_tail_partitions(ps);
        let p = ps[0];
        let tail = ps.subrange(1, ps.len() as int);
        let after = enc_partitions(tail) + rest;
        lemma_items_round_trip(tail, rest);
        assert(d =~= enc_partition(p) + after);
        lemma_item_step(p, after);
        match parse_items(rest) {
            Ok(qs) => {
                assert(seq![p] + (tail + qs) =~= ps + qs);
            },
            Err(e) => {},
        }
    }
}

#[verifier::rlimit(50)]
pub proof fn lemma_items_truncated(ps: Seq<PartitionModel>, k: int)
    requires
        valid_partitions(ps),
        0 <= k < (enc_partitions(ps) + enc_end()).len(),
    ensures
        parse_items((enc_partitions(ps) + enc_end()).subrange(0, k)) == Err::<
            Seq<PartitionModel>,
            ReaderError,
        >(ReaderError::Truncated),
    decreases ps.len(),
{
    let full = enc_partitions(ps) + enc_end();
    let d = full.subrange(0, k);
    if ps.len() == 0 {
        assert(full =~= enc_end());
    } else if k == 1 {
        assert(enc_partitions(ps) == enc_partition(ps[0]) + enc_partitions(
            ps.subrange(1, ps.len() as int),
        ));
        assert(d[0] == 1u8);
    } else if k >= 2 {
        lemma_valid_tail_partitions(ps);
        let p = ps[0];
        let tail = ps.subrange(1, ps.len() as int);
        let after = enc_partitions(tail) + enc_end();
        let le = enc_entry_list(p.entries) + seq![0u8];
        let bf = enc_bytes(p.fs);
        let bd = enc_bytes(p.dev);
        assert(full =~= seq![1u8, 0u8] + bf + bd + le + after);
        lemma_bytes_round_trip(p.fs, Seq::empty());
        lemma_bytes_round_trip(p.dev, Seq::empty());
        let k1 = bf.len() as int;
        let k2 = bd.len() as int;
        if k < 2 + k1 {
            assert(d.subrange(2, d.len() as int) =~= bf.subrange(0, k - 2));
            lemma_bytes_truncated(p.fs, k - 2);
        } else {
            let t1 = (bd + le + after).subrange(0, k - 2 - k1);
            assert(d.subrange(2, d.len() as int) =~= bf + t1);
            lemma_bytes_round_trip(p.fs, t1);
            if k < 2 + k1 + k2 {
                assert(d.subrange(2 + k1, d.len() as int) =~= bd.subrange(0, k - 2 - k1));
                lemma_bytes_truncated(p.dev, k - 2 - k1);
            } else {
                let t2 = (le + after).subrange(0, k - 2 - k1 - k2);
                assert(d.subrange(2 + k1, d.len() as int) =~= bd + t2);
                lemma_bytes_round_trip(p.dev, t2);
                let hk = 2 + k1 + k2;
                assert(parse_item_head(d) == Ok::<Option<(Seq<u8>, Seq<u8>, int)>, ReaderError>(
                    Some((p.fs, p.dev, hk)),
                ));
                let r = d.subrange(hk, d.len() as int);
                assert(r =~= t2);
                if k - hk < le.len() {
                    assert(r =~= le.subrange(0, k - hk));
                    lemma_entries_truncated(p.entries, k - hk);
                } else {
                    let a = after.subrange(0, k - hk - le.len() as int);
                    assert(r =~= enc_entry_list(p.entries) + seq![0u8] + a);
                    lemma_entries_round_trip(p.entries, a);
                    assert(r.subrange(le.len() as int, r.len() as int) =~= a);
                    lemma_items_truncated(tail, k - hk - le.len() as int);
                }
            }
        }
    }
}

/// A complete block stream takes at least its sentinel and at most what is there.
pub proof fn lemma_blocks_bounds(d: Seq<u8>)
    ensures
        parse_blocks(d) is Some ==> 2 <= parse_blocks(d)->Some_0.1 <= d.len(),
    decreases d.len(),
{
    if d.len() >= 2 {
        let n = crate::le::le_val(d.subrange(0, 2)) as int;
        if d.len() >= 2 + n && n != 0 {
            lemma_blocks_bounds(d.subrange(2 + n, d.len() as int));
        }
    }
}

/// Complete entries take at least their End marker and at most what is there.
pub proof fn lemma_entries_bounds(d: Seq<u8>)
    ensures
        parse_entries(d) is Ok ==> 1 <= parse_entries(d)->Ok_0.1 <= d.len(),
    decreases d.len(),
{
    if let Ok(Some((h, k))) = parse_entry_head(d) {
        if 0 < k <= d.len() {
            let r = d.subrange(k, d.len() as int);
            lemma_entries_bounds(r);
            if let Some((cs, k1)) = parse_blocks(r) {
                if 0 < k1 <= r.len() {
                    lemma_entries_bounds(r.subrange(k1, r.len() as int));
                }
            }
        }
    }
}

} // verus!
