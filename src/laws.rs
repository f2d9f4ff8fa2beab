//! What holds of every container: the properties the format is built for.
use crate::error::{PartError, ReaderError};
use crate::facts::{
    lemma_block_round_trip, lemma_blocks_round_trip, lemma_entries_round_trip,
    lemma_items_round_trip, lemma_items_truncated,
};
use crate::format::{
    enc_block, enc_blocks, enc_container, enc_end, enc_entry_list, enc_partitions, flatten, magic,
    parse_blocks, parse_container, parse_items, valid_blocks, valid_entry, valid_partitions,
    EntryModel, PartitionModel,
};
use crate::ps4::PartReader;
use crate::reader::DumpReader;
use crate::scan::from;
use vstd::prelude::*;

verus! {

/// Reading a written container gives back every partition, with each entry's
/// path, kind and blocks, hence each file's content byte for byte, whatever
/// block boundaries the writer chose.
pub proof fn lemma_container_round_trip(ps: Seq<PartitionModel>)
    requires
        valid_partitions(ps),
    ensures
        parse_container(enc_container(ps)) == Ok::<Seq<PartitionModel>, ReaderError>(ps),
{
    let d = enc_container(ps);
    assert(d.subrange(0, 4) =~= magic());
    assert(d.subrange(4, d.len() as int) =~= enc_partitions(ps) + enc_end());
    lemma_items_round_trip(ps, enc_end());
    assert(parse_items(enc_end()) == Ok::<Seq<PartitionModel>, ReaderError>(Seq::empty()));
    assert(ps + Seq::<PartitionModel>::empty() =~= ps);
}

/// A written container cut anywhere after its magic prefix and before the
/// last byte of its End item reads as truncated, never as fewer items.
pub proof fn lemma_container_truncated(ps: Seq<PartitionModel>, k: int)
    requires
        valid_partitions(ps),
        4 <= k < enc_container(ps).len(),
    ensures
        parse_container(enc_container(ps).subrange(0, k)) == Err::<
            Seq<PartitionModel>,
            ReaderError,
        >(ReaderError::Truncated),
{
    let d = enc_container(ps).subrange(0, k);
    assert(d.subrange(0, 4) =~= magic());
    assert(d.subrange(4, d.len() as int) =~= (enc_partitions(ps) + enc_end()).subrange(0, k - 4));
    lemma_items_truncated(ps, k - 4);
}

/// A partition item with a version other than 0, after any valid items, makes
/// the whole container unreadable with `UnknownVersion`, whatever follows.
pub proof fn lemma_unknown_version(ps: Seq<PartitionModel>, version: u8, rest: Seq<u8>)
    requires
        valid_partitions(ps),
        version != 0,
    ensures
        parse_container(magic() + enc_partitions(ps) + seq![1u8, version] + rest) == Err::<
            Seq<PartitionModel>,
            ReaderError,
        >(ReaderError::UnknownVersion(1, version)),
{
    let d = magic() + enc_partitions(ps) + seq![1u8, version] + rest;
    let tail = seq![1u8, version] + rest;
    assert(d.subrange(0, 4) =~= magic());
    assert(d.subrange(4, d.len() as int) =~= enc_partitions(ps) + tail);
    lemma_items_round_trip(ps, tail);
}

/// An empty file is a single zero-length block, and reads back as no bytes.
pub proof fn lemma_empty_file()
    ensures
        enc_blocks(Seq::empty()) == seq![0u8, 0u8],
        parse_blocks(seq![0u8, 0u8]) == Some((Seq::<Seq<u8>>::empty(), 2int)),
        flatten(Seq::empty()) == Seq::<u8>::empty(),
{
    lemma_block_round_trip(Seq::empty(), Seq::empty());
    reveal_with_fuel(crate::le::le_enc, 3);
    assert(enc_block(Seq::empty()) =~= seq![0u8, 0u8]);
    assert(seq![0u8, 0u8].subrange(0, 2) =~= seq![0u8, 0u8]);
}

/// A file whose content was read in part, or not at all, is skipped whole:
/// the partition's next entry is read right after the file's sentinel.
pub proof fn lemma_skip_file(pr: PartReader, cs: Seq<Seq<u8>>, after: Seq<u8>)
    requires
        0 <= pr.pos() <= pr.data().len(),
        pr.pending(),
        valid_blocks(cs),
        from(pr.data(), pr.pos()) == enc_blocks(cs) + after,
    ensures
        pr.entry_start() == Ok::<int, PartError>(pr.pos() + enc_blocks(cs).len()),
        from(pr.data(), pr.pos() + enc_blocks(cs).len()) == after,
{
    lemma_blocks_round_trip(cs, after);
    let d = pr.data();
    let p = pr.pos();
    assert(from(d, p + enc_blocks(cs).len()) =~= from(d, p).subrange(
        enc_blocks(cs).len() as int,
        from(d, p).len() as int,
    ));
    assert(from(d, p).subrange(enc_blocks(cs).len() as int, from(d, p).len() as int) =~= after);
}

/// A partition whose entries were read in part, or not at all, is skipped
/// whole: the dump's next item is read right after the partition's End marker.
pub proof fn lemma_skip_partition(dr: DumpReader, es: Seq<EntryModel>, after: Seq<u8>)
    requires
        0 <= dr.pos() <= dr.data().len(),
        dr.skip(),
        forall|i: int| 0 <= i < es.len() ==> valid_entry(#[trigger] es[i]),
        from(dr.data(), dr.pos()) == enc_entry_list(es) + seq![0u8] + after,
    ensures
        dr.item_start() == Ok::<int, ReaderError>(dr.pos() + enc_entry_list(es).len() + 1),
        from(dr.data(), dr.pos() + enc_entry_list(es).len() + 1) == after,
{
    lemma_entries_round_trip(es, after);
    let d = dr.data();
    let p = dr.pos();
    let k = enc_entry_list(es).len() + 1;
    assert(from(d, p + k) =~= from(d, p).subrange(k as int, from(d, p).len() as int));
    assert(from(d, p).subrange(k as int, from(d, p).len() as int) =~= after);
}

} // verus!
