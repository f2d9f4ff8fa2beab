//! The container format as mathematics: what each value encodes to, how bytes
//! are parsed back, and the facts that tie the two together.
use crate::error::{part_to_reader, PartError, ReaderError};
use crate::le::{le_enc, le_val, pow256};
use vstd::prelude::*;

verus! {

/// The four bytes every container starts with: `0x7F 'O' 'B' 'F'`.
pub open spec fn magic() -> Seq<u8> {
    seq![0x7Fu8, 0x4Fu8, 0x42u8, 0x46u8]
}

/// One entry of a partition: a directory, or a file with its content blocks.
pub enum EntryModel {
    Directory(Seq<u8>),
    File(Seq<u8>, Seq<Seq<u8>>),
}

/// One partition item: filesystem type, source device and its entries.
pub struct PartitionModel {
    pub fs: Seq<u8>,
    pub dev: Seq<u8>,
    pub entries: Seq<EntryModel>,
}

/// What an entry tag and path announce, before any file content.
pub enum EntryHead {
    Directory(Seq<u8>),
    File(Seq<u8>),
}

/// The bytes of a file, with its block boundaries forgotten.
pub open spec fn flatten(cs: Seq<Seq<u8>>) -> Seq<u8>
    decreases cs.len(),
{
    if cs.len() == 0 {
        Seq::empty()
    } else {
        cs[0] + flatten(cs.subrange(1, cs.len() as int))
    }
}

// ---- Encoding ----
/// A byte string: 8-byte length, then the bytes.
pub open spec fn enc_bytes(s: Seq<u8>) -> Seq<u8> {
    le_enc(s.len(), 8) + s
}

/// One content block: 2-byte length, then the bytes.
pub open spec fn enc_block(b: Seq<u8>) -> Seq<u8> {
    le_enc(b.len(), 2) + b
}

/// A block stream: each block, then the zero-length sentinel.
pub open spec fn enc_blocks(cs: Seq<Seq<u8>>) -> Seq<u8>
    decreases cs.len(),
{
    if cs.len() == 0 {
        enc_block(Seq::empty())
    } else {
        enc_block(cs[0]) + enc_blocks(cs.subrange(1, cs.len() as int))
    }
}

pub open spec fn enc_entry(e: EntryModel) -> Seq<u8> {
    match e {
        EntryModel::Directory(p) => seq![1u8] + enc_bytes(p),
        EntryModel::File(p, cs) => seq![2u8] + enc_bytes(p) + enc_blocks(cs),
    }
}

/// Entries one after the other, without the End marker.
pub open spec fn enc_entry_list(es: Seq<EntryModel>) -> Seq<u8>
    decreases es.len(),
{
    if es.len() == 0 {
        Seq::empty()
    } else {
        enc_entry(es[0]) + enc_entry_list(es.subrange(1, es.len() as int))
    }
}

/// The head of a partition item: tag 1, version 0, filesystem type, device.
pub open spec fn enc_partition_head(fs: Seq<u8>, dev: Seq<u8>) -> Seq<u8> {
    seq![1u8, 0u8] + enc_bytes(fs) + enc_bytes(dev)
}

pub open spec fn enc_partition(p: PartitionModel) -> Seq<u8> {
    enc_partition_head(p.fs, p.dev) + enc_entry_list(p.entries) + seq![0u8]
}

/// Partition items one after the other, without the End item.
pub open spec fn enc_partitions(ps: Seq<PartitionModel>) -> Seq<u8>
    decreases ps.len(),
{
    if ps.len() == 0 {
        Seq::empty()
    } else {
        enc_partition(ps[0]) + enc_partitions(ps.subrange(1, ps.len() as int))
    }
}

/// The End item: tag 0 alone; it carries no version.
pub open spec fn enc_end() -> Seq<u8> {
    seq![0u8]
}

/// A whole container.
pub open spec fn enc_container(ps: Seq<PartitionModel>) -> Seq<u8> {
    magic() + enc_partitions(ps) + enc_end()
}

// ---- Which values can be encoded ----
pub open spec fn valid_bytes(s: Seq<u8>) -> bool {
    s.len() < pow256(8)
}

/// Every block is non-empty and its length fits the 2-byte prefix.
pub open spec fn valid_blocks(cs: Seq<Seq<u8>>) -> bool {
    forall|i: int| 0 <= i < cs.len() ==> 0 < #[trigger] cs[i].len() < 0x1_0000
}

pub open spec fn valid_entry(e: EntryModel) -> bool {
    match e {
        EntryModel::Directory(p) => valid_bytes(p),
        EntryModel::File(p, cs) => valid_bytes(p) && valid_blocks(cs),
    }
}

pub open spec fn valid_partition(p: PartitionModel) -> bool {
    valid_bytes(p.fs) && valid_bytes(p.dev) && forall|i: int|
        0 <= i < p.entries.len() ==> valid_entry(#[trigger] p.entries[i])
}

pub open spec fn valid_partitions(ps: Seq<PartitionModel>) -> bool {
    forall|i: int| 0 <= i < ps.len() ==> valid_partition(#[trigger] ps[i])
}

// ---- Parsing ----
/// A byte string at the start of `d`, with the number of bytes it takes;
/// `None` when `d` ends first.
pub open spec fn parse_bytes(d: Seq<u8>) -> Option<(Seq<u8>, int)> {
    if d.len() < 8 {
        None
    } else {
        let n = le_val(d.subrange(0, 8)) as int;
        if d.len() < 8 + n {
            None
        } else {
            Some((d.subrange(8, 8 + n), 8 + n))
        }
    }
}

/// One block at the start of `d`, with the number of bytes it takes; an empty
/// block is the sentinel. `None` when `d` ends first.
pub open spec fn parse_block(d: Seq<u8>) -> Option<(Seq<u8>, int)> {
    if d.len() < 2 {
        None
    } else {
        let n = le_val(d.subrange(0, 2)) as int;
        if d.len() < 2 + n {
            None
        } else {
            Some((d.subrange(2, 2 + n), 2 + n))
        }
    }
}

/// The blocks of a stream up to its sentinel, with the bytes taken.
pub open spec fn parse_blocks(d: Seq<u8>) -> Option<(Seq<Seq<u8>>, int)>
    decreases d.len(),
{
    if d.len() < 2 {
        None
    } else {
        let n = le_val(d.subrange(0, 2)) as int;
        if d.len() < 2 + n {
            None
        } else if n == 0 {
            Some((Seq::empty(), 2))
        } else {
            match parse_blocks(d.subrange(2 + n, d.len() as int)) {
                None => None,
                Some((cs, k)) => Some((seq![d.subrange(2, 2 + n)] + cs, 2 + n + k)),
            }
        }
    }
}

/// The tag and path of the entry at the start of `d`, with the bytes taken;
/// `None` for the End marker.
pub open spec fn parse_entry_head(d: Seq<u8>) -> Result<Option<(EntryHead, int)>, PartError> {
    if d.len() == 0 {
        Err(PartError::Truncated)
    } else if d[0] == 0 {
        Ok(None)
    } else if d[0] == 1 || d[0] == 2 {
        match parse_bytes(d.subrange(1, d.len() as int)) {
            None => Err(PartError::Truncated),
            Some((p, k)) => Ok(
                Some(
                    (
                        if d[0] == 1 {
                            EntryHead::Directory(p)
                        } else {
                            EntryHead::File(p)
                        },
                        1 + k,
                    ),
                ),
            ),
        }
    } else {
        Err(PartError::UnknownItem(d[0]))
    }
}

/// The entries at the start of `d` up to and including the End marker.
pub open spec fn parse_entries(d: Seq<u8>) -> Result<(Seq<EntryModel>, int), PartError>
    decreases d.len(),
{
    match parse_entry_head(d) {
        Err(e) => Err(e),
        Ok(None) => Ok((Seq::empty(), 1)),
        Ok(Some((h, k))) => {
            if !(0 < k <= d.len()) {
                Err(PartError::Truncated)
            } else {
                let r = d.subrange(k, d.len() as int);
                match h {
                    EntryHead::Directory(p) => match parse_entries(r) {
                        Err(e) => Err(e),
                        Ok((es, k2)) => Ok((seq![EntryModel::Directory(p)] + es, k + k2)),
                    },
                    EntryHead::File(p) => match parse_blocks(r) {
                        None => Err(PartError::Truncated),
                        Some((cs, k1)) => {
                            if !(0 < k1 <= r.len()) {
                                Err(PartError::Truncated)
                            } else {
                                match parse_entries(r.subrange(k1, r.len() as int)) {
                                    Err(e) => Err(e),
                                    Ok((es, k2)) => Ok(
                                        (seq![EntryModel::File(p, cs)] + es, k + k1 + k2),
                                    ),
                                }
                            }
                        },
                    },
                }
            }
        },
    }
}

/// The head of the item at the start of `d`: filesystem type, device and the
/// bytes taken for a partition; `None` for the End item.
pub open spec fn parse_item_head(d: Seq<u8>) -> Result<Option<(Seq<u8>, Seq<u8>, int)>, ReaderError> {
    if d.len() < 1 {
        Err(ReaderError::Truncated)
    } else if d[0] == 0 {
        Ok(None)
    } else if d[0] == 1 {
        if d.len() < 2 {
            Err(ReaderError::Truncated)
        } else if d[1] != 0 {
            Err(ReaderError::UnknownVersion(1, d[1]))
        } else {
            match parse_bytes(d.subrange(2, d.len() as int)) {
                None => Err(ReaderError::Truncated),
                Some((fs, k1)) => match parse_bytes(d.subrange(2 + k1, d.len() as int)) {
                    None => Err(ReaderError::Truncated),
                    Some((dev, k2)) => Ok(Some((fs, dev, 2 + k1 + k2))),
                },
            }
        }
    } else {
        Err(ReaderError::UnknownItem(d[0]))
    }
}

/// The partition items at the start of `d`, up to the End item.
pub open spec fn parse_items(d: Seq<u8>) -> Result<Seq<PartitionModel>, ReaderError>
    decreases d.len(),
{
    match parse_item_head(d) {
        Err(e) => Err(e),
        Ok(None) => Ok(Seq::empty()),
        Ok(Some((fs, dev, k))) => {
            if !(0 < k <= d.len()) {
                Err(ReaderError::Truncated)
            } else {
                let r = d.subrange(k, d.len() as int);
                match parse_entries(r) {
                    Err(e) => Err(part_to_reader(e)),
                    Ok((es, k2)) => {
                        if !(0 < k2 <= r.len()) {
                            Err(ReaderError::Truncated)
                        } else {
                            match parse_items(r.subrange(k2, r.len() as int)) {
                                Err(e) => Err(e),
                                Ok(ps) => Ok(
                                    seq![PartitionModel { fs, dev, entries: es }] + ps,
                                ),
                            }
                        }
                    },
                }
            }
        },
    }
}

/// A whole container: the magic prefix, then the items.
pub open spec fn parse_container(d: Seq<u8>) -> Result<Seq<PartitionModel>, ReaderError> {
    if d.len() < 4 || d.subrange(0, 4) != magic() {
        Err(ReaderError::NotFirmwareDump)
    } else {
        parse_items(d.subrange(4, d.len() as int))
    }
}

} // verus!
