//! Executable parsing steps over the bytes of a dump, each one exactly the
//! matching parser of the format model.
use crate::error::{PartError, ReaderError};
use crate::format::{
    parse_block, parse_blocks, parse_bytes, parse_entries, parse_entry_head, parse_item_head,
    EntryHead,
};
use crate::item::{DumpItem, PartItem};
use crate::le::read_le;
use vstd::prelude::*;

verus! {

/// Where the block stream at the start of `d` ends, if it is complete.
pub open spec fn blocks_end(d: Seq<u8>) -> Option<int> {
    match parse_blocks(d) {
        None => None,
        Some((_, k)) => Some(k),
    }
}

/// Where the entries at the start of `d` end, End marker included.
pub open spec fn entries_end(d: Seq<u8>) -> Result<int, PartError> {
    match parse_entries(d) {
        Err(e) => Err(e),
        Ok((_, k)) => Ok(k),
    }
}

/// The bytes of `d` from `pos` on.
pub open spec fn from(d: Seq<u8>, pos: int) -> Seq<u8> {
    d.subrange(pos, d.len() as int)
}

/// A copy of `d[a..b]`.
pub fn copy_range(d: &[u8], a: usize, b: usize) -> (r: Vec<u8>)
    requires
        a <= b <= d@.len(),
    ensures
        r@ == d@.subrange(a as int, b as int),
{
    let mut r: Vec<u8> = Vec::new();
    let mut i: usize = a;
    while i < b
        invariant
            a <= i <= b <= d@.len(),
            r@ == d@.subrange(a as int, i as int),
        decreases b - i,
    {
        r.push(d[i]);
        i = i + 1;
        assert(r@ =~= d@.subrange(a as int, i as int));
    }
    r
}

/// The length-prefixed field at `pos`, whose prefix is `w` bytes wide, as the
/// start and end of its content; `None` when `d` ends first.
fn field_at(d: &[u8], pos: usize, w: usize) -> (r: Option<(usize, usize)>)
    requires
        pos <= d@.len(),
        w == 2 || w == 8,
    ensures
        ({
            let s = from(d@, pos as int);
            let ok = s.len() >= w && s.len() >= w + crate::le::le_val(s.subrange(0, w as int));
            match r {
                None => !ok,
                Some((a, b)) => ok && a == pos + w && b == a + crate::le::le_val(
                    s.subrange(0, w as int),
                ) && b <= d@.len(),
            }
        }),
{
    let s = Ghost(from(d@, pos as int));
    if d.len() - pos < w {
        return None;
    }
    let n = read_le(d, pos, w);
    assert(s@.subrange(0, w as int) =~= d@.subrange(pos as int, pos + w));
    let room = d.len() - pos - w;
    if (room as u64) < n {
        None
    } else {
        Some((pos + w, pos + w + n as usize))
    }
}

/// The byte string at `pos` and the position after it.
pub fn read_bytes(d: &[u8], pos: usize) -> (r: Option<(Vec<u8>, usize)>)
    requires
        pos <= d@.len(),
    ensures
        match r {
            None => parse_bytes(from(d@, pos as int)) is None,
            Some((v, e)) => parse_bytes(from(d@, pos as int)) == Some((v@, e - pos)) && e <= d@.len(),
        },
{
    match field_at(d, pos, 8) {
        None => None,
        Some((a, b)) => {
            let v = copy_range(d, a, b);
            assert(v@ =~= from(d@, pos as int).subrange(8, (b - pos) as int));
            Some((v, b))
        },
    }
}

/// The content block at `pos` and the position after it; the sentinel gives
/// an empty block.
pub fn read_block(d: &[u8], pos: usize) -> (r: Option<(Vec<u8>, usize)>)
    requires
        pos <= d@.len(),
    ensures
        match r {
            None => parse_block(from(d@, pos as int)) is None,
            Some((v, e)) => parse_block(from(d@, pos as int)) == Some((v@, e - pos)) && e <= d@.len(),
        },
{
    match field_at(d, pos, 2) {
        None => None,
        Some((a, b)) => {
            let v = copy_range(d, a, b);
            assert(v@ =~= from(d@, pos as int).subrange(2, (b - pos) as int));
            Some((v, b))
        },
    }
}

/// The position after the block stream at `pos`.
pub fn skip_blocks(d: &[u8], pos: usize) -> (r: Option<usize>)
    requires
        pos <= d@.len(),
    ensures
        match r {
            None => blocks_end(from(d@, pos as int)) is None,
            Some(e) => blocks_end(from(d@, pos as int)) == Some(e - pos) && pos + 2 <= e <= d@.len(),
        },
{
    let mut cur: usize = pos;
    loop
        invariant
            pos <= cur <= d@.len(),
            blocks_end(from(d@, pos as int)) == match blocks_end(from(d@, cur as int)) {
                None => None,
                Some(k) => Some(cur - pos + k),
            },
        decreases d@.len() - cur,
    {
        let s = Ghost(from(d@, cur as int));
        match field_at(d, cur, 2) {
            None => {
                return None;
            },
            Some((a, b)) => {
                if a == b {
                    return Some(b);
                }
                assert(from(d@, b as int) =~= s@.subrange((b - cur) as int, s@.len() as int));
                cur = b;
            },
        }
    }
}

/// The tag and path of the entry at `pos` and the position after them.
pub fn read_entry_head(d: &[u8], pos: usize) -> (r: Result<Option<(bool, Vec<u8>, usize)>, PartError>)
    requires
        pos <= d@.len(),
    ensures
        match r {
            Err(e) => parse_entry_head(from(d@, pos as int)) == Err::<Option<(EntryHead, int)>, PartError>(e),
            Ok(None) => pos < d@.len() && parse_entry_head(from(d@, pos as int)) == Ok::<
                Option<(EntryHead, int)>,
                PartError,
            >(None),
            Ok(Some((dir, v, e))) => pos < e <= d@.len() && parse_entry_head(from(d@, pos as int)) == Ok::<
                Option<(EntryHead, int)>,
                PartError,
            >(Some((if dir { EntryHead::Directory(v@) } else { EntryHead::File(v@) }, e - pos))),
        },
{
    let s = Ghost(from(d@, pos as int));
    if pos >= d.len() {
        return Err(PartError::Truncated);
    }
    let tag = d[pos];
    match PartItem::from_u8(tag) {
        None => Err(PartError::UnknownItem(tag)),
        Some(PartItem::End) => Ok(None),
        Some(kind) => {
            let dir = match kind {
                PartItem::Directory => true,
                _ => false,
            };
            assert(from(d@, pos + 1) =~= s@.subrange(1, s@.len() as int));
            match read_bytes(d, pos + 1) {
                None => Err(PartError::Truncated),
                Some((v, e)) => Ok(Some((dir, v, e))),
            }
        },
    }
}

/// The position after the entries at `pos`, End marker included.
pub fn skip_entries(d: &[u8], pos: usize) -> (r: Result<usize, PartError>)
    requires
        pos <= d@.len(),
    ensures
        match r {
            Err(e) => entries_end(from(d@, pos as int)) == Err::<int, PartError>(e),
            Ok(e) => entries_end(from(d@, pos as int)) == Ok::<int, PartError>(e - pos) && e <= d@.len(),
        },
{
    let mut cur: usize = pos;
    loop
        invariant
            pos <= cur <= d@.len(),
            entries_end(from(d@, pos as int)) == match entries_end(from(d@, cur as int)) {
                Err(e) => Err(e),
                Ok(k) => Ok::<int, PartError>(cur - pos + k),
            },
        decreases d@.len() - cur,
    {
        let s = Ghost(from(d@, cur as int));
        match read_entry_head(d, cur) {
            Err(e) => {
                return Err(e);
            },
            Ok(None) => {
                assert(cur < d.len());
                return Ok(cur + 1);
            },
            Ok(Some((dir, _path, e))) => {
                assert(from(d@, e as int) =~= s@.subrange((e - cur) as int, s@.len() as int));
                if dir {
                    cur = e;
                } else {
                    match skip_blocks(d, e) {
                        None => {
                            return Err(PartError::Truncated);
                        },
                        Some(e2) => {
                            let r = Ghost(s@.subrange((e - cur) as int, s@.len() as int));
                            assert(from(d@, e2 as int) =~= r@.subrange(
                                (e2 - e) as int,
                                r@.len() as int,
                            ));
                            cur = e2;
                        },
                    }
                }
            },
        }
    }
}


/// The head of the item at `pos`: filesystem type, device and the position
/// after them for a partition, `None` for the End item.
pub fn read_item_head(d: &[u8], pos: usize) -> (r: Result<
    Option<(Vec<u8>, Vec<u8>, usize)>,
    ReaderError,
>)
    requires
        pos <= d@.len(),
    ensures
        match r {
            Err(e) => parse_item_head(from(d@, pos as int)) == Err::<
                Option<(Seq<u8>, Seq<u8>, int)>,
                ReaderError,
            >(e),
            Ok(None) => pos + 1 <= d@.len() && parse_item_head(from(d@, pos as int))
                == Ok::<Option<(Seq<u8>, Seq<u8>, int)>, ReaderError>(None),
            Ok(Some((fs, dev, e))) => pos < e <= d@.len() && parse_item_head(
                from(d@, pos as int),
            ) == Ok::<Option<(Seq<u8>, Seq<u8>, int)>, ReaderError>(
                Some((fs@, dev@, e - pos)),
            ),
        },
{
    let s = Ghost(from(d@, pos as int));
    if pos >= d.len() {
        return Err(ReaderError::Truncated);
    }
    let tag = d[pos];
    match DumpItem::from_u8(tag) {
        None => Err(ReaderError::UnknownItem(tag)),
        Some(DumpItem::End) => Ok(None),
        Some(DumpItem::Ps4Part) => {
            if d.len() - pos < 2 {
                return Err(ReaderError::Truncated);
            }
            let ver = d[pos + 1];
            if ver != 0 {
                return Err(ReaderError::UnknownVersion(tag, ver));
            }
            assert(from(d@, pos + 2) =~= s@.subrange(2, s@.len() as int));
            match read_bytes(d, pos + 2) {
                None => Err(ReaderError::Truncated),
                Some((fs, e1)) => {
                    assert(from(d@, e1 as int) =~= s@.subrange((e1 - pos) as int, s@.len() as int));
                    match read_bytes(d, e1) {
                        None => Err(ReaderError::Truncated),
                        Some((dev, e2)) => Ok(Some((fs, dev, e2))),
                    }
                },
            }
        },
    }
}

} // verus!
