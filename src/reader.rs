//! Reading a whole dump, one top-level item at a time.
use crate::error::{part_to_reader, ReaderError};
use crate::facts::lemma_entries_bounds;
use crate::format::{magic, parse_container, parse_entries, parse_item_head, parse_items, PartitionModel};
use crate::le::le_val;
use crate::ps4::{entries_match, Entry, PartReader};
use crate::scan::{copy_range, entries_end, from, read_item_head, skip_entries};
use vstd::prelude::*;

verus! {

/// Reads the items of a dump held in memory.
pub struct DumpReader<'a> {
    data: &'a [u8],
    pos: usize,
    items: u32,
    skip: bool,
}

/// A reader for one top-level item.
pub enum ItemReader<'a> {
    Ps4Part(PartReader<'a>),
}

impl<'a> ItemReader<'a> {
    /// A human-readable name of the item's type.
    pub fn name(&self) -> (r: &'static str)
        ensures
            r@ == "PlayStation 4 partition"@,
    {
        match self {
            ItemReader::Ps4Part(_) => "PlayStation 4 partition",
        }
    }
}

/// Whether `d` starts with the magic prefix.
pub open spec fn has_magic(d: Seq<u8>) -> bool {
    d.len() >= 4 && d.subrange(0, 4) == magic()
}

impl<'a> DumpReader<'a> {
    #[verifier::type_invariant]
    closed spec fn inv(&self) -> bool {
        self.pos <= self.data@.len()
    }

    /// The whole dump.
    pub closed spec fn data(&self) -> Seq<u8> {
        self.data@
    }

    /// Where the reader stands: the next item, or the entries of the
    /// partition handed out last.
    pub closed spec fn pos(&self) -> int {
        self.pos as int
    }

    /// Whether the entries of the partition handed out last are still to be
    /// skipped.
    pub closed spec fn skip(&self) -> bool {
        self.skip
    }

    pub closed spec fn item_count(&self) -> u32 {
        self.items
    }

    /// Where the next item starts, once the entries of an abandoned partition
    /// are skipped.
    pub open spec fn item_start(&self) -> Result<int, ReaderError> {
        if self.skip() {
            match entries_end(from(self.data(), self.pos())) {
                Err(e) => Err(part_to_reader(e)),
                Ok(k) => Ok(self.pos() + k),
            }
        } else {
            Ok(self.pos())
        }
    }

    /// Checks the magic prefix and reads the item count kept in the last four
    /// bytes.
    pub fn new(data: &'a [u8]) -> (r: Result<DumpReader<'a>, ReaderError>)
        ensures
            match r {
                Err(e) => e == ReaderError::NotFirmwareDump && !has_magic(data@),
                Ok(dr) => has_magic(data@) && dr.data() == data@ && dr.pos() == 4 && !dr.skip()
                    && dr.item_count() as nat == le_val(
                    data@.subrange(data@.len() - 4, data@.len() as int),
                ),
            },
    {
        if data.len() < 4 {
            return Err(ReaderError::NotFirmwareDump);
        }
        if data[0] != 0x7F || data[1] != 0x4F || data[2] != 0x42 || data[3] != 0x46 {
            proof {
                if has_magic(data@) {
                    assert(data@.subrange(0, 4)[0] == data@[0]);
                    assert(data@.subrange(0, 4)[1] == data@[1]);
                    assert(data@.subrange(0, 4)[2] == data@[2]);
                    assert(data@.subrange(0, 4)[3] == data@[3]);
                }
            }
            return Err(ReaderError::NotFirmwareDump);
        }
        assert(data@.subrange(0, 4) =~= magic());
        let items = crate::le::read_le(data, data.len() - 4, 4);
        proof {
            crate::le::lemma_le_val_bound(data@.subrange(data@.len() - 4, data@.len() as int));
            reveal_with_fuel(crate::le::pow256, 5);
        }
        Ok(DumpReader { data, pos: 4, items: items as u32, skip: false })
    }

    /// Total items in this dump, including nested items, as its last four
    /// bytes record it.
    pub fn items(&self) -> (r: u32)
        ensures
            r == self.item_count(),
    {
        self.items
    }

    /// The next item, or `None` at the End item. The entries of a partition
    /// handed out before are skipped first, however many of them were read.
    pub fn next_item(&mut self) -> (r: Result<Option<ItemReader<'a>>, ReaderError>)
        ensures
            final(self).data() == old(self).data(),
            final(self).item_count() == old(self).item_count(),
            match old(self).item_start() {
                Err(e) => r == Err::<Option<ItemReader<'a>>, ReaderError>(e) && *final(self)
                    == *old(self),
                Ok(p) => match parse_item_head(from(old(self).data(), p)) {
                    Err(e) => r == Err::<Option<ItemReader<'a>>, ReaderError>(e) && *final(self)
                        == *old(self),
                    Ok(None) => r is Ok && r->Ok_0 is None && final(self).pos() == p + 1
                        && !final(self).skip(),
                    Ok(Some((fs, dev, k))) => final(self).pos() == p + k && final(self).skip()
                        && match r {
                        Ok(Some(ItemReader::Ps4Part(pr))) => pr.fs_view() == fs && pr.dev_view()
                            == dev && pr.data() == old(self).data() && pr.pos() == p + k
                            && !pr.pending(),
                        _ => false,
                    },
                },
            },
    {
        proof {
            use_type_invariant(&*self);
        }
        let start = if self.skip {
            match skip_entries(self.data, self.pos) {
                Err(e) => {
                    return Err(ReaderError::from_part(e));
                },
                Ok(e) => e,
            }
        } else {
            self.pos
        };
        match read_item_head(self.data, start) {
            Err(e) => Err(e),
            Ok(None) => {
                assert(start + 1 <= self.data.len());
                self.pos = start + 1;
                self.skip = false;
                Ok(None)
            },
            Ok(Some((fs, dev, e))) => {
                self.pos = e;
                self.skip = true;
                Ok(Some(ItemReader::Ps4Part(PartReader::new(self.data, e, fs, dev))))
            },
        }
    }

    /// Every remaining item, each partition's entries and file contents read
    /// in full through `next_item`, `PartReader::next` and `FileReader::read`.
    #[verifier::rlimit(80)]
    pub fn read_items(&mut self) -> (r: Result<Vec<Partition>, ReaderError>)
        ensures
            match old(self).item_start() {
                Err(e) => r == Err::<Vec<Partition>, ReaderError>(e),
                Ok(p) => match parse_items(from(old(self).data(), p)) {
                    Err(e) => r == Err::<Vec<Partition>, ReaderError>(e),
                    Ok(ps) => r is Ok && partitions_match(r->Ok_0@, ps),
                },
            },
    {
        let mut acc: Vec<Partition> = Vec::new();
        let ghost d = self.data@;
        let ghost mut model: Seq<PartitionModel> = Seq::empty();
        proof {
            use_type_invariant(&*self);
            if let Ok(q0) = old(self).item_start() {
                match parse_items(from(d, q0)) {
                    Ok(ps) => {
                        assert(model + ps =~= ps);
                    },
                    Err(_) => {},
                }
            }
        }
        loop
            invariant
                self.data@ == d,
                d == old(self).data(),
                self.pos <= d.len(),
                partitions_match(acc@, model),
                match old(self).item_start() {
                    Err(e) => self.item_start() == Err::<int, ReaderError>(e),
                    Ok(q0) => self.item_start() is Ok && parse_items(from(d, q0)) == match parse_items(
                        from(d, self.item_start()->Ok_0),
                    ) {
                        Err(e) => Err(e),
                        Ok(ps) => Ok::<Seq<PartitionModel>, ReaderError>(model + ps),
                    },
                },
            decreases d.len() - self.pos,
        {
            proof {
                use_type_invariant(&*self);
                lemma_entries_bounds(from(d, self.pos as int));
            }
            let ghost q = self.item_start();
            let item = match self.next_item() {
                Err(e) => {
                    return Err(e);
                },
                Ok(None) => {
                    proof {
                        assert(model + Seq::<PartitionModel>::empty() =~= model);
                    }
                    return Ok(acc);
                },
                Ok(Some(item)) => item,
            };
            proof {
                use_type_invariant(&*self);
            }
            let ItemReader::Ps4Part(mut pr) = item;
            let fs = copy_range(pr.fs(), 0, pr.fs().len());
            let dev = copy_range(pr.dev(), 0, pr.dev().len());
            proof {
                assert(fs@ =~= pr.fs_view());
                assert(dev@ =~= pr.dev_view());
            }
            let entries = match pr.read_entries() {
                Err(e) => {
                    proof {
                        let c = q->Ok_0;
                        let k = self.pos - c;
                        let s = from(d, c);
                        assert(from(d, self.pos as int) =~= s.subrange(k, s.len() as int));
                    }
                    return Err(ReaderError::from_part(e));
                },
                Ok(v) => v,
            };
            proof {
                let c = q->Ok_0;
                let k = self.pos - c;
                let s = from(d, c);
                let r = s.subrange(k, s.len() as int);
                assert(from(d, self.pos as int) =~= r);
                let (es, k2) = parse_entries(r)->Ok_0;
                lemma_entries_bounds(r);
                assert(from(d, self.pos + k2) =~= r.subrange(k2, r.len() as int));
                let m = PartitionModel { fs: fs@, dev: dev@, entries: es };
                if let Ok(q0) = old(self).item_start() {
                    match parse_items(from(d, self.pos + k2)) {
                        Ok(ps) => {
                            assert(model.push(m) + ps =~= model + (seq![m] + ps));
                        },
                        Err(_) => {},
                    }
                }
                model = model.push(m);
            }
            acc.push(Partition { fs, dev, entries });
            proof {
                assert forall|j: int| 0 <= j < acc@.len() implies partition_matches(
                    #[trigger] acc@[j],
                    model[j],
                ) by {
                    if j < acc@.len() - 1 {
                        assert(partition_matches(acc@[j], model[j]));
                    }
                }
            }
        }
    }
}

/// A partition read in full.
pub struct Partition {
    pub fs: Vec<u8>,
    pub dev: Vec<u8>,
    pub entries: Vec<Entry>,
}

/// Whether `p` is what the model partition `m` reads as.
pub open spec fn partition_matches(p: Partition, m: PartitionModel) -> bool {
    p.fs@ == m.fs && p.dev@ == m.dev && entries_match(p.entries@, m.entries)
}

pub open spec fn partitions_match(ps: Seq<Partition>, ms: Seq<PartitionModel>) -> bool {
    ps.len() == ms.len() && forall|j: int|
        0 <= j < ps.len() ==> partition_matches(#[trigger] ps[j], ms[j])
}

/// Reads a whole dump through a `DumpReader`: what it gives is exactly what
/// the container parses as, the same partitions, paths, kinds and file
/// contents, or the same error.
pub fn read_dump(data: &[u8]) -> (r: Result<Vec<Partition>, ReaderError>)
    ensures
        match parse_container(data@) {
            Err(e) => r == Err::<Vec<Partition>, ReaderError>(e),
            Ok(ps) => r is Ok && partitions_match(r->Ok_0@, ps),
        },
{
    let mut dr = match DumpReader::new(data) {
        Err(e) => {
            return Err(e);
        },
        Ok(v) => v,
    };
    assert(from(data@, 4) == data@.subrange(4, data@.len() as int));
    dr.read_items()
}

} // verus!
