//! Reading the entries of a PlayStation 4 partition item.
use crate::error::PartError;
use crate::format::{
    flatten, parse_block, parse_blocks, parse_entries, parse_entry_head, EntryHead, EntryModel,
};
use crate::scan::{blocks_end, copy_range, from, read_block, read_entry_head, skip_blocks};
use crate::facts::lemma_blocks_bounds;
use crate::writer::MAX_BLOCK;
pub use crate::item::PartItem;
use vstd::prelude::*;

verus! {

/// Reads the entries of one partition item, one at a time.
pub struct PartReader<'a> {
    data: &'a [u8],
    pos: usize,
    pending: bool,
    fs: Vec<u8>,
    dev: Vec<u8>,
}

/// One entry of a partition: a directory's path, or a file's path and a
/// reader of its content.
pub enum PartData<'a> {
    Directory(Vec<u8>),
    File(Vec<u8>, FileReader<'a>),
}

/// Reads the block stream of one file. A block read in part by `read` is
/// kept until its bytes are handed out.
pub struct FileReader<'a> {
    data: &'a [u8],
    pos: usize,
    done: bool,
    buf: Vec<u8>,
    off: usize,
}

impl<'a> FileReader<'a> {
    #[verifier::type_invariant]
    closed spec fn inv(&self) -> bool {
        self.pos <= self.data@.len() && self.off <= self.buf@.len()
    }

    /// The whole dump.
    pub closed spec fn data(&self) -> Seq<u8> {
        self.data@
    }

    /// Where the next block starts.
    pub closed spec fn pos(&self) -> int {
        self.pos as int
    }

    /// Whether the sentinel was read.
    pub closed spec fn done(&self) -> bool {
        self.done
    }

    /// Bytes of a block already read from the dump and not yet handed out.
    pub closed spec fn buffered(&self) -> Seq<u8> {
        self.buf@.subrange(self.off as int, self.buf@.len() as int)
    }

    pub(crate) fn new(data: &'a [u8], pos: usize) -> (r: FileReader<'a>)
        requires
            pos <= data@.len(),
        ensures
            r.data() == data@,
            r.pos() == pos,
            !r.done(),
            r.buffered().len() == 0,
    {
        FileReader { data, pos, done: false, buf: Vec::new(), off: 0 }
    }

    /// Hands out the buffered bytes.
    fn take_buffered(&mut self) -> (r: Vec<u8>)
        ensures
            r@ == old(self).buffered(),
            final(self).buffered().len() == 0,
            final(self).data() == old(self).data(),
            final(self).pos() == old(self).pos(),
            final(self).done() == old(self).done(),
    {
        proof {
            use_type_invariant(&*self);
        }
        let r = copy_range(self.buf.as_slice(), self.off, self.buf.len());
        self.off = self.buf.len();
        r
    }

    /// The next non-empty piece of content: the buffered bytes if any, else
    /// the next block; `None` once the sentinel is read.
    pub fn next_block(&mut self) -> (r: Result<Option<Vec<u8>>, PartError>)
        ensures
            final(self).data() == old(self).data(),
            final(self).buffered().len() == 0,
            if old(self).buffered().len() > 0 {
                r is Ok && r->Ok_0 is Some && r->Ok_0->Some_0@ == old(self).buffered()
                    && final(self).pos() == old(self).pos() && final(self).done() == old(
                    self,
                ).done()
            } else if old(self).done() {
                r is Ok && r->Ok_0 is None && final(self).pos() == old(self).pos()
                    && final(self).done()
            } else {
                match parse_block(from(old(self).data(), old(self).pos())) {
                    None => r == Err::<Option<Vec<u8>>, PartError>(PartError::Truncated)
                        && final(self).pos() == old(self).pos() && !final(self).done(),
                    Some((b, k)) => final(self).pos() == old(self).pos() + k && if b.len() == 0 {
                        r is Ok && r->Ok_0 is None && final(self).done()
                    } else {
                        r is Ok && r->Ok_0 is Some && r->Ok_0->Some_0@ == b && !final(self).done()
                    },
                }
            },
    {
        proof {
            use_type_invariant(&*self);
        }
        if self.off < self.buf.len() {
            return Ok(Some(self.take_buffered()));
        }
        if self.done {
            return Ok(None);
        }
        match read_block(self.data, self.pos) {
            None => Err(PartError::Truncated),
            Some((b, e)) => {
                self.pos = e;
                if b.len() == 0 {
                    self.done = true;
                    Ok(None)
                } else {
                    Ok(Some(b))
                }
            },
        }
    }

    /// Up to `max` bytes of content, taken from the buffered bytes, else from
    /// the next block, whose unread rest stays buffered. An empty result with
    /// `max > 0` means the content is over.
    pub fn read(&mut self, max: usize) -> (r: Result<Vec<u8>, PartError>)
        ensures
            final(self).data() == old(self).data(),
            max == 0 ==> r is Ok && r->Ok_0@.len() == 0 && *final(self) == *old(self),
            max > 0 && old(self).buffered().len() > 0 ==> {
                let n = if max < old(self).buffered().len() {
                    max as int
                } else {
                    old(self).buffered().len() as int
                };
                r is Ok && r->Ok_0@ == old(self).buffered().subrange(0, n)
                    && final(self).buffered() == old(self).buffered().subrange(
                    n,
                    old(self).buffered().len() as int,
                ) && final(self).pos() == old(self).pos() && final(self).done() == old(
                    self,
                ).done()
            },
            max > 0 && old(self).buffered().len() == 0 && old(self).done() ==> r is Ok
                && r->Ok_0@.len() == 0 && *final(self) == *old(self),
            max > 0 && old(self).buffered().len() == 0 && !old(self).done() ==> match parse_block(
                from(old(self).data(), old(self).pos()),
            ) {
                None => r == Err::<Vec<u8>, PartError>(PartError::Truncated) && *final(self)
                    == *old(self),
                Some((b, k)) => {
                    let n = if max < b.len() {
                        max as int
                    } else {
                        b.len() as int
                    };
                    final(self).pos() == old(self).pos() + k && r is Ok && r->Ok_0@
                        == b.subrange(0, n) && final(self).buffered() == b.subrange(
                        n,
                        b.len() as int,
                    ) && final(self).done() == (b.len() == 0)
                },
            },
    {
        proof {
            use_type_invariant(&*self);
        }
        if max == 0 {
            return Ok(Vec::new());
        }
        if self.off == self.buf.len() {
            if self.done {
                return Ok(Vec::new());
            }
            match read_block(self.data, self.pos) {
                None => {
                    return Err(PartError::Truncated);
                },
                Some((b, e)) => {
                    self.pos = e;
                    if b.len() == 0 {
                        self.done = true;
                        self.off = 0;
                        self.buf = b;
                        return Ok(Vec::new());
                    }
                    self.off = 0;
                    self.buf = b;
                },
            }
        }
        let left = self.buf.len() - self.off;
        let n: usize = if max < left {
            max
        } else {
            left
        };
        let ghost before = self.buffered();
        let r = copy_range(self.buf.as_slice(), self.off, self.off + n);
        self.off = self.off + n;
        proof {
            assert(r@ =~= before.subrange(0, n as int));
            assert(self.buffered() =~= before.subrange(n as int, before.len() as int));
        }
        Ok(r)
    }

    /// The content still to come: the buffered bytes, then the blocks up to
    /// the sentinel; `None` when the dump ends first.
    pub open spec fn remaining(&self) -> Option<Seq<u8>> {
        if self.done() {
            Some(self.buffered())
        } else {
            match parse_blocks(from(self.data(), self.pos())) {
                None => None,
                Some((cs, _)) => Some(self.buffered() + flatten(cs)),
            }
        }
    }

    /// Where the file's block stream ends in the dump, if it is complete.
    pub open spec fn stream_end(&self) -> Option<int> {
        if self.done() {
            Some(self.pos())
        } else {
            match blocks_end(from(self.data(), self.pos())) {
                None => None,
                Some(k) => Some(self.pos() + k),
            }
        }
    }

    /// The rest of the file's content, gathered by `read` calls of at most one
    /// block each: the buffered bytes, then every block up to the sentinel.
    pub fn read_to_end(&mut self) -> (r: Result<Vec<u8>, PartError>)
        ensures
            final(self).data() == old(self).data(),
            if old(self).done() {
                r is Ok && r->Ok_0@ == old(self).buffered() && final(self).buffered().len() == 0
            } else {
                match parse_blocks(from(old(self).data(), old(self).pos())) {
                    None => r == Err::<Vec<u8>, PartError>(PartError::Truncated),
                    Some((cs, k)) => r is Ok && r->Ok_0@ == old(self).buffered() + flatten(cs)
                        && final(self).done() && final(self).pos() == old(self).pos() + k
                        && final(self).buffered().len() == 0,
                }
            },
    {
        let mut acc: Vec<u8> = Vec::new();
        let ghost all = old(self).remaining();
        let ghost end = old(self).stream_end();
        proof {
            use_type_invariant(&*self);
            assert(acc@ + self.buffered() =~= self.buffered());
        }
        loop
            invariant
                self.data() == old(self).data(),
                all == old(self).remaining(),
                end == old(self).stream_end(),
                old(self).done() ==> self.done(),
                all is None ==> self.remaining() is None,
                all is Some ==> self.remaining() is Some && acc@ + self.remaining()->Some_0
                    == all->Some_0 && self.stream_end() == end,
            decreases self.data().len() - self.pos(), self.buffered().len(),
        {
            proof {
                use_type_invariant(&*self);
                let s = from(self.data(), self.pos());
                if !self.done() && self.buffered().len() == 0 {
                    if let Some((b, k)) = parse_block(s) {
                        let n = b.len() as int;
                        assert(from(self.data(), self.pos() + k) =~= s.subrange(k, s.len() as int));
                        if parse_blocks(s) is Some && n > 0 {
                            let rest = parse_blocks(s.subrange(k, s.len() as int))->Some_0.0;
                            let cs = parse_blocks(s)->Some_0.0;
                            assert(cs == seq![b] + rest);
                            assert((seq![b] + rest)[0] == b);
                            assert((seq![b] + rest).subrange(1, (seq![b] + rest).len() as int)
                                =~= rest);
                            assert(flatten(cs) == b + flatten(rest));
                        }
                    }
                }
            }
            let ghost before = *self;
            let piece = match self.read(MAX_BLOCK) {
                Err(e) => {
                    return Err(e);
                },
                Ok(v) => v,
            };
            if piece.len() == 0 {
                proof {
                    assert(acc@ + Seq::<u8>::empty() =~= acc@);
                    if !before.done() && before.buffered().len() == 0 {
                        let s = from(before.data(), before.pos());
                        if parse_block(s) is Some && parse_block(s)->Some_0.0.len() == 0 {
                            assert(flatten(Seq::<Seq<u8>>::empty()) =~= Seq::<u8>::empty());
                        }
                    }
                }
                return Ok(acc);
            }
            let ghost acc0 = acc@;
            let ghost p = piece@;
            let mut piece = piece;
            acc.append(&mut piece);
            proof {
                if all is Some {
                    let rb = before.remaining()->Some_0;
                    if before.buffered().len() > 0 {
                        assert(before.buffered() =~= p + self.buffered());
                        assert(acc@ + self.remaining()->Some_0 =~= acc0 + rb);
                    } else {
                        let s = from(before.data(), before.pos());
                        let b = parse_block(s)->Some_0.0;
                        assert(b =~= p + self.buffered());
                        assert(acc@ + self.remaining()->Some_0 =~= acc0 + rb);
                    }
                }
            }
        }
    }
}

impl<'a> PartReader<'a> {
    #[verifier::type_invariant]
    closed spec fn inv(&self) -> bool {
        self.pos <= self.data@.len()
    }

    /// The whole dump.
    pub closed spec fn data(&self) -> Seq<u8> {
        self.data@
    }

    /// Where the reader stands: the next entry, or the content of the file
    /// entry handed out last.
    pub closed spec fn pos(&self) -> int {
        self.pos as int
    }

    /// Whether the content of the file handed out last is still to be skipped.
    pub closed spec fn pending(&self) -> bool {
        self.pending
    }

    pub closed spec fn fs_view(&self) -> Seq<u8> {
        self.fs@
    }

    pub closed spec fn dev_view(&self) -> Seq<u8> {
        self.dev@
    }

    /// Where the next entry starts, once the content of an abandoned file is
    /// skipped.
    pub open spec fn entry_start(&self) -> Result<int, PartError> {
        if self.pending() {
            match blocks_end(from(self.data(), self.pos())) {
                None => Err(PartError::Truncated),
                Some(k) => Ok(self.pos() + k),
            }
        } else {
            Ok(self.pos())
        }
    }

    pub(crate) fn new(data: &'a [u8], pos: usize, fs: Vec<u8>, dev: Vec<u8>) -> (r: PartReader<'a>)
        requires
            pos <= data@.len(),
        ensures
            r.data() == data@,
            r.pos() == pos,
            !r.pending(),
            r.fs_view() == fs@,
            r.dev_view() == dev@,
    {
        PartReader { data, pos, pending: false, fs, dev }
    }

    /// The filesystem type of the partition.
    pub fn fs(&self) -> (r: &[u8])
        ensures
            r@ == self.fs_view(),
    {
        self.fs.as_slice()
    }

    /// The device the partition was mounted from.
    pub fn dev(&self) -> (r: &[u8])
        ensures
            r@ == self.dev_view(),
    {
        self.dev.as_slice()
    }

    /// The next entry, or `None` at the partition's End marker. The content
    /// of a file handed out before is skipped first, however much of it was
    /// read.
    pub fn next(&mut self) -> (r: Result<Option<PartData<'a>>, PartError>)
        ensures
            final(self).data() == old(self).data(),
            final(self).fs_view() == old(self).fs_view(),
            final(self).dev_view() == old(self).dev_view(),
            match old(self).entry_start() {
                Err(e) => r == Err::<Option<PartData<'a>>, PartError>(e) && *final(self) == *old(
                    self,
                ),
                Ok(p) => match parse_entry_head(from(old(self).data(), p)) {
                    Err(e) => r == Err::<Option<PartData<'a>>, PartError>(e) && *final(self)
                        == *old(self),
                    Ok(None) => r is Ok && r->Ok_0 is None && final(self).pos() == p + 1
                        && !final(self).pending(),
                    Ok(Some((EntryHead::Directory(path), k))) => final(self).pos() == p + k
                        && !final(self).pending() && match r {
                        Ok(Some(PartData::Directory(v))) => v@ == path,
                        _ => false,
                    },
                    Ok(Some((EntryHead::File(path), k))) => final(self).pos() == p + k
                        && final(self).pending() && match r {
                        Ok(Some(PartData::File(v, f))) => v@ == path && f.data() == old(
                            self,
                        ).data() && f.pos() == p + k && !f.done() && f.buffered().len() == 0,
                        _ => false,
                    },
                },
            },
    {
        proof {
            use_type_invariant(&*self);
        }
        let start = if self.pending {
            match skip_blocks(self.data, self.pos) {
                None => {
                    return Err(PartError::Truncated);
                },
                Some(e) => e,
            }
        } else {
            self.pos
        };
        match read_entry_head(self.data, start) {
            Err(e) => Err(e),
            Ok(None) => {
                assert(start < self.data.len());
                self.pos = start + 1;
                self.pending = false;
                Ok(None)
            },
            Ok(Some((dir, path, e))) => {
                self.pos = e;
                if dir {
                    self.pending = false;
                    Ok(Some(PartData::Directory(path)))
                } else {
                    self.pending = true;
                    Ok(Some(PartData::File(path, FileReader::new(self.data, e))))
                }
            },
        }
    }

    /// Every remaining entry, each file's content read to its end through the
    /// reader that `next` hands out.
    #[verifier::rlimit(80)]
    pub fn read_entries(&mut self) -> (r: Result<Vec<Entry>, PartError>)
        requires
            !old(self).pending(),
        ensures
            match parse_entries(from(old(self).data(), old(self).pos())) {
                Err(e) => r == Err::<Vec<Entry>, PartError>(e),
                Ok((es, _)) => r is Ok && entries_match(r->Ok_0@, es),
            },
    {
        let mut acc: Vec<Entry> = Vec::new();
        let ghost d = self.data@;
        let ghost p0 = self.pos as int;
        let ghost mut model: Seq<EntryModel> = Seq::empty();
        proof {
            use_type_invariant(&*self);
            assert(from(d, p0) == from(d, self.pos as int));
            match parse_entries(from(d, p0)) {
                Ok((es, k)) => {
                    assert(model + es =~= es);
                },
                Err(_) => {},
            }
        }
        loop
            invariant
                self.data@ == d,
                d == old(self).data(),
                p0 == old(self).pos(),
                self.pos <= d.len(),
                entries_match(acc@, model),
                self.entry_start() is Ok,
                parse_entries(from(d, p0)) == match parse_entries(
                    from(d, self.entry_start()->Ok_0),
                ) {
                    Err(e) => Err(e),
                    Ok((es, k)) => Ok::<(Seq<EntryModel>, int), PartError>(
                        (model + es, self.entry_start()->Ok_0 - p0 + k),
                    ),
                },
            decreases d.len() - self.pos,
        {
            proof {
                use_type_invariant(&*self);
                lemma_blocks_bounds(from(d, self.pos as int));
            }
            let ghost c = self.entry_start()->Ok_0;
            let ghost s = from(d, c);
            let ghost pos_before = self.pos as int;
            match self.next() {
                Err(e) => {
                    return Err(e);
                },
                Ok(None) => {
                    proof {
                        assert(model + Seq::<EntryModel>::empty() =~= model);
                    }
                    return Ok(acc);
                },
                Ok(Some(PartData::Directory(path))) => {
                    proof {
                        use_type_invariant(&*self);
                        let k = self.pos - c;
                        assert(from(d, self.pos as int) =~= s.subrange(k, s.len() as int));
                        match parse_entries(from(d, self.pos as int)) {
                            Ok((es, k2)) => {
                                assert(model.push(EntryModel::Directory(path@)) + es =~= model + (
                                seq![EntryModel::Directory(path@)] + es));
                            },
                            Err(_) => {},
                        }
                        model = model.push(EntryModel::Directory(path@));
                    }
                    acc.push(Entry::Directory(path));
                    proof {
                        assert forall|j: int| 0 <= j < acc@.len() implies entry_matches(
                            #[trigger] acc@[j],
                            model[j],
                        ) by {
                            if j < acc@.len() - 1 {
                                assert(entry_matches(acc@[j], model[j]));
                            }
                        }
                    }
                },
                Ok(Some(PartData::File(path, f))) => {
                    let mut f = f;
                    proof {
                        use_type_invariant(&*self);
                    }
                    let content = match f.read_to_end() {
                        Err(e) => {
                            proof {
                                let k = self.pos - c;
                                assert(from(d, self.pos as int) =~= s.subrange(k, s.len() as int));
                            }
                            return Err(e);
                        },
                        Ok(v) => v,
                    };
                    proof {
                        use_type_invariant(&f);
                        lemma_blocks_bounds(from(d, self.pos as int));
                        let k = self.pos - c;
                        let r = s.subrange(k, s.len() as int);
                        assert(from(d, self.pos as int) =~= r);
                        let (cs, k1) = parse_blocks(r)->Some_0;
                        assert(from(d, self.pos + k1) =~= r.subrange(k1, r.len() as int));
                        assert(content@ =~= flatten(cs));
                        let e = EntryModel::File(path@, cs);
                        match parse_entries(from(d, self.pos + k1)) {
                            Ok((es, k2)) => {
                                assert(model.push(e) + es =~= model + (seq![e] + es));
                            },
                            Err(_) => {},
                        }
                        model = model.push(e);
                    }
                    acc.push(Entry::File(path, content));
                    proof {
                        assert forall|j: int| 0 <= j < acc@.len() implies entry_matches(
                            #[trigger] acc@[j],
                            model[j],
                        ) by {
                            if j < acc@.len() - 1 {
                                assert(entry_matches(acc@[j], model[j]));
                            }
                        }
                    }
                },
            }
        }
    }
}

/// An entry read in full: a directory's path, or a file's path and content.
pub enum Entry {
    Directory(Vec<u8>),
    File(Vec<u8>, Vec<u8>),
}

/// Whether `e` is what the model entry `m` reads as: the same kind and path,
/// and for a file the bytes of its blocks.
pub open spec fn entry_matches(e: Entry, m: EntryModel) -> bool {
    match (e, m) {
        (Entry::Directory(p), EntryModel::Directory(q)) => p@ == q,
        (Entry::File(p, c), EntryModel::File(q, cs)) => p@ == q && c@ == flatten(cs),
        _ => false,
    }
}

pub open spec fn entries_match(es: Seq<Entry>, ms: Seq<EntryModel>) -> bool {
    es.len() == ms.len() && forall|j: int| 0 <= j < es.len() ==> entry_matches(#[trigger] es[j], ms[j])
}

} // verus!
