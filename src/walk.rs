//! Dumping volumes: a breadth-first walk of each directory tree, written as
//! partition items of a container.
use crate::error::ReaderError;
use crate::format::{
    enc_bytes, enc_container, enc_entry, enc_entry_list, enc_partition, enc_partition_head,
    enc_partitions, magic,
    parse_container, valid_entry, valid_partition, valid_partitions, EntryModel, PartitionModel,
};
use crate::item::{DumpItem, PartItem};
use crate::le::{lemma_pow256_values, pow256};
use crate::scan::copy_range;
use crate::writer::{
    chunks_of, lemma_chunks_of, write_bytes, write_content, write_item_header,
};
use vstd::prelude::*;

verus! {

/// What a node of a volume is.
#[derive(Debug, Clone, Copy, PartialEq, Eq, Structural)]
pub enum NodeKind {
    Directory,
    File,
    /// Anything else: a link, a device, a socket.
    Other,
}

/// One name listed in a directory, and the node it resolves to.
pub struct DirEntry {
    pub name: Vec<u8>,
    pub node: usize,
}

/// A node of a volume: a directory with its listing, or a file with its
/// content. A listing may hold `.` and `..`.
pub struct Node {
    pub kind: NodeKind,
    pub entries: Vec<DirEntry>,
    pub content: Vec<u8>,
}

/// A mounted volume as the dump sees it; `nodes[0]` is the root directory.
pub struct Volume {
    pub fs: Vec<u8>,
    pub dev: Vec<u8>,
    pub read_only: bool,
    pub nodes: Vec<Node>,
}

/// Why a volume could not be dumped.
#[derive(Debug, Clone, Copy, PartialEq, Eq, Structural)]
pub enum DumpError {
    /// A name resolves to no node.
    AcquireFailed,
    /// A node is neither a directory nor a regular file.
    UnsupportedEntryType,
    /// The walk reaches more entries than the volume's listings name: a
    /// directory is reachable from itself.
    NotATree,
}

impl DumpError {
    /// A short description of the error.
    pub fn message(&self) -> (r: &'static str) {
        match self {
            DumpError::AcquireFailed => "couldn't look up a directory entry",
            DumpError::UnsupportedEntryType => "unknown node type",
            DumpError::NotATree => "the directory graph is not a tree",
        }
    }
}

/// The path of `name` inside the directory at `parent`; children of the root
/// get no leading slash.
pub open spec fn join_path(parent: Seq<u8>, name: Seq<u8>) -> Seq<u8> {
    if parent.len() == 0 {
        name
    } else {
        parent + seq![0x2Fu8] + name
    }
}

/// `.` or `..`.
pub open spec fn is_dot(name: Seq<u8>) -> bool {
    name == seq![0x2Eu8] || name == seq![0x2Eu8, 0x2Eu8]
}

/// The work a directory listing adds to the walk: each name but `.` and `..`,
/// in listing order, with its path.
pub open spec fn children_work(es: Seq<DirEntry>, path: Seq<u8>) -> Seq<(int, Seq<u8>)>
    decreases es.len(),
{
    if es.len() == 0 {
        Seq::empty()
    } else {
        let e = es.last();
        children_work(es.drop_last(), path) + if is_dot(e.name@) {
            Seq::empty()
        } else {
            seq![(e.node as int, join_path(path, e.name@))]
        }
    }
}

/// What a walk produces: the entries written, in order, and the error that
/// stopped it, if any.
pub type WalkOutcome = (Seq<EntryModel>, Option<DumpError>);

/// `es` written first, then what `r` wrote.
pub open spec fn prepend(es: Seq<EntryModel>, r: WalkOutcome) -> WalkOutcome {
    (es + r.0, r.1)
}

/// What the pending work `queue` produces, first in first out, with at most
/// `budget` entries.
pub open spec fn walk_spec(vol: Volume, queue: Seq<(int, Seq<u8>)>, budget: nat) -> WalkOutcome
    decreases budget,
{
    if queue.len() == 0 {
        (Seq::empty(), None)
    } else {
        let (i, path) = queue[0];
        let rest = queue.subrange(1, queue.len() as int);
        if !(0 <= i < vol.nodes@.len()) {
            (Seq::empty(), Some(DumpError::AcquireFailed))
        } else if budget == 0 {
            (Seq::empty(), Some(DumpError::NotATree))
        } else {
            let n = vol.nodes@[i];
            match n.kind {
                NodeKind::Directory => prepend(
                    seq![EntryModel::Directory(path)],
                    walk_spec(vol, rest + children_work(n.entries@, path), (budget - 1) as nat),
                ),
                NodeKind::File => prepend(
                    seq![EntryModel::File(path, chunks_of(n.content@))],
                    walk_spec(vol, rest, (budget - 1) as nat),
                ),
                NodeKind::Other => (Seq::empty(), Some(DumpError::UnsupportedEntryType)),
            }
        }
    }
}

/// The names of a listing other than `.` and `..`.
pub open spec fn name_count(es: Seq<DirEntry>) -> nat
    decreases es.len(),
{
    if es.len() == 0 {
        0
    } else {
        name_count(es.drop_last()) + if is_dot(es.last().name@) {
            0nat
        } else {
            1nat
        }
    }
}

/// The names of all listings of `nodes` other than `.` and `..`.
pub open spec fn listed_names(nodes: Seq<Node>) -> nat
    decreases nodes.len(),
{
    if nodes.len() == 0 {
        0
    } else {
        listed_names(nodes.drop_last()) + name_count(nodes.last().entries@)
    }
}

/// `n`, or `usize::MAX` if it is larger.
pub open spec fn saturate(n: nat) -> nat {
    if n < usize::MAX {
        n
    } else {
        usize::MAX as nat
    }
}

/// How many entries a walk may write: the root and one per listed name. A
/// file linked under several names is written once for each; a directory
/// reachable from itself exhausts it.
pub open spec fn walk_budget(vol: Volume) -> nat {
    saturate(1 + listed_names(vol.nodes@))
}

/// What walking a volume produces: breadth first from the root, whose path is
/// empty.
pub open spec fn volume_entries(vol: Volume) -> WalkOutcome {
    walk_spec(vol, seq![(0int, Seq::<u8>::empty())], walk_budget(vol))
}

/// The filesystem kinds that are dumped: `exfatfs` and `ufs`.
pub open spec fn supported_fs(fs: Seq<u8>) -> bool {
    fs == seq![0x65u8, 0x78u8, 0x66u8, 0x61u8, 0x74u8, 0x66u8, 0x73u8] || fs == seq![
        0x75u8,
        0x66u8,
        0x73u8,
    ]
}

/// Whether a volume goes into the dump.
pub open spec fn dumped(vol: Volume) -> bool {
    vol.read_only && supported_fs(vol.fs@)
}

/// A volume whose walk failed: its head, the entries written before the
/// failure, and the failure.
pub struct Failure {
    pub fs: Seq<u8>,
    pub dev: Seq<u8>,
    pub entries: Seq<EntryModel>,
    pub error: DumpError,
}

/// The partitions a dump of `vols` writes in full, in order, and the volume
/// whose walk failed, if any; nothing after it is dumped.
pub open spec fn dump_spec(vols: Seq<Volume>) -> (Seq<PartitionModel>, Option<Failure>)
    decreases vols.len(),
{
    if vols.len() == 0 {
        (Seq::empty(), None)
    } else {
        let (ps, f) = dump_spec(vols.drop_last());
        let v = vols.last();
        if f is Some || !dumped(v) {
            (ps, f)
        } else {
            let (es, err) = volume_entries(v);
            match err {
                None => (ps.push(PartitionModel { fs: v.fs@, dev: v.dev@, entries: es }), None),
                Some(e) => (ps, Some(Failure { fs: v.fs@, dev: v.dev@, entries: es, error: e })),
            }
        }
    }
}

/// The bytes a dump of `vols` writes: a whole container, or, after a failed
/// walk, everything up to the last entry written before the failure.
pub open spec fn dump_bytes(vols: Seq<Volume>) -> Seq<u8> {
    let (ps, f) = dump_spec(vols);
    match f {
        None => enc_container(ps),
        Some(fl) => magic() + enc_partitions(ps) + enc_partition_head(fl.fs, fl.dev)
            + enc_entry_list(fl.entries),
    }
}

pub proof fn lemma_entry_list_push(es: Seq<EntryModel>, e: EntryModel)
    ensures
        enc_entry_list(es.push(e)) == enc_entry_list(es) + enc_entry(e),
    decreases es.len(),
{
    let l = es.push(e);
    if es.len() == 0 {
        assert(l.subrange(1, l.len() as int) =~= Seq::<EntryModel>::empty());
        assert(l[0] == e);
        assert(enc_entry_list(l) == enc_entry(e) + enc_entry_list(Seq::<EntryModel>::empty()));
        assert(enc_entry_list(l) =~= enc_entry_list(es) + enc_entry(e));
    } else {
        let t = es.subrange(1, es.len() as int);
        lemma_entry_list_push(t, e);
        assert(l.subrange(1, l.len() as int) =~= t.push(e));
        assert(l[0] == es[0]);
        assert(enc_entry_list(l) == enc_entry(es[0]) + enc_entry_list(t.push(e)));
        assert(enc_entry_list(es) == enc_entry(es[0]) + enc_entry_list(t));
        assert(enc_entry_list(l) =~= enc_entry_list(es) + enc_entry(e));
    }
}

pub proof fn lemma_partitions_push(ps: Seq<PartitionModel>, p: PartitionModel)
    ensures
        enc_partitions(ps.push(p)) == enc_partitions(ps) + enc_partition(p),
    decreases ps.len(),
{
    let l = ps.push(p);
    if ps.len() == 0 {
        assert(l.subrange(1, l.len() as int) =~= Seq::<PartitionModel>::empty());
        assert(l[0] == p);
        assert(enc_partitions(l) == enc_partition(p) + enc_partitions(
            Seq::<PartitionModel>::empty(),
        ));
        assert(enc_partitions(l) =~= enc_partitions(ps) + enc_partition(p));
    } else {
        let t = ps.subrange(1, ps.len() as int);
        lemma_partitions_push(t, p);
        assert(l.subrange(1, l.len() as int) =~= t.push(p));
        assert(l[0] == ps[0]);
        assert(enc_partitions(l) == enc_partition(ps[0]) + enc_partitions(t.push(p)));
        assert(enc_partitions(ps) == enc_partition(ps[0]) + enc_partitions(t));
        assert(enc_partitions(l) =~= enc_partitions(ps) + enc_partition(p));
    }
}

/// Whether `name` is `.` or `..`.
pub fn is_dot_name(name: &[u8]) -> (r: bool)
    ensures
        r == is_dot(name@),
{
    let r = (name.len() == 1 && name[0] == 0x2E) || (name.len() == 2 && name[0] == 0x2E && name[1]
        == 0x2E);
    proof {
        if name@.len() == 1 && name@[0] == 0x2E {
            assert(name@ =~= seq![0x2Eu8]);
        }
        if name@.len() == 2 && name@[0] == 0x2E && name@[1] == 0x2E {
            assert(name@ =~= seq![0x2Eu8, 0x2Eu8]);
        }
    }
    r
}

/// The path of `name` inside the directory at `parent`.
pub fn child_path(parent: &[u8], name: &[u8]) -> (r: Vec<u8>)
    ensures
        r@ == join_path(parent@, name@),
{
    let mut r = copy_range(parent, 0, parent.len());
    assert(r@ =~= parent@);
    if parent.len() > 0 {
        r.push(0x2F);
    }
    let ghost mid = r@;
    let mut i: usize = 0;
    while i < name.len()
        invariant
            i <= name@.len(),
            r@ == mid + name@.subrange(0, i as int),
        decreases name@.len() - i,
    {
        r.push(name[i]);
        i = i + 1;
        assert(r@ =~= mid + name@.subrange(0, i as int));
    }
    assert(r@ =~= join_path(parent@, name@));
    r
}

/// Whether a filesystem of type `fs` is dumped.
pub fn is_supported_fs(fs: &[u8]) -> (r: bool)
    ensures
        r == supported_fs(fs@),
{
    let exfat = fs.len() == 7 && fs[0] == 0x65 && fs[1] == 0x78 && fs[2] == 0x66 && fs[3] == 0x61
        && fs[4] == 0x74 && fs[5] == 0x66 && fs[6] == 0x73;
    let ufs = fs.len() == 3 && fs[0] == 0x75 && fs[1] == 0x66 && fs[2] == 0x73;
    proof {
        if exfat {
            assert(fs@ =~= seq![0x65u8, 0x78u8, 0x66u8, 0x61u8, 0x74u8, 0x66u8, 0x73u8]);
        }
        if ufs {
            assert(fs@ =~= seq![0x75u8, 0x66u8, 0x73u8]);
        }
    }
    exfat || ufs
}

/// Appends an entry's tag and path.
fn write_entry_head(out: &mut Vec<u8>, tag: u8, path: &[u8])
    ensures
        final(out)@ == old(out)@ + seq![tag] + enc_bytes(path@),
{
    out.push(tag);
    write_bytes(out, path);
}

/// The pending work of a queue, as the walk's specification sees it.
pub open spec fn work_view(q: Seq<(usize, Vec<u8>)>) -> Seq<(int, Seq<u8>)> {
    q.map_values(|w: (usize, Vec<u8>)| (w.0 as int, w.1@))
}

proof fn lemma_prepend_push(done: Seq<EntryModel>, d: EntryModel, x: WalkOutcome)
    ensures
        prepend(done, prepend(seq![d], x)) == prepend(done.push(d), x),
{
    assert(done + (seq![d] + x.0) =~= done.push(d) + x.0);
}

/// How many entries a walk of `vol` may write.
pub fn walk_budget_of(vol: &Volume) -> (r: usize)
    ensures
        r == walk_budget(*vol),
{
    let mut c: usize = 1;
    let mut i: usize = 0;
    while i < vol.nodes.len()
        invariant
            i <= vol.nodes@.len(),
            c == saturate(1 + listed_names(vol.nodes@.subrange(0, i as int))),
        decreases vol.nodes@.len() - i,
    {
        let entries = &vol.nodes[i].entries;
        let ghost base = 1 + listed_names(vol.nodes@.subrange(0, i as int));
        let mut j: usize = 0;
        while j < entries.len()
            invariant
                j <= entries@.len(),
                c == saturate(base + name_count(entries@.subrange(0, j as int))),
            decreases entries@.len() - j,
        {
            proof {
                let t = entries@.subrange(0, j + 1);
                assert(t.drop_last() =~= entries@.subrange(0, j as int));
                assert(t.last() == entries@[j as int]);
            }
            if !is_dot_name(entries[j].name.as_slice()) && c < usize::MAX {
                c = c + 1;
            }
            j = j + 1;
        }
        proof {
            let t = vol.nodes@.subrange(0, i + 1);
            assert(t.drop_last() =~= vol.nodes@.subrange(0, i as int));
            assert(t.last() == vol.nodes@[i as int]);
            assert(entries@.subrange(0, entries@.len() as int) =~= entries@);
        }
        i = i + 1;
    }
    assert(vol.nodes@.subrange(0, vol.nodes@.len() as int) =~= vol.nodes@);
    c
}

/// Writes the entries of `vol` to `out`, breadth first from the root: each
/// directory's children follow all entries of smaller depth. Pending work
/// waits in a queue, so the depth of the tree costs no stack. On a failure
/// the entries written before it stay in `out`.
pub fn walk(vol: &Volume, out: &mut Vec<u8>) -> (r: Result<(), DumpError>)
    ensures
        final(out)@ == old(out)@ + enc_entry_list(volume_entries(*vol).0),
        forall|k: int|
            0 <= k < volume_entries(*vol).0.len() ==> valid_entry(
                #[trigger] volume_entries(*vol).0[k],
            ),
        match volume_entries(*vol).1 {
            None => r is Ok,
            Some(e) => r == Err::<(), DumpError>(e),
        },
{
    proof {
        lemma_pow256_values();
    }
    let mut queue: Vec<(usize, Vec<u8>)> = Vec::new();
    queue.push((0, Vec::new()));
    let mut head: usize = 0;
    let mut budget: usize = walk_budget_of(vol);
    let ghost mut done: Seq<EntryModel> = Seq::empty();
    proof {
        assert(work_view(queue@).subrange(0, 1) =~= seq![(0int, Seq::<u8>::empty())]);
        assert(Seq::<EntryModel>::empty() + volume_entries(*vol).0 =~= volume_entries(*vol).0);
        assert(enc_entry_list(done) =~= Seq::<u8>::empty());
        assert(old(out)@ + Seq::<u8>::empty() =~= old(out)@);
    }
    while head < queue.len()
        invariant
            head <= queue@.len(),
            out@ == old(out)@ + enc_entry_list(done),
            pow256(8) == 0x1_0000_0000_0000_0000,
            forall|k: int| 0 <= k < done.len() ==> valid_entry(#[trigger] done[k]),
            volume_entries(*vol) == prepend(
                done,
                walk_spec(
                    *vol,
                    work_view(queue@).subrange(head as int, queue@.len() as int),
                    budget as nat,
                ),
            ),
        decreases budget,
    {
        let ghost w = work_view(queue@).subrange(head as int, queue@.len() as int);
        let ghost q0 = queue@;
        let i = queue[head].0;
        let path = copy_range(queue[head].1.as_slice(), 0, queue[head].1.len());
        let path_len = path.len();
        proof {
            assert(queue[head as int].1@.subrange(0, queue[head as int].1@.len() as int) =~= queue[head as int].1@);
            assert(w[0] == (i as int, path@));
        }
        head = head + 1;
        proof {
            assert(w.subrange(1, w.len() as int) =~= work_view(queue@).subrange(
                head as int,
                queue@.len() as int,
            ));
        }
        if i >= vol.nodes.len() {
            assert(done + Seq::<EntryModel>::empty() =~= done);
            return Err(DumpError::AcquireFailed);
        }
        if budget == 0 {
            assert(done + Seq::<EntryModel>::empty() =~= done);
            return Err(DumpError::NotATree);
        }
        budget = budget - 1;
        let node = &vol.nodes[i];
        match node.kind {
            NodeKind::Directory => {
                write_entry_head(out, PartItem::Directory.to_u8(), path.as_slice());
                let mut j: usize = 0;
                while j < node.entries.len()
                    invariant
                        j <= node.entries@.len(),
                        head <= q0.len(),
                        queue@.len() >= q0.len(),
                        work_view(queue@) == work_view(q0) + children_work(
                            node.entries@.subrange(0, j as int),
                            path@,
                        ),
                    decreases node.entries@.len() - j,
                {
                    let e = &node.entries[j];
                    let ghost before = queue@;
                    proof {
                        let t = node.entries@.subrange(0, j + 1);
                        assert(t.drop_last() =~= node.entries@.subrange(0, j as int));
                        assert(t.last() == node.entries@[j as int]);
                    }
                    if !is_dot_name(e.name.as_slice()) {
                        let c = child_path(path.as_slice(), e.name.as_slice());
                        queue.push((e.node, c));
                        proof {
                            assert(work_view(queue@) =~= work_view(before) + seq![
                                (e.node as int, join_path(path@, e.name@)),
                            ]);
                        }
                    } else {
                        assert(work_view(queue@) =~= work_view(before) + Seq::empty());
                    }
                    j = j + 1;
                }
                proof {
                    let kids = children_work(node.entries@, path@);
                    assert(node.entries@.subrange(0, node.entries@.len() as int) =~= node.entries@);
                    assert(work_view(queue@).subrange(head as int, queue@.len() as int)
                        =~= work_view(q0).subrange(head as int, q0.len() as int) + kids);
                    lemma_prepend_push(
                        done,
                        EntryModel::Directory(path@),
                        walk_spec(*vol, w.subrange(1, w.len() as int) + kids, budget as nat),
                    );
                    lemma_entry_list_push(done, EntryModel::Directory(path@));
                    let prev = done;
                    done = done.push(EntryModel::Directory(path@));
                    assert forall|k: int| 0 <= k < done.len() implies valid_entry(
                        #[trigger] done[k],
                    ) by {
                        if k < prev.len() {
                            assert(done[k] == prev[k]);
                        }
                    }
                    assert(out@ =~= old(out)@ + enc_entry_list(done));
                }
            },
            NodeKind::File => {
                write_entry_head(out, PartItem::File.to_u8(), path.as_slice());
                write_content(out, node.content.as_slice());
                proof {
                    let d = EntryModel::File(path@, chunks_of(node.content@));
                    lemma_prepend_push(
                        done,
                        d,
                        walk_spec(*vol, w.subrange(1, w.len() as int), budget as nat),
                    );
                    lemma_entry_list_push(done, d);
                    lemma_chunks_of(node.content@);
                    let prev = done;
                    done = done.push(d);
                    assert forall|k: int| 0 <= k < done.len() implies valid_entry(
                        #[trigger] done[k],
                    ) by {
                        if k < prev.len() {
                            assert(done[k] == prev[k]);
                        }
                    }
                    assert(out@ =~= old(out)@ + enc_entry_list(done));
                }
            },
            NodeKind::Other => {
                assert(done + Seq::<EntryModel>::empty() =~= done);
                return Err(DumpError::UnsupportedEntryType);
            },
        }
    }
    proof {
        assert(work_view(queue@).subrange(head as int, queue@.len() as int) =~= Seq::<(int, Seq<u8>)>::empty());
        assert(done + Seq::<EntryModel>::empty() =~= done);
    }
    Ok(())
}

proof fn lemma_dump_failure_stays(vols: Seq<Volume>, j: int, k: int)
    requires
        0 <= j <= k <= vols.len(),
        dump_spec(vols.subrange(0, j)).1 is Some,
    ensures
        dump_spec(vols.subrange(0, k)) == dump_spec(vols.subrange(0, j)),
    decreases k - j,
{
    if k > j {
        lemma_dump_failure_stays(vols, j, k - 1);
        assert(vols.subrange(0, k).drop_last() =~= vols.subrange(0, k - 1));
    }
}

/// Appends to `out` a dump of every read-only volume whose filesystem kind
/// is supported, in order; other volumes are passed over. The first volume
/// whose walk fails stops the dump, and what was written before the failure
/// stays in `out`. A complete dump reads back as the partitions it holds.
#[verifier::rlimit(80)]
pub fn dump(vols: &Vec<Volume>, out: &mut Vec<u8>) -> (r: Result<(), DumpError>)
    ensures
        final(out)@ == old(out)@ + dump_bytes(vols@),
        match dump_spec(vols@).1 {
            None => r is Ok && valid_partitions(dump_spec(vols@).0) && parse_container(
                dump_bytes(vols@),
            ) == Ok::<Seq<PartitionModel>, ReaderError>(dump_spec(vols@).0),
            Some(f) => r == Err::<(), DumpError>(f.error),
        },
{
    proof {
        lemma_pow256_values();
    }
    let ghost start = out@;
    out.push(0x7F);
    out.push(0x4F);
    out.push(0x42);
    out.push(0x46);
    let ghost mut ps: Seq<PartitionModel> = Seq::empty();
    proof {
        assert(out@ =~= start + (magic() + enc_partitions(ps)));
        assert(vols@.subrange(0, 0) =~= Seq::<Volume>::empty());
    }
    let mut j: usize = 0;
    while j < vols.len()
        invariant
            j <= vols@.len(),
            dump_spec(vols@.subrange(0, j as int)) == (ps, None::<Failure>),
            out@ == start + (magic() + enc_partitions(ps)),
            start == old(out)@,
            pow256(8) == 0x1_0000_0000_0000_0000,
            valid_partitions(ps),
        decreases vols@.len() - j,
    {
        let v = &vols[j];
        proof {
            let t = vols@.subrange(0, j + 1);
            assert(t.drop_last() =~= vols@.subrange(0, j as int));
            assert(t.last() == vols@[j as int]);
        }
        if v.read_only && is_supported_fs(v.fs.as_slice()) {
            let fs_len = v.fs.len();
            let dev_len = v.dev.len();
            let ghost before = out@;
            write_item_header(out, DumpItem::Ps4Part.to_u8(), 0);
            write_bytes(out, v.fs.as_slice());
            write_bytes(out, v.dev.as_slice());
            proof {
                assert(out@ =~= before + enc_partition_head(v.fs@, v.dev@));
            }
            match walk(v, out) {
                Err(e) => {
                    proof {
                        let we = volume_entries(*v);
                        assert(dump_spec(vols@.subrange(0, j + 1)) == (
                            ps,
                            Some(Failure { fs: v.fs@, dev: v.dev@, entries: we.0, error: e }),
                        ));
                        lemma_dump_failure_stays(vols@, j + 1, vols@.len() as int);
                        assert(vols@.subrange(0, vols@.len() as int) =~= vols@);
                        assert(out@ =~= start + dump_bytes(vols@));
                    }
                    return Err(e);
                },
                Ok(()) => {},
            }
            out.push(PartItem::End.to_u8());
            proof {
                let es = volume_entries(*v).0;
                let p = PartitionModel { fs: v.fs@, dev: v.dev@, entries: es };
                assert(dump_spec(vols@.subrange(0, j + 1)) == (ps.push(p), None::<Failure>));
                lemma_partitions_push(ps, p);
                let prev = ps;
                ps = ps.push(p);
                assert forall|k: int| 0 <= k < ps.len() implies valid_partition(#[trigger] ps[k]) by {
                    if k < prev.len() {
                        assert(ps[k] == prev[k]);
                    }
                }
                assert(out@ =~= start + (magic() + enc_partitions(ps)));
            }
        }
        j = j + 1;
    }
    out.push(DumpItem::End.to_u8());
    proof {
        assert(vols@.subrange(0, vols@.len() as int) =~= vols@);
        assert(out@ =~= start + enc_container(ps));
        crate::laws::lemma_container_round_trip(ps);
    }
    Ok(())
}

} // verus!
