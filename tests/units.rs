use obfw::error::{PartError, ReaderError};
use obfw::item::{DumpItem, PartItem};
use obfw::ps4::PartData;
use obfw::reader::{DumpReader, ItemReader};
use obfw::walk::{child_path, dump, is_dot_name, is_supported_fs, walk, DirEntry, DumpError, Node, NodeKind, Volume};
use obfw::writer::{write_block, write_bytes, write_content, write_eof, write_item_header};

fn dump_of(vols: &Vec<Volume>) -> Result<Vec<u8>, DumpError> {
    let mut out = Vec::new();
    dump(vols, &mut out).map(|_| out)
}

fn node(kind: NodeKind, entries: Vec<(&str, usize)>) -> Node {
    Node {
        kind,
        entries: entries
            .into_iter()
            .map(|(n, i)| DirEntry { name: n.as_bytes().to_vec(), node: i })
            .collect(),
        content: Vec::new(),
    }
}

fn vol(fs: &str, read_only: bool, nodes: Vec<Node>) -> Volume {
    Volume { fs: fs.as_bytes().to_vec(), dev: b"/dev/x".to_vec(), read_only, nodes }
}

const EMPTY_DUMP: [u8; 5] = [0x7F, b'O', b'B', b'F', 0];

#[test]
fn encoders_write_exact_bytes() {
    let mut out = vec![9u8];
    write_bytes(&mut out, b"ab");
    assert_eq!(out, vec![9, 2, 0, 0, 0, 0, 0, 0, 0, b'a', b'b']);
    let mut out = Vec::new();
    write_block(&mut out, b"xyz");
    assert_eq!(out, vec![3, 0, b'x', b'y', b'z']);
    let mut out = Vec::new();
    write_eof(&mut out);
    assert_eq!(out, vec![0, 0]);
    let mut out = Vec::new();
    write_item_header(&mut out, 1, 0);
    assert_eq!(out, vec![1, 0]);
    let mut out = Vec::new();
    write_block(&mut out, &vec![5u8; 300]);
    assert_eq!(&out[..2], &[0x2C, 0x01]);
}

#[test]
fn content_is_cut_into_full_blocks() {
    let c = vec![4u8; 65535 * 2 + 1];
    let mut out = Vec::new();
    write_content(&mut out, &c);
    assert_eq!(out.len(), 2 + 65535 + 2 + 65535 + 2 + 1 + 2);
    assert_eq!(&out[..2], &[0xFF, 0xFF]);
    assert_eq!(&out[65537..65539], &[0xFF, 0xFF]);
    assert_eq!(&out[131074..131076], &[1, 0]);
    assert_eq!(&out[out.len() - 2..], &[0, 0]);
    let mut out = Vec::new();
    write_content(&mut out, &[]);
    assert_eq!(out, vec![0, 0]);
}

#[test]
fn paths_and_names() {
    assert_eq!(child_path(b"", b"a"), b"a".to_vec());
    assert_eq!(child_path(b"b", b"c"), b"b/c".to_vec());
    assert_eq!(child_path(b"x/y", b"z"), b"x/y/z".to_vec());
    assert!(is_dot_name(b"."));
    assert!(is_dot_name(b".."));
    assert!(!is_dot_name(b"..."));
    assert!(!is_dot_name(b".a"));
    assert!(is_supported_fs(b"ufs"));
    assert!(is_supported_fs(b"exfatfs"));
    assert!(!is_supported_fs(b"devfs"));
    assert!(!is_supported_fs(b"uf"));
}

#[test]
fn tags_map_both_ways() {
    assert_eq!(DumpItem::from_u8(0), Some(DumpItem::End));
    assert_eq!(DumpItem::from_u8(1), Some(DumpItem::Ps4Part));
    assert_eq!(DumpItem::from_u8(2), None);
    assert_eq!(DumpItem::Ps4Part.to_u8(), 1);
    assert_eq!(DumpItem::Ps4Part.name(), "PlayStation 4 partition");
    assert_eq!(DumpItem::End.name(), "");
    assert_eq!(PartItem::from_u8(2), Some(PartItem::File));
    assert_eq!(PartItem::from_u8(3), None);
    assert_eq!(PartItem::Directory.to_u8(), 1);
}

#[test]
fn skipped_volumes_leave_an_empty_dump() {
    let vols = vec![
        vol("ufs", false, vec![node(NodeKind::Directory, vec![])]),
        vol("devfs", true, vec![node(NodeKind::Directory, vec![])]),
    ];
    assert_eq!(dump_of(&vols).unwrap(), EMPTY_DUMP.to_vec());
    assert_eq!(dump_of(&vec![]).unwrap(), EMPTY_DUMP.to_vec());
}

#[test]
fn walk_errors() {
    let mut out = Vec::new();
    let dangling = vol("ufs", true, vec![node(NodeKind::Directory, vec![("a", 5)])]);
    assert_eq!(walk(&dangling, &mut out), Err(DumpError::AcquireFailed));
    let no_root = vol("ufs", true, vec![]);
    assert_eq!(walk(&no_root, &mut Vec::new()), Err(DumpError::AcquireFailed));
    let other = vol("ufs", true, vec![node(NodeKind::Directory, vec![("l", 1)]), node(NodeKind::Other, vec![])]);
    assert_eq!(walk(&other, &mut Vec::new()), Err(DumpError::UnsupportedEntryType));
    let cycle = vol("ufs", true, vec![node(NodeKind::Directory, vec![("loop", 0)])]);
    let mut out = Vec::new();
    assert_eq!(walk(&cycle, &mut out), Err(DumpError::NotATree));
    // The root and its one name were written before the budget ran out.
    assert_eq!(out.len(), 1 + 8 + 1 + 8 + 4);
    assert_eq!(dump_of(&vec![cycle]), Err(DumpError::NotATree));
    assert_eq!(DumpError::NotATree.message(), "the directory graph is not a tree");
}

#[test]
fn walk_is_breadth_first() {
    let v = vol(
        "ufs",
        true,
        vec![
            node(NodeKind::Directory, vec![("p", 1), ("q", 2)]),
            node(NodeKind::Directory, vec![("deep", 3)]),
            node(NodeKind::Directory, vec![]),
            node(NodeKind::Directory, vec![]),
        ],
    );
    let data = dump_of(&vec![v]).unwrap();
    let mut r = DumpReader::new(&data).unwrap();
    let ItemReader::Ps4Part(mut p) = r.next_item().unwrap().unwrap();
    let mut paths = Vec::new();
    while let Some(e) = p.next().unwrap() {
        match e {
            PartData::Directory(path) => paths.push(String::from_utf8(path).unwrap()),
            PartData::File(..) => panic!("no files here"),
        }
    }
    assert_eq!(paths, vec!["", "p", "q", "p/deep"]);
}

#[test]
fn not_a_dump() {
    assert_eq!(DumpReader::new(b"").err(), Some(ReaderError::NotFirmwareDump));
    assert_eq!(DumpReader::new(b"\x7FOB").err(), Some(ReaderError::NotFirmwareDump));
    assert_eq!(DumpReader::new(b"\x7FOBG\0\0").err(), Some(ReaderError::NotFirmwareDump));
    assert!(DumpReader::new(&EMPTY_DUMP).is_ok());
}

#[test]
fn item_count_is_the_last_four_bytes() {
    let mut data = EMPTY_DUMP.to_vec();
    data.extend_from_slice(&7u32.to_le_bytes());
    let mut r = DumpReader::new(&data).unwrap();
    assert_eq!(r.items(), 7);
    assert!(r.next_item().unwrap().is_none());
}

#[test]
fn unknown_tags() {
    let data = [0x7F, b'O', b'B', b'F', 7, 0];
    let mut r = DumpReader::new(&data).unwrap();
    assert_eq!(r.next_item().err(), Some(ReaderError::UnknownItem(7)));
    assert_eq!(r.next_item().err(), Some(ReaderError::UnknownItem(7)));

    let mut data: Vec<u8> = vec![0x7F, b'O', b'B', b'F', 1, 0];
    data.extend_from_slice(&0u64.to_le_bytes());
    data.extend_from_slice(&0u64.to_le_bytes());
    data.push(9);
    let mut r = DumpReader::new(&data).unwrap();
    {
        let ItemReader::Ps4Part(mut p) = r.next_item().unwrap().unwrap();
        assert_eq!(p.next().err(), Some(PartError::UnknownItem(9)));
        assert_eq!(p.fs(), b"");
    }
    // Skipping the partition meets the same tag.
    assert_eq!(r.next_item().err(), Some(ReaderError::UnknownEntry(9)));
    assert_eq!(ReaderError::from_part(PartError::Truncated), ReaderError::Truncated);
}

#[test]
fn truncated_inside_an_item() {
    let data = [0x7F, b'O', b'B', b'F', 1];
    let mut r = DumpReader::new(&data).unwrap();
    assert_eq!(r.next_item().err(), Some(ReaderError::Truncated));
    let mut data: Vec<u8> = vec![0x7F, b'O', b'B', b'F', 1, 0];
    data.extend_from_slice(&5u64.to_le_bytes());
    data.extend_from_slice(b"ufs");
    let mut r = DumpReader::new(&data).unwrap();
    assert_eq!(r.next_item().err(), Some(ReaderError::Truncated));
}
