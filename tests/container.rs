use obfw::error::{PartError, ReaderError};
use obfw::ps4::{Entry, PartData};
use obfw::reader::{read_dump, DumpReader, ItemReader};
use obfw::walk::{dump, DirEntry, DumpError, Node, NodeKind, Volume};

fn dump_of(vols: &Vec<Volume>) -> Result<Vec<u8>, DumpError> {
    let mut out = Vec::new();
    dump(vols, &mut out).map(|_| out)
}

fn dir(entries: Vec<(&str, usize)>) -> Node {
    Node {
        kind: NodeKind::Directory,
        entries: entries
            .into_iter()
            .map(|(n, i)| DirEntry { name: n.as_bytes().to_vec(), node: i })
            .collect(),
        content: Vec::new(),
    }
}

fn file(content: &[u8]) -> Node {
    Node { kind: NodeKind::File, entries: Vec::new(), content: content.to_vec() }
}

fn volume(fs: &str, dev: &str, read_only: bool, nodes: Vec<Node>) -> Volume {
    Volume { fs: fs.as_bytes().to_vec(), dev: dev.as_bytes().to_vec(), read_only, nodes }
}

/// `/a` holding "xyz" and `/b/c` empty, with `.` and `..` in each listing.
fn sample_volume() -> Volume {
    volume(
        "ufs",
        "/dev/da0",
        true,
        vec![
            dir(vec![(".", 0), ("..", 0), ("a", 1), ("b", 2)]),
            file(b"xyz"),
            dir(vec![(".", 2), ("..", 0), ("c", 3)]),
            file(b""),
        ],
    )
}

#[derive(Debug, PartialEq)]
enum Fact {
    Dir(Vec<u8>),
    File(Vec<u8>, Vec<Vec<u8>>),
}

#[derive(Debug, PartialEq)]
enum Failure {
    Reader(ReaderError),
    Part(PartError),
}

/// Reads every item, entry and block of a dump.
fn read_all(data: &[u8]) -> Result<Vec<(Vec<u8>, Vec<u8>, Vec<Fact>)>, Failure> {
    let mut r = DumpReader::new(data).map_err(Failure::Reader)?;
    let mut parts = Vec::new();
    while let Some(item) = r.next_item().map_err(Failure::Reader)? {
        let ItemReader::Ps4Part(mut p) = item;
        let fs = p.fs().to_vec();
        let dev = p.dev().to_vec();
        let mut facts = Vec::new();
        while let Some(e) = p.next().map_err(Failure::Part)? {
            match e {
                PartData::Directory(path) => facts.push(Fact::Dir(path)),
                PartData::File(path, mut f) => {
                    let mut blocks = Vec::new();
                    while let Some(b) = f.next_block().map_err(Failure::Part)? {
                        blocks.push(b);
                    }
                    facts.push(Fact::File(path, blocks));
                }
            }
        }
        parts.push((fs, dev, facts));
    }
    Ok(parts)
}

#[test]
fn scenario_ufs_volume() {
    let data = dump_of(&vec![sample_volume()]).unwrap();
    let parts = read_all(&data).unwrap();
    assert_eq!(parts.len(), 1);
    let (fs, dev, facts) = &parts[0];
    assert_eq!(fs, b"ufs");
    assert_eq!(dev, b"/dev/da0");
    assert_eq!(
        facts,
        &vec![
            Fact::Dir(b"".to_vec()),
            Fact::File(b"a".to_vec(), vec![b"xyz".to_vec()]),
            Fact::Dir(b"b".to_vec()),
            Fact::File(b"b/c".to_vec(), vec![]),
        ]
    );
}

#[test]
fn scenario_exact_bytes() {
    let data = dump_of(&vec![sample_volume()]).unwrap();
    let mut want: Vec<u8> = vec![0x7F, b'O', b'B', b'F', 1, 0];
    want.extend_from_slice(&3u64.to_le_bytes());
    want.extend_from_slice(b"ufs");
    want.extend_from_slice(&8u64.to_le_bytes());
    want.extend_from_slice(b"/dev/da0");
    want.push(1);
    want.extend_from_slice(&0u64.to_le_bytes());
    want.push(2);
    want.extend_from_slice(&1u64.to_le_bytes());
    want.extend_from_slice(b"a");
    want.extend_from_slice(&[3, 0]);
    want.extend_from_slice(b"xyz");
    want.extend_from_slice(&[0, 0]);
    want.push(1);
    want.extend_from_slice(&1u64.to_le_bytes());
    want.extend_from_slice(b"b");
    want.push(2);
    want.extend_from_slice(&3u64.to_le_bytes());
    want.extend_from_slice(b"b/c");
    want.extend_from_slice(&[0, 0]);
    // End of entries, then the End item.
    want.push(0);
    want.push(0);
    assert_eq!(data, want);
}

#[test]
fn round_trip_large_file_and_many_volumes() {
    let big: Vec<u8> = (0..150_000u32).map(|i| (i % 251) as u8).collect();
    let v1 = volume(
        "exfatfs",
        "/dev/sbram0",
        true,
        vec![dir(vec![("big", 1), ("d", 2)]), file(&big), dir(vec![("e", 3)]), dir(vec![])],
    );
    let v2 = sample_volume();
    let data = dump_of(&vec![v1, v2]).unwrap();
    let parts = read_all(&data).unwrap();
    assert_eq!(parts.len(), 2);
    assert_eq!(parts[0].0, b"exfatfs");
    let facts = &parts[0].2;
    assert_eq!(facts[0], Fact::Dir(b"".to_vec()));
    match &facts[1] {
        Fact::File(path, blocks) => {
            assert_eq!(path, b"big");
            assert_eq!(blocks.iter().map(|b| b.len()).collect::<Vec<_>>(), vec![65535, 65535, 18930]);
            assert_eq!(blocks.concat(), big);
        }
        other => panic!("unexpected {:?}", other),
    }
    assert_eq!(facts[2], Fact::Dir(b"d".to_vec()));
    assert_eq!(facts[3], Fact::Dir(b"d/e".to_vec()));
    assert_eq!(facts.len(), 4);

    let mut r = DumpReader::new(&data).unwrap();
    let ItemReader::Ps4Part(mut p) = r.next_item().unwrap().unwrap();
    p.next().unwrap();
    match p.next().unwrap().unwrap() {
        PartData::File(_, mut f) => assert_eq!(f.read_to_end().unwrap(), big),
        _ => panic!("expected a file"),
    }
}

#[test]
fn skip_abandoned_file_and_partition() {
    let big: Vec<u8> = vec![7; 70_000];
    let v1 = volume("ufs", "/dev/a", true, vec![dir(vec![("f", 1), ("g", 2)]), file(&big), file(b"q")]);
    let v2 = volume("ufs", "/dev/b", true, vec![dir(vec![])]);
    let data = dump_of(&vec![v1, v2]).unwrap();
    let mut r = DumpReader::new(&data).unwrap();
    {
        let ItemReader::Ps4Part(mut p) = r.next_item().unwrap().unwrap();
        assert!(matches!(p.next().unwrap(), Some(PartData::Directory(_))));
        match p.next().unwrap().unwrap() {
            PartData::File(path, mut f) => {
                assert_eq!(path, b"f");
                assert_eq!(f.next_block().unwrap().unwrap().len(), 65535);
            }
            _ => panic!("expected a file"),
        }
        match p.next().unwrap().unwrap() {
            PartData::File(path, mut f) => {
                assert_eq!(path, b"g");
                assert_eq!(f.read_to_end().unwrap(), b"q");
            }
            _ => panic!("expected a file"),
        }
    }
    // The first partition was left before its End marker was read.
    let mut r2 = DumpReader::new(&data).unwrap();
    {
        let ItemReader::Ps4Part(p) = r2.next_item().unwrap().unwrap();
        assert_eq!(p.dev(), b"/dev/a");
    }
    let ItemReader::Ps4Part(mut p) = r2.next_item().unwrap().unwrap();
    assert_eq!(p.dev(), b"/dev/b");
    assert!(matches!(p.next().unwrap(), Some(PartData::Directory(_))));
    assert!(p.next().unwrap().is_none());
    assert!(r2.next_item().unwrap().is_none());
    let _ = r.next_item();
}

#[test]
fn truncation_is_reported_at_every_offset() {
    let big: Vec<u8> = vec![1; 70_000];
    let v = volume("ufs", "/dev/da0", true, vec![dir(vec![("a", 1), ("b", 2)]), file(&big), dir(vec![("c", 3)]), file(b"")]);
    let data = dump_of(&vec![v, sample_volume()]).unwrap();
    assert!(read_all(&data).is_ok());
    for k in 4..data.len() {
        match read_all(&data[..k]) {
            Err(Failure::Reader(ReaderError::Truncated)) | Err(Failure::Part(PartError::Truncated)) => {}
            other => panic!("cut at {}: {:?}", k, other.map(|p| p.len())),
        }
    }
    for k in 0..4 {
        assert_eq!(read_all(&data[..k]).unwrap_err(), Failure::Reader(ReaderError::NotFirmwareDump));
    }
}

#[test]
fn unknown_version_is_rejected() {
    let mut data: Vec<u8> = vec![0x7F, b'O', b'B', b'F', 1, 99];
    data.extend_from_slice(&3u64.to_le_bytes());
    data.extend_from_slice(b"ufs");
    let mut r = DumpReader::new(&data).unwrap();
    assert_eq!(r.next_item().err(), Some(ReaderError::UnknownVersion(1, 99)));
}

#[test]
fn empty_file_is_one_zero_block() {
    let v = volume("ufs", "/dev/x", true, vec![dir(vec![("e", 1)]), file(b"")]);
    let data = dump_of(&vec![v]).unwrap();
    // Path, sentinel, End of entries, End item.
    assert_eq!(&data[data.len() - 5..], &[b'e', 0, 0, 0, 0]);
    let mut r = DumpReader::new(&data).unwrap();
    let ItemReader::Ps4Part(mut p) = r.next_item().unwrap().unwrap();
    p.next().unwrap();
    match p.next().unwrap().unwrap() {
        PartData::File(path, mut f) => {
            assert_eq!(path, b"e");
            assert_eq!(f.read_to_end().unwrap(), Vec::<u8>::new());
            assert_eq!(f.next_block().unwrap(), None);
        }
        _ => panic!("expected a file"),
    }
    assert!(p.next().unwrap().is_none());
}

#[test]
fn partial_reads_follow_block_boundaries() {
    let mut content = vec![3u8; 65535];
    content.extend_from_slice(b"tail");
    let v = volume("ufs", "/dev/x", true, vec![dir(vec![("f", 1), ("g", 2)]), file(&content), file(b"abcdef")]);
    let data = dump_of(&vec![v]).unwrap();
    let mut r = DumpReader::new(&data).unwrap();
    let ItemReader::Ps4Part(mut p) = r.next_item().unwrap().unwrap();
    p.next().unwrap();
    match p.next().unwrap().unwrap() {
        PartData::File(_, mut f) => {
            assert_eq!(f.read(0).unwrap(), Vec::<u8>::new());
            assert_eq!(f.read(65000).unwrap().len(), 65000);
            // The rest of the first block only.
            assert_eq!(f.read(1000).unwrap().len(), 535);
            assert_eq!(f.read(2).unwrap(), b"ta");
            assert_eq!(f.read_to_end().unwrap(), b"il");
            assert_eq!(f.read(5).unwrap(), Vec::<u8>::new());
        }
        _ => panic!("expected a file"),
    }
    match p.next().unwrap().unwrap() {
        PartData::File(path, mut f) => {
            assert_eq!(path, b"g");
            assert_eq!(f.read(4).unwrap(), b"abcd");
            assert_eq!(f.next_block().unwrap(), Some(b"ef".to_vec()));
            assert_eq!(f.read(4).unwrap(), Vec::<u8>::new());
            assert_eq!(f.next_block().unwrap(), None);
        }
        _ => panic!("expected a file"),
    }
    assert!(p.next().unwrap().is_none());
    assert!(r.next_item().unwrap().is_none());
}

#[test]
fn skip_after_partial_read() {
    let v = volume("ufs", "/dev/x", true, vec![dir(vec![("f", 1), ("g", 2)]), file(b"abcdef"), dir(vec![])]);
    let data = dump_of(&vec![v]).unwrap();
    let mut r = DumpReader::new(&data).unwrap();
    let ItemReader::Ps4Part(mut p) = r.next_item().unwrap().unwrap();
    p.next().unwrap();
    match p.next().unwrap().unwrap() {
        PartData::File(_, mut f) => assert_eq!(f.read(1).unwrap(), b"a"),
        _ => panic!("expected a file"),
    }
    match p.next().unwrap().unwrap() {
        PartData::Directory(path) => assert_eq!(path, b"g"),
        _ => panic!("expected a directory"),
    }
}

#[test]
fn scenario_reader_on_one_byte_end_markers() {
    let mut data: Vec<u8> = vec![0x7F, b'O', b'B', b'F', 1, 0];
    let bs = |d: &mut Vec<u8>, x: &[u8]| {
        d.extend_from_slice(&(x.len() as u64).to_le_bytes());
        d.extend_from_slice(x);
    };
    bs(&mut data, b"ufs");
    bs(&mut data, b"/dev/da0");
    data.push(1);
    bs(&mut data, b"");
    data.push(1);
    bs(&mut data, b"b");
    data.push(2);
    bs(&mut data, b"a");
    data.extend_from_slice(&[3, 0, b'x', b'y', b'z', 0, 0]);
    data.push(2);
    bs(&mut data, b"b/c");
    data.extend_from_slice(&[0, 0, 0, 0]);
    let parts = read_all(&data).unwrap();
    assert_eq!(parts.len(), 1);
    assert_eq!(
        parts[0].2,
        vec![
            Fact::Dir(b"".to_vec()),
            Fact::Dir(b"b".to_vec()),
            Fact::File(b"a".to_vec(), vec![b"xyz".to_vec()]),
            Fact::File(b"b/c".to_vec(), vec![]),
        ]
    );
}

#[test]
fn failed_walk_keeps_what_was_written() {
    let bad = volume("ufs", "/dev/x", true, vec![dir(vec![("a", 1), ("l", 2)]), file(b"q"), Node {
        kind: NodeKind::Other,
        entries: Vec::new(),
        content: Vec::new(),
    }]);
    let later = sample_volume();
    let mut out = vec![0xAA];
    assert_eq!(dump(&vec![sample_volume(), bad, later], &mut out), Err(DumpError::UnsupportedEntryType));
    let mut want = vec![0xAA];
    want.extend_from_slice(&dump_of(&vec![sample_volume()]).unwrap());
    want.pop();
    want.extend_from_slice(&[1, 0]);
    want.extend_from_slice(&3u64.to_le_bytes());
    want.extend_from_slice(b"ufs");
    want.extend_from_slice(&6u64.to_le_bytes());
    want.extend_from_slice(b"/dev/x");
    want.push(1);
    want.extend_from_slice(&0u64.to_le_bytes());
    want.push(2);
    want.extend_from_slice(&1u64.to_le_bytes());
    want.extend_from_slice(b"a");
    want.extend_from_slice(&[1, 0, b'q', 0, 0]);
    assert_eq!(out, want);

    // A missing root leaves the partition head alone.
    let rootless = volume("ufs", "/dev/y", true, vec![]);
    let mut out = Vec::new();
    assert_eq!(dump(&vec![rootless], &mut out), Err(DumpError::AcquireFailed));
    let mut want: Vec<u8> = vec![0x7F, b'O', b'B', b'F', 1, 0];
    want.extend_from_slice(&3u64.to_le_bytes());
    want.extend_from_slice(b"ufs");
    want.extend_from_slice(&6u64.to_le_bytes());
    want.extend_from_slice(b"/dev/y");
    assert_eq!(out, want);
}

#[test]
fn hard_linked_file_is_dumped_under_each_name() {
    let v = volume("ufs", "/dev/x", true, vec![dir(vec![("a", 1), ("d", 2)]), file(b"hi"), dir(vec![("b", 1)])]);
    let parts = read_all(&dump_of(&vec![v]).unwrap()).unwrap();
    assert_eq!(
        parts[0].2,
        vec![
            Fact::Dir(b"".to_vec()),
            Fact::File(b"a".to_vec(), vec![b"hi".to_vec()]),
            Fact::Dir(b"d".to_vec()),
            Fact::File(b"d/b".to_vec(), vec![b"hi".to_vec()]),
        ]
    );
}

#[test]
fn read_dump_gives_back_the_dumped_tree() {
    let big: Vec<u8> = (0..70_000u32).map(|i| (i % 7) as u8).collect();
    let v = volume("exfatfs", "/dev/y", true, vec![dir(vec![("big", 1), ("d", 2)]), file(&big), dir(vec![("e", 3)]), file(b"")]);
    let data = dump_of(&vec![sample_volume(), v]).unwrap();
    let parts = read_dump(&data).unwrap();
    assert_eq!(parts.len(), 2);
    assert_eq!(parts[1].fs, b"exfatfs");
    assert_eq!(parts[1].dev, b"/dev/y");
    let e = &parts[1].entries;
    assert_eq!(e.len(), 4);
    assert!(matches!(&e[0], Entry::Directory(p) if p.is_empty()));
    assert!(matches!(&e[1], Entry::File(p, c) if p == b"big" && *c == big));
    assert!(matches!(&e[2], Entry::Directory(p) if p == b"d"));
    assert!(matches!(&e[3], Entry::File(p, c) if p == b"d/e" && c.is_empty()));
    assert!(matches!(&parts[0].entries[1], Entry::File(p, c) if p == b"a" && c == b"xyz"));
}

#[test]
fn read_dump_reports_truncation_at_every_offset() {
    let v = volume("ufs", "/dev/da0", true, vec![dir(vec![("a", 1)]), file(&vec![9u8; 66_000])]);
    let data = dump_of(&vec![v, sample_volume()]).unwrap();
    assert!(read_dump(&data).is_ok());
    for k in 4..data.len() {
        assert!(matches!(read_dump(&data[..k]), Err(ReaderError::Truncated)), "cut at {}", k);
    }
}
