use std::io::Read;

use shares::format::{end_blocks, serialize_entry, SerializeError};
use shares::pipeline::{archive_chunks, plan_archive};
use shares::tree::{DirChild, FsTree};
use shares::walk::ArchiveEntry;

fn file(data: &[u8], mtime: u64) -> FsTree {
    FsTree::File { mtime, data: data.to_vec() }
}

fn dir(children: Vec<(&str, FsTree)>, mtime: u64) -> FsTree {
    FsTree::Dir {
        mtime,
        children: children
            .into_iter()
            .map(|(n, t)| DirChild { name: n.as_bytes().to_vec(), tree: t })
            .collect(),
    }
}

fn entry(path: &[&str], is_dir: bool, mtime: u64, data: &[u8]) -> ArchiveEntry {
    ArchiveEntry {
        path: path.iter().map(|c| c.as_bytes().to_vec()).collect(),
        is_dir,
        mtime,
        data: data.to_vec(),
    }
}

fn archive_bytes(tree: &FsTree, sels: &[&str]) -> Vec<u8> {
    let selections: Vec<Vec<u8>> = sels.iter().map(|s| s.as_bytes().to_vec()).collect();
    let plan = plan_archive(tree, &b"share".to_vec(), &selections).unwrap();
    let chunks = archive_chunks(&plan.entries);
    let mut out = Vec::new();
    for c in &chunks {
        out.extend_from_slice(c);
    }
    out
}

#[test]
fn file_record_layout_is_exact() {
    let e = entry(&["docs", "a.txt"], false, 1_000_000_000, b"hello");
    let b = serialize_entry(&e).unwrap();
    // one header block, then the contents padded to a whole block
    assert_eq!(b.len(), 1024);
    assert_eq!(&b[0..10], b"docs/a.txt");
    assert_eq!(b[10], 0);
    assert_eq!(&b[100..108], b"0000644\0");
    // 5 bytes, in octal
    assert_eq!(&b[124..136], b"00000000005\0");
    // 1_000_000_000 seconds, in octal
    assert_eq!(&b[136..148], b"07346545000\0");
    assert_eq!(b[156], b'0');
    assert_eq!(&b[257..265], b"ustar\x0000");
    assert_eq!(&b[512..517], b"hello");
    assert!(b[517..1024].iter().all(|&x| x == 0));
    // the checksum field sums the header with the field itself blank
    let mut sum: u64 = 0;
    for i in 0..512 {
        sum += if (148..156).contains(&i) { 32 } else { b[i] as u64 };
    }
    let expect = format!("{:06o}\0 ", sum);
    assert_eq!(&b[148..156], expect.as_bytes());
}

#[test]
fn directory_record_has_trailing_slash_and_no_contents() {
    let e = entry(&["docs"], true, 7, b"");
    let b = serialize_entry(&e).unwrap();
    assert_eq!(b.len(), 512);
    assert_eq!(&b[0..5], b"docs/");
    assert_eq!(&b[100..108], b"0000755\0");
    assert_eq!(&b[124..136], b"00000000000\0");
    assert_eq!(b[156], b'5');
}

#[test]
fn end_marker_is_two_zero_blocks() {
    let e = end_blocks();
    assert_eq!(e.len(), 1024);
    assert!(e.iter().all(|&x| x == 0));
}

#[test]
fn overlong_name_is_refused() {
    let long = "x".repeat(101);
    let e = entry(&[&long], false, 1, b"d");
    assert_eq!(serialize_entry(&e).unwrap_err(), SerializeError::NameTooLong);
}

#[test]
fn exactly_100_byte_name_is_carried() {
    let name = "y".repeat(100);
    let e = entry(&[&name], false, 1, b"d");
    assert!(serialize_entry(&e).is_ok());
}

#[test]
fn overflowing_timestamp_is_refused() {
    let e = entry(&["a"], false, 8589934592, b"d");
    assert_eq!(serialize_entry(&e).unwrap_err(), SerializeError::TimeTooLarge);
}

#[test]
fn extraction_reproduces_files_byte_for_byte() {
    // round trip through a real extractor
    let tree = dir(
        vec![
            (
                "docs",
                dir(
                    vec![
                        ("a.txt", file(b"hello world", 1_600_000_000)),
                        (".secret", file(b"0123456789", 1)),
                        ("inner", dir(vec![("deep.bin", file(&[0u8, 1, 2, 255], 42))], 5)),
                    ],
                    9,
                ),
            ),
            ("top.txt", file(b"top level", 77)),
        ],
        3,
    );
    let bytes = archive_bytes(&tree, &[]);
    assert_eq!(bytes.len() % 512, 0);

    let mut ar = tar::Archive::new(&bytes[..]);
    let mut seen: Vec<(String, bool, u64, Vec<u8>)> = Vec::new();
    for e in ar.entries().unwrap() {
        let mut e = e.unwrap();
        let path = e.path().unwrap().to_string_lossy().into_owned();
        let is_dir = e.header().entry_type().is_dir();
        let mtime = e.header().mtime().unwrap();
        let mut data = Vec::new();
        e.read_to_end(&mut data).unwrap();
        seen.push((path, is_dir, mtime, data));
    }
    let expect: Vec<(String, bool, u64, Vec<u8>)> = vec![
        ("docs/".into(), true, 9, vec![]),
        ("docs/a.txt".into(), false, 1_600_000_000, b"hello world".to_vec()),
        ("docs/inner/".into(), true, 5, vec![]),
        ("docs/inner/deep.bin".into(), false, 42, vec![0, 1, 2, 255]),
        ("top.txt".into(), false, 77, b"top level".to_vec()),
    ];
    assert_eq!(seen, expect);
}

#[test]
fn unserializable_entry_is_skipped_not_fatal() {
    let long = "z".repeat(200);
    let tree = dir(
        vec![(long.as_str(), file(b"unreachable name", 1)), ("ok.txt", file(b"fine", 2))],
        0,
    );
    let bytes = archive_bytes(&tree, &[]);
    let mut ar = tar::Archive::new(&bytes[..]);
    let names: Vec<String> = ar
        .entries()
        .unwrap()
        .map(|e| e.unwrap().path().unwrap().to_string_lossy().into_owned())
        .collect();
    assert_eq!(names, vec!["ok.txt".to_string()]);
}
