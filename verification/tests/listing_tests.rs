use shares::entry::is_hidden_name;
use shares::listing::list_entries;
use shares::tree::{DirChild, FsTree};

fn file(data: &[u8], mtime: u64) -> FsTree {
    FsTree::File { mtime, data: data.to_vec() }
}

fn dir(children: Vec<(&str, FsTree)>, mtime: u64) -> FsTree {
    FsTree::Dir {
        mtime,
        children: children
            .into_iter()
            .map(|(n, t)| DirChild { name: n.as_bytes().to_vec(), tree: t })
            .collect(),
    }
}

#[test]
fn hidden_marker_is_a_leading_dot() {
    assert!(is_hidden_name(&b".secret".to_vec()));
    assert!(is_hidden_name(&b".".to_vec()));
    assert!(!is_hidden_name(&b"visible".to_vec()));
    assert!(!is_hidden_name(&b"a.txt".to_vec()));
    assert!(!is_hidden_name(&b"".to_vec()));
}

#[test]
fn listing_excludes_hidden_entries() {
    let tree = dir(
        vec![
            (".git", dir(vec![], 1)),
            ("src", dir(vec![], 2)),
            (".env", file(b"key=value", 3)),
            ("readme.txt", file(b"hi", 4)),
        ],
        0,
    );
    let rows = list_entries(&tree);
    let names: Vec<Vec<u8>> = rows.iter().map(|r| r.name.clone()).collect();
    assert_eq!(names, vec![b"src".to_vec(), b"readme.txt".to_vec()]);
}

#[test]
fn listing_sorts_directories_first_then_by_time() {
    let tree = dir(
        vec![
            ("new.txt", file(b"n", 50)),
            ("beta", dir(vec![], 40)),
            ("old.txt", file(b"o", 10)),
            ("alpha", dir(vec![], 20)),
        ],
        0,
    );
    let rows = list_entries(&tree);
    let names: Vec<Vec<u8>> = rows.iter().map(|r| r.name.clone()).collect();
    assert_eq!(
        names,
        vec![b"alpha".to_vec(), b"beta".to_vec(), b"old.txt".to_vec(), b"new.txt".to_vec()]
    );
}

#[test]
fn listing_reports_file_sizes() {
    let tree = dir(vec![("data.bin", file(&[7u8; 1234], 1))], 0);
    let rows = list_entries(&tree);
    assert_eq!(rows.len(), 1);
    assert!(!rows[0].is_dir);
    assert_eq!(rows[0].size, 1234);
    assert_eq!(rows[0].mtime, 1);
}

#[test]
fn row_sort_drops_hidden_and_orders() {
    let row = |name: &[u8], is_dir: bool, mtime: u64| shares::listing::ListingRow {
        name: name.to_vec(),
        is_dir,
        size: 1,
        mtime,
    };
    let unsorted = vec![
        row(b"late.txt", false, 90),
        row(b".hidden", false, 1),
        row(b"dir", true, 50),
        row(b"early.txt", false, 10),
    ];
    let rows = shares::listing::sorted_rows(&unsorted);
    let names: Vec<Vec<u8>> = rows.iter().map(|r| r.name.clone()).collect();
    assert_eq!(names, vec![b"dir".to_vec(), b"early.txt".to_vec(), b"late.txt".to_vec()]);
}

#[test]
fn listed_file_has_no_rows() {
    let tree = file(b"plain", 1);
    assert_eq!(list_entries(&tree).len(), 0);
}
