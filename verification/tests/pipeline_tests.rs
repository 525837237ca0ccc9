use shares::bridge::{Bridge, PullOutcome, SendOutcome};
use shares::pipeline::{plan_archive, archive_chunks, Exporter, SelectionError, StepOutcome};
use shares::tree::{DirChild, FsTree};

fn file(data: &[u8], mtime: u64) -> FsTree {
    FsTree::File { mtime, data: data.to_vec() }
}

fn dir(children: Vec<(&str, FsTree)>, mtime: u64) -> FsTree {
    FsTree::Dir {
        mtime,
        children: children
            .into_iter()
            .map(|(n, t)| DirChild { name: n.as_bytes().to_vec(), tree: t })
            .collect(),
    }
}

fn sels(xs: &[&str]) -> Vec<Vec<u8>> {
    xs.iter().map(|s| s.as_bytes().to_vec()).collect()
}

#[test]
fn selection_of_docs_prunes_hidden() {
    // root `/share`, `docs/` holds `a.txt` (5 bytes) and hidden `.secret` (10 bytes)
    let tree = dir(
        vec![(
            "docs",
            dir(vec![("a.txt", file(b"hello", 5)), (".secret", file(b"0123456789", 6))], 4),
        )],
        3,
    );
    let plan = plan_archive(&tree, &b"share".to_vec(), &sels(&["docs"])).unwrap();
    assert_eq!(plan.file_name, b"docs.tar".to_vec());
    assert_eq!(plan.entries.len(), 2);
    assert_eq!(plan.entries[0].path, vec![b"docs".to_vec()]);
    assert!(plan.entries[0].is_dir);
    assert_eq!(plan.entries[1].path, vec![b"docs".to_vec(), b"a.txt".to_vec()]);
    assert!(!plan.entries[1].is_dir);
    assert_eq!(plan.entries[1].data, b"hello".to_vec());
}

#[test]
fn empty_selection_takes_listing_directory() {
    // GET on `/share/projects/`: name and full non-hidden tree of `projects`
    let tree = dir(
        vec![
            ("one", dir(vec![("x.txt", file(b"x", 2))], 1)),
            (".hid", dir(vec![("y.txt", file(b"y", 2))], 1)),
            ("two.txt", file(b"two", 9)),
        ],
        7,
    );
    let plan = plan_archive(&tree, &b"projects".to_vec(), &sels(&[])).unwrap();
    assert_eq!(plan.file_name, b"projects.tar".to_vec());
    let paths: Vec<Vec<Vec<u8>>> = plan.entries.iter().map(|e| e.path.clone()).collect();
    assert_eq!(
        paths,
        vec![
            vec![b"one".to_vec()],
            vec![b"one".to_vec(), b"x.txt".to_vec()],
            vec![b"two.txt".to_vec()],
        ]
    );
}

#[test]
fn two_selections_get_generic_name() {
    let tree = dir(vec![("a.txt", file(b"aaa", 1)), ("b.txt", file(b"bb", 2))], 0);
    let plan = plan_archive(&tree, &b"share".to_vec(), &sels(&["a.txt", "b.txt"])).unwrap();
    assert_eq!(plan.file_name, b"archive.tar".to_vec());
    assert_eq!(plan.entries.len(), 2);
    assert_eq!(plan.entries[0].path, vec![b"a.txt".to_vec()]);
    assert_eq!(plan.entries[1].path, vec![b"b.txt".to_vec()]);
}

#[test]
fn single_selection_is_named_after_its_leaf() {
    let tree = dir(vec![("docs", dir(vec![("sub", dir(vec![], 1))], 1))], 1);
    let plan = plan_archive(&tree, &b"share".to_vec(), &sels(&["docs/sub"])).unwrap();
    assert_eq!(plan.file_name, b"sub.tar".to_vec());
    assert_eq!(plan.entries.len(), 1);
    assert_eq!(plan.entries[0].path, vec![b"docs".to_vec(), b"sub".to_vec()]);
}

#[test]
fn trailing_slash_selects_the_directory() {
    // the index page posts `docs/` when a directory checkbox is ticked
    let tree = dir(
        vec![(
            "docs",
            dir(vec![("a.txt", file(b"hello", 5)), (".secret", file(b"0123456789", 6))], 4),
        )],
        3,
    );
    let plan = plan_archive(&tree, &b"share".to_vec(), &sels(&["docs/"])).unwrap();
    assert_eq!(plan.file_name, b"docs.tar".to_vec());
    assert_eq!(plan.entries.len(), 2);
    assert_eq!(plan.entries[0].path, vec![b"docs".to_vec()]);
    assert!(plan.entries[0].is_dir);
    assert_eq!(plan.entries[1].path, vec![b"docs".to_vec(), b"a.txt".to_vec()]);
    // only one trailing separator is tolerated
    assert!(plan_archive(&tree, &b"share".to_vec(), &sels(&["docs//"])).is_err());
}

#[test]
fn escaping_selection_is_rejected() {
    let tree = dir(vec![], 0);
    let r = plan_archive(&tree, &b"share".to_vec(), &sels(&["../etc"]));
    match r {
        Err(e) => assert_eq!(e, SelectionError::InvalidPath),
        Ok(_) => panic!("an escaping selection must be rejected"),
    }
}

#[test]
fn empty_component_is_rejected() {
    let tree = dir(vec![], 0);
    assert!(plan_archive(&tree, &b"share".to_vec(), &sels(&["a//b"])).is_err());
    assert!(plan_archive(&tree, &b"share".to_vec(), &sels(&[""])).is_err());
    assert!(plan_archive(&tree, &b"share".to_vec(), &sels(&["."])).is_err());
}

#[test]
fn missing_selection_contributes_nothing() {
    let tree = dir(vec![("a.txt", file(b"a", 1))], 0);
    let plan = plan_archive(&tree, &b"share".to_vec(), &sels(&["nope", "a.txt"])).unwrap();
    assert_eq!(plan.entries.len(), 1);
    assert_eq!(plan.entries[0].path, vec![b"a.txt".to_vec()]);
}

#[test]
fn hidden_selection_contributes_nothing() {
    let tree = dir(vec![(".secret", file(b"0123456789", 1))], 0);
    let plan = plan_archive(&tree, &b"share".to_vec(), &sels(&[".secret"])).unwrap();
    assert_eq!(plan.entries.len(), 0);
}

#[test]
fn directories_precede_their_children_in_the_stream() {
    let tree = dir(
        vec![("d", dir(vec![("e", dir(vec![("f.txt", file(b"f", 1))], 1))], 1))],
        0,
    );
    let plan = plan_archive(&tree, &b"share".to_vec(), &sels(&[])).unwrap();
    let paths: Vec<Vec<Vec<u8>>> = plan.entries.iter().map(|e| e.path.clone()).collect();
    for j in 0..paths.len() {
        for k in 1..paths[j].len() {
            let ancestor = paths[j][..k].to_vec();
            let pos = paths.iter().position(|p| *p == ancestor).unwrap();
            assert!(pos < j, "ancestor listed after descendant");
        }
    }
}

#[test]
fn bridge_is_fifo() {
    let mut b = Bridge::new(4);
    assert_eq!(b.try_send(vec![1]), SendOutcome::Sent);
    assert_eq!(b.try_send(vec![2]), SendOutcome::Sent);
    assert_eq!(b.try_send(vec![3]), SendOutcome::Sent);
    match b.pull() {
        PullOutcome::Chunk(c) => assert_eq!(c, vec![1]),
        _ => panic!("expected a chunk"),
    }
    match b.pull() {
        PullOutcome::Chunk(c) => assert_eq!(c, vec![2]),
        _ => panic!("expected a chunk"),
    }
    match b.pull() {
        PullOutcome::Chunk(c) => assert_eq!(c, vec![3]),
        _ => panic!("expected a chunk"),
    }
    assert!(matches!(b.pull(), PullOutcome::Pending));
}

#[test]
fn full_bridge_refuses_until_pulled() {
    let mut b = Bridge::new(2);
    assert_eq!(b.try_send(vec![1]), SendOutcome::Sent);
    assert_eq!(b.try_send(vec![2]), SendOutcome::Sent);
    assert_eq!(b.try_send(vec![3]), SendOutcome::Full);
    match b.pull() {
        PullOutcome::Chunk(c) => assert_eq!(c, vec![1]),
        _ => panic!("expected a chunk"),
    }
    assert_eq!(b.try_send(vec![3]), SendOutcome::Sent);
}

#[test]
fn closed_bridge_reports_end_after_draining() {
    let mut b = Bridge::new(2);
    assert_eq!(b.try_send(vec![9]), SendOutcome::Sent);
    b.close();
    match b.pull() {
        PullOutcome::Chunk(c) => assert_eq!(c, vec![9]),
        _ => panic!("expected a chunk"),
    }
    assert!(matches!(b.pull(), PullOutcome::End));
}

#[test]
fn failed_producer_is_a_terminal_error() {
    let mut b = Bridge::new(2);
    b.fail();
    assert!(matches!(b.pull(), PullOutcome::Failed));
}

#[test]
fn gone_consumer_stops_the_worker() {
    // consumer disconnects after receiving 2 of the buffered chunks:
    // the producer observes the failure on its next send and stops
    let tree = dir(
        (0..6)
            .map(|i| (Box::leak(format!("f{i}.txt").into_boxed_str()) as &str, file(b"x", 1)))
            .collect(),
        0,
    );
    let plan = plan_archive(&tree, &b"share".to_vec(), &sels(&[])).unwrap();
    let chunks = archive_chunks(&plan.entries);
    let total = chunks.len();
    let mut ex = Exporter::new(chunks);
    let mut b = Bridge::new(16);
    assert_eq!(ex.step(&mut b), StepOutcome::Progress);
    assert_eq!(ex.step(&mut b), StepOutcome::Progress);
    assert_eq!(ex.step(&mut b), StepOutcome::Progress);
    assert!(matches!(b.pull(), PullOutcome::Chunk(_)));
    assert!(matches!(b.pull(), PullOutcome::Chunk(_)));
    b.disconnect();
    assert_eq!(ex.step(&mut b), StepOutcome::Aborted);
    assert!(ex.aborted);
    assert_eq!(ex.next, 3, "no further chunk was read after the disconnect");
    assert!(ex.next < total);
}

#[test]
fn worker_blocks_on_a_stalled_consumer() {
    // backpressure: the worker never runs more than `capacity` chunks
    // ahead of the consumer
    let tree = dir(
        (0..8)
            .map(|i| (Box::leak(format!("g{i}.txt").into_boxed_str()) as &str, file(b"y", 1)))
            .collect(),
        0,
    );
    let plan = plan_archive(&tree, &b"share".to_vec(), &sels(&[])).unwrap();
    let chunks = archive_chunks(&plan.entries);
    let mut ex = Exporter::new(chunks);
    let mut b = Bridge::new(3);
    assert_eq!(ex.step(&mut b), StepOutcome::Progress);
    assert_eq!(ex.step(&mut b), StepOutcome::Progress);
    assert_eq!(ex.step(&mut b), StepOutcome::Progress);
    assert_eq!(ex.step(&mut b), StepOutcome::Blocked);
    assert_eq!(ex.step(&mut b), StepOutcome::Blocked);
    assert_eq!(ex.next, 3);
    assert!(matches!(b.pull(), PullOutcome::Chunk(_)));
    assert_eq!(ex.step(&mut b), StepOutcome::Progress);
}

#[test]
fn start_export_streams_the_whole_archive() {
    let tree = dir(
        vec![("docs", dir(vec![("a.txt", file(b"hello", 5))], 4))],
        3,
    );
    let mut ex =
        shares::pipeline::start_export(&tree, &b"share".to_vec(), &sels(&["docs"]), 8).unwrap();
    assert_eq!(ex.file_name, b"docs.tar".to_vec());
    let mut streamed: Vec<u8> = Vec::new();
    loop {
        match ex.exporter.step(&mut ex.bridge) {
            StepOutcome::Progress => {}
            StepOutcome::Finished => break,
            StepOutcome::Blocked => {
                while let PullOutcome::Chunk(c) = ex.bridge.pull() {
                    streamed.extend_from_slice(&c);
                }
            }
            StepOutcome::Aborted => panic!("nobody disconnected"),
        }
    }
    loop {
        match ex.bridge.pull() {
            PullOutcome::Chunk(c) => streamed.extend_from_slice(&c),
            PullOutcome::End => break,
            _ => panic!("stream must end cleanly"),
        }
    }
    // one block per entry header, one content block, two end blocks
    assert_eq!(streamed.len(), 512 + 1024 + 1024);
    assert_eq!(&streamed[0..5], b"docs/");
    assert_eq!(&streamed[512..522], b"docs/a.txt");
    assert_eq!(&streamed[1024..1029], b"hello");
}

#[test]
fn worker_runs_to_completion_and_closes() {
    let tree = dir(vec![("a.txt", file(b"abc", 1))], 0);
    let plan = plan_archive(&tree, &b"share".to_vec(), &sels(&[])).unwrap();
    let chunks = archive_chunks(&plan.entries);
    let total = chunks.len();
    let mut ex = Exporter::new(chunks);
    let mut b = Bridge::new(16);
    let mut delivered = 0;
    loop {
        match ex.step(&mut b) {
            StepOutcome::Progress => {}
            StepOutcome::Finished => break,
            other => panic!("unexpected outcome {other:?}"),
        }
    }
    loop {
        match b.pull() {
            PullOutcome::Chunk(_) => delivered += 1,
            PullOutcome::End => break,
            _ => panic!("stream must end cleanly"),
        }
    }
    assert_eq!(delivered, total);
}
