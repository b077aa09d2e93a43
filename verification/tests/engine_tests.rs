use repostore::cid::U232;
use repostore::record::{Operation, RepoFileType};
use repostore::storage::{new_repo, read_storage_info, StorageRepo};
use repostore::store::RepoStore;
use repostore::worktree::WorkNode;

fn fresh_repo() -> StorageRepo {
    new_repo(RepoStore::new(), b"/tmp/repo".to_vec(), b"testrepo".to_vec()).unwrap()
}

fn file_node(name: &[u8], data: Vec<u8>) -> WorkNode {
    WorkNode::File { name: name.to_vec(), data }
}

fn commit(repo: &mut StorageRepo, prev: Option<U232>, node: &WorkNode) -> U232 {
    repo.create_commit(prev, Some(node), false).unwrap()
}

#[test]
fn initial_file_commit() {
    let mut repo = fresh_repo();
    let node = file_node(b"a.bin", vec![0x41; 16]);
    let cid1 = commit(&mut repo, None, &node);

    // The record carries the origin, size, name and edit aspects.
    let rec = repo.get_commit(cid1).unwrap();
    assert!(matches!(rec.get_type(0x03), RepoFileType::NewFile));
    match rec.get_type(0x08) {
        RepoFileType::Resize(sz) => assert_eq!(*sz, 16),
        _ => panic!("missing resize"),
    }
    match rec.get_type(0x04) {
        RepoFileType::Rename(n) => assert_eq!(n, b"a.bin"),
        _ => panic!("missing rename"),
    }
    match rec.get_type(0x02) {
        RepoFileType::Edit(ins, psize) => {
            assert_eq!(*psize, 1);
            assert_eq!(ins.len(), 1);
            assert_eq!(ins[0].pointer, 0);
            assert_eq!(ins[0].num_bytes, 16);
            assert!(matches!(ins[0].operation, Operation::SetTo(0x41)));
        },
        _ => panic!("missing edit"),
    }

    // Reconstruction yields the file back.
    let built = repo.build_commit(cid1).unwrap();
    match built {
        WorkNode::File { name, data } => {
            assert_eq!(name, b"a.bin");
            assert_eq!(data, vec![0x41; 16]);
        },
        _ => panic!("expected a file"),
    }
}

#[test]
fn append_commit() {
    let mut repo = fresh_repo();
    let cid1 = commit(&mut repo, None, &file_node(b"a.bin", vec![0x41; 16]));

    let mut data = vec![0x41; 16];
    data.extend_from_slice(&[0x42; 4]);
    let cid2 = commit(&mut repo, Some(cid1), &file_node(b"a.bin", data.clone()));

    let rec = repo.get_commit(cid2).unwrap();
    assert!(!matches!(rec.get_type(0x03), RepoFileType::NewFile));
    match rec.get_type(0x08) {
        RepoFileType::Resize(sz) => assert_eq!(*sz, 20),
        _ => panic!("missing resize"),
    }
    match rec.get_type(0x02) {
        RepoFileType::Edit(ins, _psize) => {
            assert_eq!(ins.len(), 1);
            assert_eq!(ins[0].pointer, 16);
            assert_eq!(ins[0].num_bytes, 4);
            assert!(matches!(ins[0].operation, Operation::SetTo(0x42)));
        },
        _ => panic!("missing edit"),
    }

    match repo.build_commit(cid2).unwrap() {
        WorkNode::File { data: d, .. } => assert_eq!(d, data),
        _ => panic!("expected a file"),
    }
}

#[test]
fn rename_commit() {
    let mut repo = fresh_repo();
    let cid1 = commit(&mut repo, None, &file_node(b"a.bin", vec![0x41; 16]));
    let mut data = vec![0x41; 16];
    data.extend_from_slice(&[0x42; 4]);
    let cid2 = commit(&mut repo, Some(cid1), &file_node(b"a.bin", data.clone()));

    // Same bytes under a new name.
    let cid3 = commit(&mut repo, Some(cid2), &file_node(b"b.bin", data.clone()));
    assert!(cid3 != cid2);
    let rec = repo.get_commit(cid3).unwrap();
    match rec.get_type(0x04) {
        RepoFileType::Rename(n) => assert_eq!(n, b"b.bin"),
        _ => panic!("missing rename"),
    }
    match rec.get_type(0x02) {
        RepoFileType::Edit(ins, _psize) => assert_eq!(ins.len(), 0),
        _ => panic!("missing edit"),
    }
    match repo.build_commit(cid3).unwrap() {
        WorkNode::File { name, data: d } => {
            assert_eq!(name, b"b.bin");
            assert_eq!(d, data);
        },
        _ => panic!("expected a file"),
    }
}

#[test]
fn delete_commit() {
    let mut repo = fresh_repo();
    let cid1 = commit(&mut repo, None, &file_node(b"b.bin", vec![0x41; 16]));
    let cid4 = repo.create_commit(Some(cid1), None, false).unwrap();
    let rec = repo.get_commit(cid4).unwrap();
    assert!(matches!(rec.get_type(0x05), RepoFileType::Delete));
    assert_eq!(rec.get_previous_commit(), cid1);
    // Reconstruction of a delete commit is a no-op.
    assert!(repo.build_commit(cid4).is_none());
}

#[test]
fn folder_checkout_skips_deleted_children() {
    let mut repo = fresh_repo();
    let tree = WorkNode::Folder {
        name: b"d".to_vec(),
        entries: vec![
            file_node(b"x", vec![0x01; 4]),
            file_node(b"y", vec![0x02; 4]),
        ],
    };
    let root = repo.create_commit(None, Some(&tree), true).unwrap();

    // Recommit with only x: y ends in a delete commit.
    let smaller = WorkNode::Folder {
        name: b"d".to_vec(),
        entries: vec![file_node(b"x", vec![0x01; 4])],
    };
    let next = repo.create_commit(Some(root), Some(&smaller), true).unwrap();
    match repo.build_commit(next).unwrap() {
        WorkNode::Folder { entries, .. } => {
            assert_eq!(entries.len(), 1);
            match &entries[0] {
                WorkNode::File { name, data } => {
                    assert_eq!(name, b"x");
                    assert_eq!(*data, vec![0x01; 4]);
                },
                _ => panic!("expected the surviving file"),
            }
        },
        _ => panic!("expected a folder"),
    }
}

#[test]
fn unchanged_file_is_a_no_op() {
    let mut repo = fresh_repo();
    let node = file_node(b"a.bin", vec![0x41; 16]);
    let cid1 = commit(&mut repo, None, &node);
    let cid_again = commit(&mut repo, Some(cid1), &node);
    assert_eq!(cid_again, cid1);
}

#[test]
fn folder_with_reorder() {
    let mut repo = fresh_repo();
    let tree = WorkNode::Folder {
        name: b"d".to_vec(),
        entries: vec![
            file_node(b"x", vec![0x01; 4]),
            file_node(b"y", vec![0x02; 4]),
        ],
    };
    let root_cid = repo.create_commit(None, Some(&tree), true).unwrap();

    // Swap the two files' contents; names stay, so each advances its own
    // chain and the folder identifier moves.
    let swapped = WorkNode::Folder {
        name: b"d".to_vec(),
        entries: vec![
            file_node(b"x", vec![0x02; 4]),
            file_node(b"y", vec![0x01; 4]),
        ],
    };
    let new_cid = repo.create_commit(Some(root_cid), Some(&swapped), true).unwrap();
    assert!(new_cid != root_cid);

    match repo.build_commit(new_cid).unwrap() {
        WorkNode::Folder { entries, .. } => {
            assert_eq!(entries.len(), 2);
            let mut seen_x = false;
            let mut seen_y = false;
            for e in &entries {
                match e {
                    WorkNode::File { name, data } => {
                        if name == b"x" {
                            assert_eq!(*data, vec![0x02; 4]);
                            seen_x = true;
                        } else if name == b"y" {
                            assert_eq!(*data, vec![0x01; 4]);
                            seen_y = true;
                        }
                    },
                    _ => panic!("expected files"),
                }
            }
            assert!(seen_x && seen_y);
        },
        _ => panic!("expected a folder"),
    }
}

#[test]
fn collision_break_byte() {
    let mut repo = fresh_repo();
    // Two distinct files with identical bytes hash identically; the
    // second record takes collision byte one.
    let tree = WorkNode::Folder {
        name: b"d".to_vec(),
        entries: vec![
            file_node(b"x", vec![0x07; 4]),
            file_node(b"y", vec![0x07; 4]),
        ],
    };
    let root = repo.create_commit(None, Some(&tree), true).unwrap();
    let rec = repo.get_commit(root).unwrap();
    match rec.get_type(0x0F) {
        RepoFileType::Folder(children) => {
            assert_eq!(children.len(), 2);
            assert!(children[0].equal_224(&children[1]));
            assert!(children[0] != children[1]);
            assert_eq!(children[0].to_be_bytes()[0], 0);
            assert_eq!(children[1].to_be_bytes()[0], 1);
        },
        _ => panic!("expected folder aspect"),
    }
}

#[test]
fn branch_advance_is_monotonic() {
    let mut repo = fresh_repo();
    let cid1 = commit(&mut repo, None, &file_node(b"a.bin", vec![0x41; 16]));
    let mut data = vec![0x41; 16];
    data.push(0x42);
    let cid2 = commit(&mut repo, Some(cid1), &file_node(b"a.bin", data));

    // Creating the branch, then advancing it one commit at a time.
    assert!(repo.push_commit_onto_branch(cid1, b"main".to_vec()));
    let tip = repo.get_branch(&b"main".to_vec()).unwrap().get_previous_commit();
    assert_eq!(tip, cid1);

    assert!(repo.push_commit_onto_branch(cid2, b"main".to_vec()));
    let tip = repo.get_branch(&b"main".to_vec()).unwrap().get_previous_commit();
    assert_eq!(tip, cid2);

    // A commit whose own predecessor is not the tip is refused.
    assert!(!repo.push_commit_onto_branch(cid1, b"main".to_vec()));
    let tip = repo.get_branch(&b"main".to_vec()).unwrap().get_previous_commit();
    assert_eq!(tip, cid2);

    // Removing the branch from the header.
    assert!(repo.delete_branch(&b"main".to_vec()));
    assert!(!repo.delete_branch(&b"main".to_vec()));
}

#[test]
fn folder_commit_is_deterministic() {
    let tree = WorkNode::Folder {
        name: b"d".to_vec(),
        entries: vec![
            file_node(b"x", vec![0x01; 4]),
            file_node(b"y", vec![0x02; 4]),
        ],
    };
    let mut repo_a = fresh_repo();
    let mut repo_b = fresh_repo();
    let cid_a = repo_a.create_commit(None, Some(&tree), true).unwrap();
    let cid_b = repo_b.create_commit(None, Some(&tree), true).unwrap();
    assert_eq!(cid_a, cid_b);
}

#[test]
fn reopening_preserves_records() {
    let mut repo = fresh_repo();
    let cid1 = commit(&mut repo, None, &file_node(b"a.bin", vec![0x41; 16]));
    assert!(repo.push_commit_onto_branch(cid1, b"main".to_vec()));

    // Rebuild the repository from the same folder image alone.
    let store = repo.store;
    let mut reopened = read_storage_info(store, b"/tmp/repo".to_vec()).unwrap();
    let tip = reopened.get_branch(&b"main".to_vec()).unwrap().get_previous_commit();
    assert_eq!(tip, cid1);
    match reopened.build_commit(cid1).unwrap() {
        WorkNode::File { name, data } => {
            assert_eq!(name, b"a.bin");
            assert_eq!(data, vec![0x41; 16]);
        },
        _ => panic!("expected a file"),
    }
}

#[test]
fn commit_info_round_trip() {
    let mut repo = fresh_repo();
    let cid1 = commit(&mut repo, None, &file_node(b"a.bin", vec![0x41; 16]));
    let info = repostore::record::CommitInfo {
        user_id: 7,
        device_id: 2,
        text: b"first".to_vec(),
        timestamp: 1000,
    };
    assert!(repo.set_commit_info(cid1, info));
    let got = repo.get_commit_info(cid1).unwrap();
    assert_eq!(got.user_id, 7);
    assert_eq!(got.device_id, 2);
    assert_eq!(got.text, b"first");
    assert_eq!(got.timestamp, 1000);
}
