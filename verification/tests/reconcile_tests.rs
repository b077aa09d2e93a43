use repostore::cid::U232;
use repostore::hashing::hash_data;
use repostore::reconcile::{get_old_sub_info, process_leftover_file, OldSub};
use repostore::storage::{new_repo, StorageRepo};
use repostore::store::RepoStore;
use repostore::worktree::WorkNode;

fn fresh_repo() -> StorageRepo {
    new_repo(RepoStore::new(), b"/tmp/repo".to_vec(), b"testrepo".to_vec()).unwrap()
}

fn file_node(name: &[u8], data: Vec<u8>) -> WorkNode {
    WorkNode::File { name: name.to_vec(), data }
}

fn file_commit(repo: &mut StorageRepo, name: &[u8], data: Vec<u8>) -> U232 {
    let node = file_node(name, data);
    repo.create_commit(None, Some(&node), false).unwrap()
}

fn old_file(id: U232, name: &[u8]) -> OldSub {
    OldSub { id, name: name.to_vec(), is_folder: false }
}

#[test]
fn identical_content_wins_by_hash() {
    let mut repo = fresh_repo();
    let data = vec![0x41u8; 16];
    // The candidate carries the content digest, as folder records do.
    let candidates = vec![
        old_file(hash_data(&[0x55u8; 16]), b"other"),
        old_file(hash_data(&data), b"same"),
    ];
    assert_eq!(process_leftover_file(&mut repo, &candidates, &data), Ok(1));
}

#[test]
fn near_match_picks_closest_old_file() {
    let mut repo = fresh_repo();
    let cid_a = file_commit(&mut repo, b"a", vec![0x41; 16]);
    let cid_b = file_commit(&mut repo, b"b", vec![0x55; 16]);
    let candidates = vec![old_file(cid_a, b"a"), old_file(cid_b, b"b")];

    // One byte away from b's sixteen, twelve from a's.
    let mut data = vec![0x55u8; 16];
    data[0] = 0x56;
    assert_eq!(process_leftover_file(&mut repo, &candidates, &data), Ok(1));

    // And the mirror case lands on a.
    let mut data = vec![0x41u8; 16];
    data[3] = 0x42;
    assert_eq!(process_leftover_file(&mut repo, &candidates, &data), Ok(0));
}

#[test]
fn near_match_tie_takes_the_earliest() {
    let mut repo = fresh_repo();
    // Two distinct chains rebuilding the same sixteen bytes.
    let cid_a = file_commit(&mut repo, b"a", vec![0x41; 16]);
    let cid_b = file_commit(&mut repo, b"b", vec![0x41; 16]);
    let candidates = vec![old_file(cid_a, b"a"), old_file(cid_b, b"b")];

    let mut data = vec![0x41u8; 16];
    data[7] = 0x42;
    assert_eq!(process_leftover_file(&mut repo, &candidates, &data), Ok(0));
}

#[test]
fn distant_file_starts_fresh() {
    let mut repo = fresh_repo();
    let cid_a = file_commit(&mut repo, b"a", vec![0x41; 16]);
    let folder_entry = OldSub { id: U232::new(), name: b"d".to_vec(), is_folder: true };
    let candidates = vec![folder_entry, old_file(cid_a, b"a")];

    // Eight separate single-byte differences out of sixteen: half the
    // bytes differ in scattered runs, far past the quarter bound.
    let mut data = vec![0x41u8; 16];
    for i in 0..8 {
        data[2 * i] = 0x90 + i as u8;
    }
    assert_eq!(process_leftover_file(&mut repo, &candidates, &data), Err(true));
}

#[test]
fn old_sub_info_lists_children() {
    let mut repo = fresh_repo();
    let tree = WorkNode::Folder {
        name: b"d".to_vec(),
        entries: vec![
            file_node(b"x", vec![0x01; 4]),
            file_node(b"y", vec![0x02; 4]),
        ],
    };
    let root = repo.create_commit(None, Some(&tree), true).unwrap();

    let subs = get_old_sub_info(&mut repo, root).unwrap();
    assert_eq!(subs.len(), 2);
    assert_eq!(subs[0].name, b"x");
    assert!(!subs[0].is_folder);
    assert_eq!(subs[1].name, b"y");
    assert!(!subs[1].is_folder);
}

#[test]
fn folder_scoring_prefers_shared_names() {
    let mut repo = fresh_repo();
    let tree_a = WorkNode::Folder {
        name: b"a".to_vec(),
        entries: vec![
            file_node(b"x", vec![0x01; 4]),
            file_node(b"y", vec![0x02; 4]),
        ],
    };
    let tree_b = WorkNode::Folder {
        name: b"b".to_vec(),
        entries: vec![
            file_node(b"p", vec![0x03; 4]),
            file_node(b"q", vec![0x04; 4]),
        ],
    };
    let cid_a = repo.create_commit(None, Some(&tree_a), true).unwrap();
    let cid_b = repo.create_commit(None, Some(&tree_b), true).unwrap();

    let candidates = vec![
        OldSub { id: cid_b, name: b"b".to_vec(), is_folder: true },
        OldSub { id: cid_a, name: b"a".to_vec(), is_folder: true },
    ];
    // The new folder shares both names with a's children and none with
    // b's, so a wins even though it stands later in the list.
    let entries = vec![
        file_node(b"x", vec![0x05; 4]),
        file_node(b"y", vec![0x06; 4]),
    ];
    assert_eq!(
        repostore::reconcile::process_leftover_folder(&mut repo, &candidates, &entries),
        Ok(1)
    );
}

#[test]
fn folder_scoring_without_candidates_starts_fresh() {
    let mut repo = fresh_repo();
    let cid_a = file_commit(&mut repo, b"a", vec![0x41; 16]);
    let candidates = vec![old_file(cid_a, b"a")];
    let entries = vec![file_node(b"x", vec![0x05; 4])];
    assert_eq!(
        repostore::reconcile::process_leftover_folder(&mut repo, &candidates, &entries),
        Err(true)
    );
}
