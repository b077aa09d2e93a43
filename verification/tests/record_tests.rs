use repostore::cid::U232;
use repostore::record::{CommitInfo, Head, Instruction, Operation, RepoFile, RepoFileType,
    WritingStates};
use repostore::record_bytes::decode_repo_file;
use repostore::store::RepoStore;

#[test]
fn header_record_round_trip() {
    let head = Head {
        name: b"myrepo".to_vec(),
        branches: vec![b"main".to_vec(), b"dev".to_vec()],
    };
    let rec = RepoFile::new(
        0,
        b"HEADER".to_vec(),
        vec![RepoFileType::Head(head)],
        U232::new(),
        U232::new(),
    );
    let bytes = rec.to_bytes();
    assert_eq!(bytes[0], 0);
    assert_eq!(bytes[1], 0x00);

    let dec = decode_repo_file(bytes, b"HEADER".to_vec());
    match dec.get_type(0x00) {
        RepoFileType::Head(h) => {
            assert_eq!(h.name, b"myrepo");
            assert_eq!(h.branches, vec![b"main".to_vec(), b"dev".to_vec()]);
        },
        _ => panic!("expected a header"),
    }
}

#[test]
fn file_commit_record_round_trip() {
    let mut prev = U232::new();
    prev.set_inequailty_byte(3);
    let ins = Instruction::new(0, 16, Operation::SetTo(0x41));
    let rec = RepoFile::new(
        0,
        b"name".to_vec(),
        vec![
            RepoFileType::NewFile,
            RepoFileType::Resize(16),
            RepoFileType::Rename(b"a.bin".to_vec()),
            RepoFileType::Edit(vec![ins], 1),
        ],
        prev,
        U232::new(),
    );
    let bytes = rec.to_bytes();
    // Version, then the origin mask that implies resize, rename and edit.
    assert_eq!(bytes[0], 0);
    assert_eq!(bytes[1], 0x03);

    let mut dec = decode_repo_file(bytes, b"name".to_vec());
    assert_eq!(dec.get_previous_commit(), prev);
    assert!(matches!(dec.get_type(0x03), RepoFileType::NewFile));
    match dec.get_type(0x08) {
        RepoFileType::Resize(sz) => assert_eq!(*sz, 16),
        _ => panic!("missing resize"),
    }
    match dec.get_type(0x04) {
        RepoFileType::Rename(n) => assert_eq!(n, b"a.bin"),
        _ => panic!("missing rename"),
    }
    // The edit payload arrives raw and parses under the pointer size.
    assert!(matches!(dec.get_type(0x02), RepoFileType::EditNotProcessed(..)));
    dec.parse_edit_instructions(1);
    match dec.get_type(0x02) {
        RepoFileType::Edit(list, psize) => {
            assert_eq!(*psize, 1);
            assert_eq!(list.len(), 1);
            assert_eq!(list[0].pointer, 0);
            assert_eq!(list[0].num_bytes, 16);
            assert!(matches!(list[0].operation, Operation::SetTo(0x41)));
        },
        _ => panic!("missing edit"),
    }
}

#[test]
fn commit_info_record_round_trip() {
    let ci = CommitInfo { user_id: 0xDEAD, device_id: 9, text: b"hello".to_vec(), timestamp: 512 };
    let rec = RepoFile::new(
        0,
        b"name".to_vec(),
        vec![RepoFileType::CommitInfo(ci), RepoFileType::Delete],
        U232::new(),
        U232::new(),
    );
    let bytes = rec.to_bytes();
    assert_eq!(bytes[1], 0x15);
    let dec = decode_repo_file(bytes, b"name".to_vec());
    match dec.get_type(0x10) {
        RepoFileType::CommitInfo(c) => {
            assert_eq!(c.user_id, 0xDEAD);
            assert_eq!(c.device_id, 9);
            assert_eq!(c.text, b"hello");
            assert_eq!(c.timestamp, 512);
        },
        _ => panic!("missing commit info"),
    }
    assert!(matches!(dec.get_type(0x05), RepoFileType::Delete));
}

#[test]
fn run_instruction_semantics() {
    let mut buf = vec![0u8; 8];
    Instruction::new(2, 3, Operation::SetTo(0x5A)).run_instruction(&mut buf);
    assert_eq!(buf, vec![0, 0, 0x5A, 0x5A, 0x5A, 0, 0, 0]);

    Instruction::new(0, 2, Operation::Replace(vec![1, 2])).run_instruction(&mut buf);
    assert_eq!(buf, vec![1, 2, 0x5A, 0x5A, 0x5A, 0, 0, 0]);

    Instruction::new(2, 3, Operation::Blank).run_instruction(&mut buf);
    assert_eq!(buf, vec![1, 2, 0, 0, 0, 0, 0, 0]);

    Instruction::new(6, 2, Operation::Copy(0)).run_instruction(&mut buf);
    assert_eq!(buf, vec![1, 2, 0, 0, 0, 0, 1, 2]);

    // A pointer outside the buffer makes the instruction a no-op.
    Instruction::new(20, 2, Operation::SetTo(9)).run_instruction(&mut buf);
    assert_eq!(buf, vec![1, 2, 0, 0, 0, 0, 1, 2]);

    // An edit area over the end is clamped.
    Instruction::new(7, 5, Operation::SetTo(9)).run_instruction(&mut buf);
    assert_eq!(buf, vec![1, 2, 0, 0, 0, 0, 1, 9]);
}

#[test]
fn delta_generator_replays_to_new_bytes() {
    let cases: Vec<(Vec<u8>, Vec<u8>)> = vec![
        (vec![], vec![0x41; 16]),
        (vec![0x41; 16], {
            let mut v = vec![0x41; 16];
            v.extend_from_slice(&[0x42; 4]);
            v
        }),
        (vec![1, 2, 3, 4, 5, 6], vec![1, 9, 3, 9, 5, 6]),
        (vec![7; 40], vec![8; 40]),
        (vec![0; 10], vec![0, 1, 0, 2, 0, 3, 0, 4, 0, 5]),
        (vec![5; 30], vec![5; 7]),
    ];
    for (old, new) in cases {
        let edit = repostore::delta::generate_file_instructions(old.clone(), new.clone());
        match edit {
            RepoFileType::Edit(ins, _psize) => {
                // Replay over the old bytes brought to the new length.
                let mut buf = old.clone();
                buf.resize(new.len(), 0);
                for i in &ins {
                    i.run_instruction(&mut buf);
                }
                assert_eq!(buf, new);
            },
            _ => panic!("expected an edit"),
        }
    }
}

#[test]
fn write_back_detects_foreign_changes() {
    let mut store = RepoStore::new();
    let mut rec = RepoFile::new(
        0,
        b"FILE".to_vec(),
        vec![RepoFileType::BranchHead],
        U232::new(),
        U232::new(),
    );
    assert!(matches!(rec.write_file_back(&mut store), WritingStates::Written));
    // Unchanged bytes need no second write.
    assert!(matches!(rec.write_file_back(&mut store), WritingStates::NotNecessary));

    // A third party rewrites the file; our own changed record must not
    // clobber it.
    store.write(b"FILE".to_vec(), vec![9, 9, 9]);
    let mut moved = U232::new();
    moved.set_inequailty_byte(1);
    let mut rec2 = rec.clone_with_prev_commit(moved);
    assert!(matches!(rec2.write_file_back(&mut store), WritingStates::Conflict(_)));

    // Rereading picks the foreign bytes up.
    let mut rec3 = rec;
    assert!(rec3.reread_file(&store));
    assert!(!rec3.reread_file(&store));
}
