use stacks_marf::storage::{TrieError, TrieFileStorage};

fn b(x: &str) -> Vec<u8> {
    x.as_bytes().to_vec()
}

fn n(v: u64) -> Vec<u8> {
    v.to_be_bytes().to_vec()
}

#[test]
fn two_blocks_keep_history() {
    let mut st = TrieFileStorage::new(b("genesis"));
    let mut tx = st.begin_block(&b("genesis")).unwrap();
    tx.insert(b("alice"), n(100));
    tx.insert(b("bob"), n(50));
    st.commit(tx, b("block1")).unwrap();

    let mut tx = st.begin_block(&b("block1")).unwrap();
    tx.insert(b("alice"), n(80));
    tx.delete(b("bob"));
    st.commit(tx, b("block2")).unwrap();

    let r1 = st.open_read(&b("block1")).unwrap();
    assert_eq!(r1.get(&st, &b("alice")), Some(n(100)));
    assert_eq!(r1.get(&st, &b("bob")), Some(n(50)));
    let r2 = st.open_read(&b("block2")).unwrap();
    assert_eq!(r2.get(&st, &b("alice")), Some(n(80)));
    assert_eq!(r2.get(&st, &b("bob")), None);
    let g = st.open_read(&b("genesis")).unwrap();
    assert_eq!(g.get(&st, &b("alice")), None);
}

#[test]
fn reads_see_own_writes_before_commit() {
    let mut st = TrieFileStorage::new(b("g"));
    let mut tx = st.begin_block(&b("g")).unwrap();
    assert_eq!(tx.get(&st, &b("k")), None);
    tx.insert(b("k"), n(1));
    assert_eq!(tx.get(&st, &b("k")), Some(n(1)));
    tx.insert(b("k"), n(2));
    assert_eq!(tx.get(&st, &b("k")), Some(n(2)));
    tx.delete(b("k"));
    assert_eq!(tx.get(&st, &b("k")), None);
    tx.insert(b("k"), n(3));
    assert_eq!(tx.get(&st, &b("k")), Some(n(3)));
}

#[test]
fn open_writes_are_invisible_to_readers() {
    let mut st = TrieFileStorage::new(b("g"));
    let mut tx = st.begin_block(&b("g")).unwrap();
    tx.insert(b("k"), n(1));
    let r = st.open_read(&b("g")).unwrap();
    assert_eq!(r.get(&st, &b("k")), None);
    assert_eq!(st.open_read(&b("b1")).err(), Some(TrieError::UnknownBlock));
    st.commit(tx, b("b1")).unwrap();
    assert_eq!(r.get(&st, &b("k")), None);
    let r1 = st.open_read(&b("b1")).unwrap();
    assert_eq!(r1.get(&st, &b("k")), Some(n(1)));
}

#[test]
fn rollback_leaves_parent_and_replays_identically() {
    let mut st = TrieFileStorage::new(b("g"));
    let mut tx = st.begin_block(&b("g")).unwrap();
    tx.insert(b("a"), n(1));
    st.commit(tx, b("b1")).unwrap();

    let mut tx = st.begin_block(&b("b1")).unwrap();
    tx.insert(b("a"), n(9));
    tx.insert(b("c"), n(3));
    st.rollback(tx);
    let r = st.open_read(&b("b1")).unwrap();
    assert_eq!(r.get(&st, &b("a")), Some(n(1)));
    assert_eq!(r.get(&st, &b("c")), None);

    let mut tx = st.begin_block(&b("b1")).unwrap();
    tx.insert(b("a"), n(9));
    tx.insert(b("c"), n(3));
    st.commit(tx, b("b2")).unwrap();
    let r2 = st.open_read(&b("b2")).unwrap();
    assert_eq!(r2.get(&st, &b("a")), Some(n(9)));
    assert_eq!(r2.get(&st, &b("c")), Some(n(3)));
}

#[test]
fn same_operations_in_two_stores_agree() {
    let run = || {
        let mut st = TrieFileStorage::new(b("g"));
        let mut tx = st.begin_block(&b("g")).unwrap();
        tx.insert(b("x"), n(7));
        tx.insert(b("y"), n(8));
        tx.delete(b("x"));
        st.commit(tx, b("b1")).unwrap();
        let r = st.open_read(&b("b1")).unwrap();
        (r.get(&st, &b("x")), r.get(&st, &b("y")))
    };
    assert_eq!(run(), run());
    assert_eq!(run(), (None, Some(n(8))));
}

#[test]
fn forks_are_independent() {
    let mut st = TrieFileStorage::new(b("g"));
    let mut tx = st.begin_block(&b("g")).unwrap();
    tx.insert(b("k"), n(1));
    let p1 = st.commit(tx, b("left")).unwrap();
    let mut tx = st.begin_block(&b("g")).unwrap();
    tx.insert(b("k"), n(2));
    let p2 = st.commit(tx, b("right")).unwrap();
    assert_ne!(p1, p2);
    let l = st.open_read(&b("left")).unwrap();
    let r = st.open_read(&b("right")).unwrap();
    assert_eq!(l.get(&st, &b("k")), Some(n(1)));
    assert_eq!(r.get(&st, &b("k")), Some(n(2)));
}

#[test]
fn unknown_parent_is_refused() {
    let mut st = TrieFileStorage::new(b("g"));
    assert_eq!(st.begin_block(&b("nope")).err(), Some(TrieError::UnknownParent));
    assert!(st.begin_block(&b("g")).is_ok());
}

#[test]
fn second_writer_is_refused() {
    let mut st = TrieFileStorage::new(b("g"));
    let tx = st.begin_block(&b("g")).unwrap();
    assert_eq!(st.begin_block(&b("g")).err(), Some(TrieError::ConcurrentWriterViolation));
    st.rollback(tx);
    assert!(st.begin_block(&b("g")).is_ok());
}

#[test]
fn duplicate_block_is_refused() {
    let mut st = TrieFileStorage::new(b("g"));
    let mut tx = st.begin_block(&b("g")).unwrap();
    tx.insert(b("k"), n(1));
    assert_eq!(st.commit(tx, b("g")), Err(TrieError::DuplicateBlock));
    let r = st.open_read(&b("g")).unwrap();
    assert_eq!(r.get(&st, &b("k")), None);
    assert!(st.begin_block(&b("g")).is_ok());
}

#[test]
fn foreign_transaction_is_refused() {
    let mut big = TrieFileStorage::new(b("g"));
    let tx = big.begin_block(&b("g")).unwrap();
    big.commit(tx, b("b1")).unwrap();
    let tx = big.begin_block(&b("b1")).unwrap();
    let mut small = TrieFileStorage::new(b("h"));
    assert_eq!(small.commit(tx, b("x")), Err(TrieError::ForeignTransaction));
}

fn file_of(st: &TrieFileStorage, blocks: usize) -> Vec<u8> {
    let mut file = vec![];
    for i in 0..blocks {
        file.extend(st.record_of(i).unwrap());
    }
    file
}

#[test]
fn store_restores_from_its_records() {
    let mut st = TrieFileStorage::new(b("genesis"));
    let mut tx = st.begin_block(&b("genesis")).unwrap();
    tx.insert(b("alice"), n(100));
    tx.insert(b("bob"), n(50));
    st.commit(tx, b("block1")).unwrap();
    let mut tx = st.begin_block(&b("block1")).unwrap();
    tx.insert(b("alice"), n(80));
    tx.delete(b("bob"));
    st.commit(tx, b("block2")).unwrap();

    let file = file_of(&st, 3);
    let (restored, used) = TrieFileStorage::restore(&file).unwrap();
    assert_eq!(used, file.len());
    let r1 = restored.open_read(&b("block1")).unwrap();
    assert_eq!(r1.get(&restored, &b("alice")), Some(n(100)));
    assert_eq!(r1.get(&restored, &b("bob")), Some(n(50)));
    let r2 = restored.open_read(&b("block2")).unwrap();
    assert_eq!(r2.get(&restored, &b("alice")), Some(n(80)));
    assert_eq!(r2.get(&restored, &b("bob")), None);
}

#[test]
fn restore_refuses_bad_files() {
    let mut st = TrieFileStorage::new(b("g"));
    let tx = st.begin_block(&b("g")).unwrap();
    st.commit(tx, b("b1")).unwrap();
    let file = file_of(&st, 2);
    assert!(TrieFileStorage::restore(&vec![]).is_none());
    // a torn last record is dropped: the block before it stands
    let genesis = st.record_of(0).unwrap();
    let (torn, used) = TrieFileStorage::restore(&file[..file.len() - 1].to_vec()).unwrap();
    assert_eq!(used, genesis.len());
    assert!(torn.open_read(&b("g")).is_ok());
    assert!(torn.open_read(&b("b1")).is_err());
    assert!(TrieFileStorage::restore(&genesis[..genesis.len() - 1].to_vec()).is_none());
    // the child record alone names a parent that is not there
    let genesis_len = st.record_of(0).unwrap().len();
    assert!(TrieFileStorage::restore(&file[genesis_len..].to_vec()).is_none());
    // the genesis record twice repeats a block identifier
    let mut twice = st.record_of(0).unwrap();
    twice.extend(st.record_of(0).unwrap());
    assert!(TrieFileStorage::restore(&twice).is_none());
}

#[test]
fn commit_needs_the_open_transaction() {
    let mut a = TrieFileStorage::new(b("g"));
    let mut other = TrieFileStorage::new(b("h"));
    let tx = other.begin_block(&b("h")).unwrap();
    assert!(!a.owns(&tx));
    assert_eq!(a.commit(tx, b("x")), Err(TrieError::ForeignTransaction));
    // the refusal leaves the store as it was: no writer, no block
    assert!(a.open_read(&b("x")).is_err());
    let mine = a.begin_block(&b("g")).unwrap();
    assert!(a.owns(&mine));
    let stray = other.begin_block(&b("h"));
    assert!(stray.is_err());
    assert_eq!(a.commit(mine, b("x")).map(|_| ()), Ok(()));
}

#[test]
fn record_of_commit_matches_sealed_record() {
    let mut st = TrieFileStorage::new(b("g"));
    let mut tx = st.begin_block(&b("g")).unwrap();
    tx.insert(b("k"), n(5));
    tx.delete(b("j"));
    let pending = TrieFileStorage::record_of_commit(&tx, &b("b1")).unwrap();
    let pos = st.commit(tx, b("b1")).unwrap();
    assert_eq!(st.record_of(pos).unwrap(), pending);
}
