use vstd::prelude::*;
use crate::record::{
    decode_trie, encode_trie, fits, law_records_round_trip, law_trie_record_round_trip,
    lemma_records_parse_unique, lemma_records_len,
    lemma_records_prefix, lemma_trie_at_progress, record_fits, records, records_parse, trie_record,
    trie_at, trie_view, write_view, TrieBytes,
};

verus! {

/// One write of a block: a key and its new value, or `None` where the key was deleted.
pub type Write = (Vec<u8>, Option<Vec<u8>>);

/// A sealed block's trie: the writes that the block made on top of its parent.
/// Keys that the block did not touch resolve through the parent, never copied.
pub struct SealedTrie {
    pub block_id: Vec<u8>,
    /// Position of the parent trie in the store; `None` for the genesis trie.
    pub parent: Option<usize>,
    pub writes: Vec<Write>,
}

/// Errors of the store.
#[derive(Copy, Clone, PartialEq, Eq, Debug, Structural)]
pub enum TrieError {
    /// A transaction was asked for on top of a block that the store does not hold.
    UnknownParent,
    /// A read was asked for at a block that the store does not hold.
    UnknownBlock,
    /// A second write transaction was asked for while one is open.
    ConcurrentWriterViolation,
    /// A block was committed under an identifier that the store already holds.
    DuplicateBlock,
    /// A transaction was handed to a store other than the one it was opened on.
    ForeignTransaction,
}

/// The store of sealed tries, one per committed block, forming the fork tree.
pub struct TrieFileStorage {
    tries: Vec<SealedTrie>,
    writer_open: bool,
    /// Counts the write transactions opened, so that a transaction from an
    /// earlier session is told apart from the open one.
    session: u64,
}

/// A read-only view of one sealed block.
pub struct TrieStorageConnection {
    block: usize,
}

/// The single open write transaction: a parent block and the writes made so far.
pub struct TrieStorageTransaction {
    parent: usize,
    parent_id: Vec<u8>,
    session: u64,
    uncommitted: Vec<Write>,
}

// ---------------------------------------------------------------------------
// Model
// ---------------------------------------------------------------------------

/// The view of an optional byte string.
pub open spec fn opt_bytes(v: Option<Vec<u8>>) -> Option<Seq<u8>> {
    match v {
        Some(b) => Some(b@),
        None => None,
    }
}

/// The last write to `k` in `ws`: `Some(value)` where `ws` wrote `k`
/// (`value` is `None` for a delete), `None` where it did not.
pub open spec fn last_write(ws: Seq<Write>, k: Seq<u8>) -> Option<Option<Seq<u8>>>
    decreases ws.len(),
{
    if ws.len() == 0 {
        None
    } else if ws.last().0@ == k {
        Some(opt_bytes(ws.last().1))
    } else {
        last_write(ws.drop_last(), k)
    }
}

/// The value of `k` at the trie in position `b` of `tries`.
pub open spec fn value_in(tries: Seq<SealedTrie>, b: int, k: Seq<u8>) -> Option<Seq<u8>>
    decreases b,
{
    if 0 <= b < tries.len() {
        match last_write(tries[b].writes@, k) {
            Some(v) => v,
            None => match tries[b].parent {
                Some(p) => if p < b {
                    value_in(tries, p as int, k)
                } else {
                    None
                },
                None => None,
            },
        }
    } else {
        None
    }
}

/// The value of `k` seen by a transaction with the writes `ws` on top of trie `b`.
pub open spec fn value_over(tries: Seq<SealedTrie>, b: int, ws: Seq<Write>, k: Seq<u8>) -> Option<
    Seq<u8>,
> {
    match last_write(ws, k) {
        Some(v) => v,
        None => value_in(tries, b, k),
    }
}

/// Values of `k` in the trie in position `b`, after the trie list grows.
pub proof fn lemma_value_in_prefix(tries: Seq<SealedTrie>, more: Seq<SealedTrie>, b: int, k: Seq<u8>)
    requires
        0 <= b < tries.len(),
        more.len() >= tries.len(),
        forall|i: int| 0 <= i < tries.len() ==> more[i] == tries[i],
    ensures
        value_in(more, b, k) == value_in(tries, b, k),
    decreases b,
{
    match last_write(tries[b].writes@, k) {
        Some(v) => {},
        None => match tries[b].parent {
            Some(p) => if p < b {
                lemma_value_in_prefix(tries, more, p as int, k);
            },
            None => {},
        },
    }
}

/// The genesis trie comes first and alone has no parent, every parent precedes its child, and no two
/// blocks share an identifier.
pub open spec fn tries_wf(t: Seq<SealedTrie>) -> bool {
    &&& t.len() > 0
    &&& t[0].parent is None
    &&& forall|i: int| 0 < i < t.len() ==> (#[trigger] t[i]).parent is Some
    &&& forall|i: int| 0 <= i < t.len() && (#[trigger] t[i]).parent is Some ==> t[i].parent->0 < i
    &&& forall|i: int, j: int|
        0 <= i < t.len() && 0 <= j < t.len() && i != j ==> (#[trigger] t[i]).block_id@
            != (#[trigger] t[j]).block_id@
}

impl TrieFileStorage {
    pub closed spec fn tries(&self) -> Seq<SealedTrie> {
        self.tries@
    }

    /// A write transaction is open.
    pub closed spec fn writing(&self) -> bool {
        self.writer_open
    }

    /// The number of the current write session.
    pub closed spec fn session(&self) -> u64 {
        self.session
    }

    /// Number of sealed blocks.
    pub open spec fn len(&self) -> nat {
        self.tries().len()
    }

    /// The identifier of the block in position `b`.
    pub open spec fn id_at(&self, b: int) -> Seq<u8> {
        self.tries()[b].block_id@
    }

    /// The value of `k` at the block in position `b`.
    pub open spec fn value(&self, b: int, k: Seq<u8>) -> Option<Seq<u8>> {
        value_in(self.tries(), b, k)
    }

    /// The store holds the block `id`.
    pub open spec fn holds(&self, id: Seq<u8>) -> bool {
        exists|b: int| 0 <= b < self.tries().len() && (#[trigger] self.tries()[b]).block_id@ == id
    }

    pub open spec fn wf(&self) -> bool {
        tries_wf(self.tries())
    }
}

// ---------------------------------------------------------------------------
// Byte strings and write sets
// ---------------------------------------------------------------------------

fn same_bytes(a: &Vec<u8>, b: &Vec<u8>) -> (r: bool)
    ensures
        r == (a@ == b@),
{
    if a.len() != b.len() {
        return false;
    }
    let mut i: usize = 0;
    while i < a.len()
        invariant
            i <= a@.len(),
            a@.len() == b@.len(),
            forall|j: int| 0 <= j < i ==> a@[j] == b@[j],
        decreases a@.len() - i,
    {
        if a[i] != b[i] {
            return false;
        }
        i = i + 1;
    }
    assert(a@ =~= b@);
    true
}

fn copy_bytes(a: &Vec<u8>) -> (r: Vec<u8>)
    ensures
        r@ == a@,
{
    let mut r: Vec<u8> = Vec::new();
    let mut i: usize = 0;
    while i < a.len()
        invariant
            i <= a@.len(),
            r@ == a@.take(i as int),
        decreases a@.len() - i,
    {
        r.push(a[i]);
        i = i + 1;
        assert(r@ =~= a@.take(i as int));
    }
    assert(a@.take(i as int) =~= a@);
    r
}

/// The last write to `k` in `ws`, as `last_write` describes it.
fn find_write(ws: &Vec<Write>, k: &Vec<u8>) -> (r: Option<Option<Vec<u8>>>)
    ensures
        match r {
            Some(v) => last_write(ws@, k@) == Some(opt_bytes(v)),
            None => last_write(ws@, k@) is None,
        },
{
    let mut i: usize = ws.len();
    assert(ws@.take(i as int) =~= ws@);
    while i > 0
        invariant
            i <= ws@.len(),
            last_write(ws@, k@) == last_write(ws@.take(i as int), k@),
        decreases i,
    {
        let ghost prefix = ws@.take(i as int);
        assert(prefix.drop_last() =~= ws@.take(i - 1));
        if same_bytes(&ws[i - 1].0, k) {
            return match &ws[i - 1].1 {
                Some(v) => Some(Some(copy_bytes(v))),
                None => Some(None),
            };
        }
        i = i - 1;
    }
    None
}

impl TrieFileStorage {
    /// A store that holds only the empty genesis block `genesis_id`.
    pub fn new(genesis_id: Vec<u8>) -> (r: TrieFileStorage)
        ensures
            r.wf(),
            !r.writing(),
            r.len() == 1,
            r.id_at(0) == genesis_id@,
            forall|k: Seq<u8>| #[trigger] r.value(0, k) is None,
    {
        let mut tries: Vec<SealedTrie> = Vec::new();
        tries.push(SealedTrie { block_id: genesis_id, parent: None, writes: Vec::new() });
        let r = TrieFileStorage { tries, writer_open: false, session: 0 };
        assert forall|k: Seq<u8>| #[trigger] r.value(0, k) is None by {
            assert(r.tries()[0].writes@.len() == 0);
        }
        r
    }

    /// The position of the block `id`.
    pub fn find_block(&self, id: &Vec<u8>) -> (r: Option<usize>)
        ensures
            r is Some <==> self.holds(id@),
            r matches Some(b) ==> b < self.len() && self.id_at(b as int) == id@,
    {
        let mut i: usize = 0;
        while i < self.tries.len()
            invariant
                i <= self.len(),
                forall|j: int| 0 <= j < i ==> (#[trigger] self.tries()[j]).block_id@ != id@,
            decreases self.len() - i,
        {
            if same_bytes(&self.tries[i].block_id, id) {
                assert(self.id_at(i as int) == id@);
                return Some(i);
            }
            i = i + 1;
        }
        None
    }

    /// The value of `key` at the block in position `b`, following the parent
    /// links through the blocks that did not write it.
    pub fn value_at(&self, b: usize, key: &Vec<u8>) -> (r: Option<Vec<u8>>)
        requires
            self.wf(),
            b < self.len(),
        ensures
            opt_bytes(r) == self.value(b as int, key@),
    {
        let mut cur: usize = b;
        loop
            invariant
                self.wf(),
                cur < self.len(),
                self.value(b as int, key@) == self.value(cur as int, key@),
            decreases cur,
        {
            match find_write(&self.tries[cur].writes, key) {
                Some(v) => {
                    return v;
                },
                None => match self.tries[cur].parent {
                    Some(p) => {
                        cur = p;
                    },
                    None => {
                        return None;
                    },
                },
            }
        }
    }

    /// A read-only connection to the sealed block `block_id`.
    pub fn open_read(&self, block_id: &Vec<u8>) -> (r: Result<TrieStorageConnection, TrieError>)
        ensures
            r is Err <==> !self.holds(block_id@),
            r matches Err(e) ==> e == TrieError::UnknownBlock,
            r matches Ok(c) ==> c.block() < self.len() && self.id_at(c.block() as int)
                == block_id@,
    {
        match self.find_block(block_id) {
            Some(b) => Ok(TrieStorageConnection { block: b }),
            None => Err(TrieError::UnknownBlock),
        }
    }
}

impl TrieStorageConnection {
    /// The position of the block that this connection reads.
    pub closed spec fn block(&self) -> usize {
        self.block
    }

    /// The value of `key` at this connection's block.
    pub fn get(&self, storage: &TrieFileStorage, key: &Vec<u8>) -> (r: Option<Vec<u8>>)
        requires
            storage.wf(),
            self.block() < storage.len(),
        ensures
            opt_bytes(r) == storage.value(self.block() as int, key@),
    {
        storage.value_at(self.block, key)
    }
}

// ---------------------------------------------------------------------------
// Transactions
// ---------------------------------------------------------------------------

impl TrieStorageTransaction {
    /// The position of the block that this transaction builds on.
    pub closed spec fn parent(&self) -> usize {
        self.parent
    }

    /// The writes made so far, in order.
    pub closed spec fn writes(&self) -> Seq<Write> {
        self.uncommitted@
    }

    /// The identifier of the parent block.
    pub closed spec fn parent_id(&self) -> Seq<u8> {
        self.parent_id@
    }

    /// The write session in which this transaction was opened.
    pub closed spec fn session(&self) -> u64 {
        self.session
    }

    /// This is the open write transaction of `storage`.
    pub open spec fn opened_on(&self, storage: &TrieFileStorage) -> bool {
        &&& storage.writing()
        &&& self.session() == storage.session()
        &&& self.parent() < storage.len()
        &&& storage.id_at(self.parent() as int) == self.parent_id()
    }

    /// The value of `k` as this transaction sees it in `storage`.
    pub open spec fn value(&self, storage: &TrieFileStorage, k: Seq<u8>) -> Option<Seq<u8>> {
        value_over(storage.tries(), self.parent() as int, self.writes(), k)
    }

    /// The value of `key`, with this transaction's own writes in view.
    pub fn get(&self, storage: &TrieFileStorage, key: &Vec<u8>) -> (r: Option<Vec<u8>>)
        requires
            storage.wf(),
            self.parent() < storage.len(),
        ensures
            opt_bytes(r) == self.value(storage, key@),
    {
        match find_write(&self.uncommitted, key) {
            Some(v) => v,
            None => storage.value_at(self.parent, key),
        }
    }

    /// Sets `key` to `value`.
    pub fn insert(&mut self, key: Vec<u8>, value: Vec<u8>)
        ensures
            final(self).parent() == old(self).parent(),
            final(self).parent_id() == old(self).parent_id(),
            final(self).session() == old(self).session(),
            final(self).writes() == old(self).writes().push((key, Some(value))),
            last_write(final(self).writes(), key@) == Some(Some(value@)),
            forall|k: Seq<u8>|
                k != key@ ==> last_write(final(self).writes(), k) == last_write(
                    old(self).writes(),
                    k,
                ),
    {
        self.uncommitted.push((key, Some(value)));
        proof {
            let ws = self.writes();
            assert(ws.drop_last() =~= old(self).writes());
        }
    }

    /// Removes `key`.
    pub fn delete(&mut self, key: Vec<u8>)
        ensures
            final(self).parent() == old(self).parent(),
            final(self).parent_id() == old(self).parent_id(),
            final(self).session() == old(self).session(),
            final(self).writes() == old(self).writes().push((key, None::<Vec<u8>>)),
            last_write(final(self).writes(), key@) == Some(None::<Seq<u8>>),
            forall|k: Seq<u8>|
                k != key@ ==> last_write(final(self).writes(), k) == last_write(
                    old(self).writes(),
                    k,
                ),
    {
        self.uncommitted.push((key, None));
        proof {
            let ws = self.writes();
            assert(ws.drop_last() =~= old(self).writes());
        }
    }
}

impl TrieFileStorage {
    /// Opens the write transaction for a new block on top of `parent_block_id`.
    pub fn begin_block(&mut self, parent_block_id: &Vec<u8>) -> (r: Result<
        TrieStorageTransaction,
        TrieError,
    >)
        ensures
            final(self).tries() == old(self).tries(),
            old(self).writing() ==> r == Err::<TrieStorageTransaction, TrieError>(
                TrieError::ConcurrentWriterViolation,
            ) && final(self).writing(),
            !old(self).writing() && !old(self).holds(parent_block_id@) ==> r == Err::<
                TrieStorageTransaction,
                TrieError,
            >(TrieError::UnknownParent) && !final(self).writing(),
            r is Err ==> final(self).session() == old(self).session(),
            !old(self).writing() && old(self).holds(parent_block_id@) ==> (r matches Ok(t) && (
            final(self).writing() && t.opened_on(&*final(self)) && old(self).id_at(
                t.parent() as int,
            ) == parent_block_id@ && t.writes().len() == 0)),
    {
        if self.writer_open {
            return Err(TrieError::ConcurrentWriterViolation);
        }
        match self.find_block(parent_block_id) {
            None => Err(TrieError::UnknownParent),
            Some(p) => {
                self.writer_open = true;
                self.session = if self.session < u64::MAX {
                    self.session + 1
                } else {
                    0
                };
                Ok(
                    TrieStorageTransaction {
                        parent: p,
                        parent_id: copy_bytes(parent_block_id),
                        session: self.session,
                        uncommitted: Vec::new(),
                    },
                )
            },
        }
    }

    /// Whether `tx` is this store's open write transaction.
    pub fn owns(&self, tx: &TrieStorageTransaction) -> (r: bool)
        ensures
            r == tx.opened_on(self),
    {
        self.writer_open && tx.session == self.session && tx.parent < self.tries.len()
            && same_bytes(&self.tries[tx.parent].block_id, &tx.parent_id)
    }

    /// Discards `tx`: no block changes, and where `tx` is the open
    /// transaction, a new one may open.
    pub fn rollback(&mut self, tx: TrieStorageTransaction)
        ensures
            final(self).tries() == old(self).tries(),
            final(self).session() == old(self).session(),
            tx.opened_on(&*old(self)) ==> !final(self).writing(),
            !tx.opened_on(&*old(self)) ==> final(self).writing() == old(self).writing(),
    {
        if self.owns(&tx) {
            self.writer_open = false;
        }
    }

    /// Seals the writes of `tx` as the block `new_block_id`, a child of the
    /// transaction's parent, and returns its position. The transaction is over
    /// either way; on failure no block is added.
    pub fn commit(&mut self, tx: TrieStorageTransaction, new_block_id: Vec<u8>) -> (r: Result<
        usize,
        TrieError,
    >)
        requires
            old(self).wf(),
        ensures
            final(self).wf(),
            final(self).session() == old(self).session(),
            !tx.opened_on(&*old(self)) ==> r == Err::<usize, TrieError>(
                TrieError::ForeignTransaction,
            ) && final(self).writing() == old(self).writing(),
            tx.opened_on(&*old(self)) ==> !final(self).writing(),
            tx.opened_on(&*old(self)) && old(self).holds(new_block_id@) ==> r == Err::<
                usize,
                TrieError,
            >(TrieError::DuplicateBlock),
            r is Err ==> final(self).tries() == old(self).tries(),
            tx.opened_on(&*old(self)) && !old(self).holds(new_block_id@) ==> r == Ok::<
                usize,
                TrieError,
            >(old(self).len() as usize),
            r is Ok ==> old(self).writing(),
            r matches Ok(b) ==> {
                &&& final(self).len() == old(self).len() + 1
                &&& final(self).id_at(b as int) == new_block_id@
                &&& final(self).tries()[b as int].parent == Some(tx.parent())
                &&& final(self).tries()[b as int].writes@ == tx.writes()
                &&& forall|k: Seq<u8>|
                    #[trigger] final(self).value(b as int, k) == tx.value(&*old(self), k)
                &&& forall|i: int, k: Seq<u8>|
                    0 <= i < old(self).len() ==> #[trigger] final(self).value(i, k) == old(
                        self,
                    ).value(i, k)
                &&& forall|i: int| 0 <= i < old(self).len() ==> #[trigger] final(self).id_at(i) == old(self).id_at(i)
            },
    {
        if !self.owns(&tx) {
            return Err(TrieError::ForeignTransaction);
        }
        self.writer_open = false;
        assert(self.tries() == old(self).tries());
        let ghost nid = new_block_id@;
        if self.find_block(&new_block_id).is_some() {
            return Err(TrieError::DuplicateBlock);
        }
        let ghost before = self.tries();
        let b = self.tries.len();
        self.tries.push(
            SealedTrie { block_id: new_block_id, parent: Some(tx.parent), writes: tx.uncommitted },
        );
        proof {
            let after = self.tries();
            assert forall|i: int, k: Seq<u8>| 0 <= i < before.len() implies #[trigger] value_in(
                after,
                i,
                k,
            ) == value_in(before, i, k) by {
                lemma_value_in_prefix(before, after, i, k);
            }
            assert forall|k: Seq<u8>| #[trigger] value_in(after, b as int, k) == value_over(
                before,
                tx.parent() as int,
                tx.writes(),
                k,
            ) by {
                if last_write(tx.writes(), k) is None {
                    lemma_value_in_prefix(before, after, tx.parent() as int, k);
                }
            }
            assert forall|i: int, j: int|
                0 <= i < after.len() && 0 <= j < after.len() && i != j implies (#[trigger] after[i]).block_id@
                != (#[trigger] after[j]).block_id@ by {
                if i < b && j < b {
                    assert(before[i] == after[i] && before[j] == after[j]);
                } else if i < b {
                    assert(before[i] == after[i]);
                    assert(before[i].block_id@ != nid);
                } else {
                    assert(before[j] == after[j]);
                    assert(before[j].block_id@ != nid);
                }
            }
            assert forall|i: int| 0 <= i < after.len() && (#[trigger] after[i]).parent is Some implies after[i].parent->0 < i by {
                if i < b {
                    assert(before[i] == after[i]);
                }
            }
        }
        Ok(b)
    }
}

// ---------------------------------------------------------------------------
// Persistence
// ---------------------------------------------------------------------------

/// The plain-value views of a list of sealed tries.
pub open spec fn trie_views(ts: Seq<SealedTrie>) -> Seq<TrieBytes> {
    ts.map_values(|t: SealedTrie| trie_view(t))
}

/// `ts` could be the sealed tries of a store, and each has a record.
pub open spec fn storable(ts: Seq<SealedTrie>) -> bool {
    &&& tries_wf(ts)
    &&& forall|i: int| 0 <= i < ts.len() ==> fits(trie_view(#[trigger] ts[i]))
}

/// `bytes` is the file of records of some store.
pub open spec fn is_store_file(bytes: Seq<u8>) -> bool {
    exists|ts: Seq<SealedTrie>| storable(ts) && bytes == records(trie_views(ts))
}

/// In the file of records of `target`, the record of the `i`-th trie starts
/// where the records of the earlier ones end, and reads back as that trie.
proof fn lemma_next_record(bytes: Seq<u8>, target: Seq<SealedTrie>, i: int)
    requires
        storable(target),
        bytes == records(trie_views(target)),
        0 <= i <= target.len(),
        records(trie_views(target).take(i)).len() < bytes.len(),
    ensures
        i < target.len(),
        trie_at(bytes, records(trie_views(target).take(i)).len() as int) == Some(
            (trie_view(target[i]), records(trie_views(target).take(i + 1)).len() as int),
        ),
{
    let tv = trie_views(target);
    if i == tv.len() {
        assert(tv.take(i) =~= tv);
    }
    lemma_records_prefix(tv, i + 1);
    let pre = records(tv.take(i));
    let rec = trie_record(tv[i]);
    assert(tv.take(i + 1).drop_last() =~= tv.take(i));
    assert(records(tv.take(i + 1)) == pre + rec);
    let post = bytes.subrange((pre + rec).len() as int, bytes.len() as int);
    assert(bytes =~= pre + rec + post);
    assert(tv[i] == trie_view(target[i]));
    assert(fits(trie_view(target[i])));
    law_trie_record_round_trip(pre, tv[i], post);
}

/// `t` may follow `ts` in a store: it is the genesis trie of an empty list, or
/// its parent comes earlier, and its block identifier is new.
pub open spec fn fits_next(ts: Seq<SealedTrie>, t: SealedTrie) -> bool {
    &&& match t.parent {
        None => ts.len() == 0,
        Some(p) => ts.len() > 0 && p < ts.len(),
    }
    &&& forall|i: int| 0 <= i < ts.len() ==> (#[trigger] ts[i]).block_id@ != t.block_id@
}

/// Appends `t` to `tries` where it may follow them; says whether it did.
fn admit_trie(tries: &mut Vec<SealedTrie>, t: SealedTrie) -> (r: bool)
    requires
        old(tries)@.len() > 0 ==> tries_wf(old(tries)@),
    ensures
        r == fits_next(old(tries)@, t),
        r ==> final(tries)@ == old(tries)@.push(t) && tries_wf(final(tries)@),
        !r ==> final(tries)@ == old(tries)@,
{
    let n = tries.len();
    let parent_ok = match t.parent {
        None => n == 0,
        Some(p) => n > 0 && p < n,
    };
    if !parent_ok {
        return false;
    }
    let mut j: usize = 0;
    while j < n
        invariant
            j <= n,
            n == tries@.len(),
            forall|i: int| 0 <= i < j ==> (#[trigger] tries@[i]).block_id@ != t.block_id@,
        decreases n - j,
    {
        if same_bytes(&tries[j].block_id, &t.block_id) {
            return false;
        }
        j = j + 1;
    }
    let ghost before = tries@;
    tries.push(t);
    proof {
        let after = tries@;
        assert forall|i: int, k: int|
            0 <= i < after.len() && 0 <= k < after.len() && i != k implies (#[trigger] after[i]).block_id@
            != (#[trigger] after[k]).block_id@ by {
            if i < n && k < n {
                assert(before[i] == after[i] && before[k] == after[k]);
            } else if i < n {
                assert(before[i] == after[i]);
            } else {
                assert(before[k] == after[k]);
            }
        }
        assert forall|i: int| 0 < i < after.len() implies (#[trigger] after[i]).parent is Some by {
            if i < n {
                assert(before[i] == after[i]);
            }
        }
        assert forall|i: int| 0 <= i < after.len() && (#[trigger] after[i]).parent is Some implies after[i].parent->0 < i by {
            if i < n {
                assert(before[i] == after[i]);
            }
        }
    }
    true
}

impl TrieFileStorage {
    /// The record to append to the file for the block in position `b`;
    /// `None` where a length of it does not fit in four bytes.
    pub fn record_of(&self, b: usize) -> (r: Option<Vec<u8>>)
        requires
            b < self.len(),
        ensures
            r is Some <==> fits(trie_view(self.tries()[b as int])),
            r matches Some(v) ==> v@ == trie_record(trie_view(self.tries()[b as int])),
    {
        if record_fits(&self.tries[b]) {
            Some(encode_trie(&self.tries[b]))
        } else {
            None
        }
    }

    /// Rebuilds a store from a file of records, read from the start, and
    /// says how many bytes its complete records take. A torn last record (one
    /// that a crash cut short, so that it does not read back) ends the reading
    /// there: that block was not committed. `None` where no complete record is
    /// found, or where the records break the store's invariant (a first trie
    /// with a parent, a later one without, a parent that does not come
    /// earlier, or a block identifier that comes twice).
    pub fn restore(bytes: &Vec<u8>) -> (r: Option<(TrieFileStorage, usize)>)
        ensures
            r matches Some((s, used)) ==> s.wf() && !s.writing() && used <= bytes@.len()
                && records_parse(bytes@, trie_views(s.tries())) == Some(used as int) && (used
                == bytes@.len() || trie_at(bytes@, used as int) is None),
            is_store_file(bytes@) ==> (r matches Some((s, used)) && used == bytes@.len()),
    {
        let ghost has = is_store_file(bytes@);
        let ghost target = if has {
            choose|ts: Seq<SealedTrie>| storable(ts) && bytes@ == records(trie_views(ts))
        } else {
            Seq::empty()
        };
        let ghost tv = trie_views(target);
        let mut tries: Vec<SealedTrie> = Vec::new();
        let mut pos: usize = 0;
        while pos < bytes.len()
            invariant
                pos <= bytes@.len(),
                records_parse(bytes@, trie_views(tries@)) == Some(pos as int),
                tries@.len() > 0 ==> tries_wf(tries@),
                has == is_store_file(bytes@),
                tv == trie_views(target),
                has ==> storable(target) && bytes@ == records(tv),
                has ==> tries@.len() <= tv.len() && trie_views(tries@) == tv.take(tries@.len() as int)
                    && pos == records(tv.take(tries@.len() as int)).len(),
            ensures
                pos == bytes@.len() || trie_at(bytes@, pos as int) is None,
                has ==> pos == bytes@.len(),
            decreases bytes@.len() - pos,
        {
            assert(has ==> tries@.len() < target.len() && trie_at(bytes@, pos as int) == Some(
                (trie_view(target[tries@.len() as int]), records(tv.take(tries@.len() + 1 as int)).len() as int),
            )) by {
                if has {
                    lemma_next_record(bytes@, target, tries@.len() as int);
                }
            }
            let (t, next) = match decode_trie(bytes, pos) {
                Some(x) => x,
                None => {
                    break;
                },
            };
            proof {
                lemma_trie_at_progress(bytes@, pos as int);
            }
            if next <= pos || next > bytes.len() {
                return None;
            }
            let n = tries.len();
            assert(has ==> fits_next(tries@, t)) by {
                if has {
                    assert(tv[n as int] == trie_view(target[n as int]));
                    assert(t.parent == target[n as int].parent);
                    assert forall|i: int| 0 <= i < n implies (#[trigger] tries@[i]).block_id@ != t.block_id@ by {
                        assert(trie_views(tries@)[i] == trie_view(tries@[i]));
                        assert(tv.take(n as int)[i] == tv[i]);
                        assert(tv[i] == trie_view(target[i]));
                        assert(target[i].block_id@ != target[n as int].block_id@);
                    }
                }
            }
            let ghost before = tries@;
            let ghost view_t = trie_view(t);
            if !admit_trie(&mut tries, t) {
                return None;
            }
            proof {
                assert(trie_views(tries@).drop_last() =~= trie_views(before));
                assert(trie_views(tries@).last() == view_t);
                if has {
                    assert(trie_views(tries@) =~= tv.take(tries@.len() as int));
                    assert(tv.take(tries@.len() as int).drop_last() =~= tv.take(n as int));
                }
            }
            pos = next;
        }
        proof {
            if has {
                let i = tries@.len() as int;
                if i < tv.len() {
                    lemma_records_len(tv, i);
                }
            }
        }
        if tries.len() == 0 {
            return None;
        }
        Some((TrieFileStorage { tries, writer_open: false, session: 0 }, pos))
    }
}

fn copy_writes(ws: &Vec<Write>) -> (r: Vec<Write>)
    ensures
        r@.map_values(|w: Write| write_view(w)) == ws@.map_values(|w: Write| write_view(w)),
{
    let mut out: Vec<Write> = Vec::new();
    let mut i: usize = 0;
    while i < ws.len()
        invariant
            i <= ws@.len(),
            out@.map_values(|w: Write| write_view(w)) == ws@.take(i as int).map_values(
                |w: Write| write_view(w),
            ),
        decreases ws@.len() - i,
    {
        let v = match &ws[i].1 {
            Some(v) => Some(copy_bytes(v)),
            None => None,
        };
        let w = (copy_bytes(&ws[i].0), v);
        let ghost prev = out@.map_values(|w: Write| write_view(w));
        assert(write_view(w) == write_view(ws@[i as int]));
        out.push(w);
        i = i + 1;
        assert(out@.map_values(|w: Write| write_view(w)) =~= prev.push(write_view(ws@[i - 1])));
        assert(ws@.take(i as int).map_values(|w: Write| write_view(w)) =~= ws@.take(i - 1).map_values(
            |w: Write| write_view(w),
        ).push(write_view(ws@[i - 1])));
    }
    assert(ws@.take(i as int) =~= ws@);
    out
}

impl TrieFileStorage {
    /// The record that committing `tx` as `new_block_id` would seal, so that
    /// it can be made durable before the commit; `None` where a length of it
    /// does not fit in four bytes.
    pub fn record_of_commit(tx: &TrieStorageTransaction, new_block_id: &Vec<u8>) -> (r: Option<Vec<u8>>)
        ensures
            r is Some <==> fits(
                (new_block_id@, Some(tx.parent()), tx.writes().map_values(|w: Write| write_view(w))),
            ),
            r matches Some(v) ==> v@ == trie_record(
                (new_block_id@, Some(tx.parent()), tx.writes().map_values(|w: Write| write_view(w))),
            ),
    {
        let t = SealedTrie {
            block_id: copy_bytes(new_block_id),
            parent: Some(tx.parent),
            writes: copy_writes(&tx.uncommitted),
        };
        if record_fits(&t) {
            Some(encode_trie(&t))
        } else {
            None
        }
    }
}

// ---------------------------------------------------------------------------
// Laws
// ---------------------------------------------------------------------------

/// Within a transaction, reading a key right after inserting it gives the
/// inserted value, and reading it right after deleting it gives nothing;
/// other keys read as before the write.
pub proof fn law_read_your_writes(
    storage: TrieFileStorage,
    before: TrieStorageTransaction,
    after: TrieStorageTransaction,
    key: Vec<u8>,
    value: Option<Vec<u8>>,
)
    requires
        after.parent() == before.parent(),
        after.writes() == before.writes().push((key, value)),
    ensures
        after.value(&storage, key@) == opt_bytes(value),
        forall|k: Seq<u8>| k != key@ ==> after.value(&storage, k) == before.value(&storage, k),
{
    assert(after.writes().drop_last() =~= before.writes());
}

/// Growing the store never changes what an existing block holds: a block's
/// values stay as they were when it was sealed, whatever is committed later.
pub proof fn law_history_unchanged(
    before: TrieFileStorage,
    after: TrieFileStorage,
    b: int,
    k: Seq<u8>,
)
    requires
        0 <= b < before.len(),
        after.len() >= before.len(),
        forall|i: int| 0 <= i < before.len() ==> after.tries()[i] == before.tries()[i],
    ensures
        after.value(b, k) == before.value(b, k),
{
    lemma_value_in_prefix(before.tries(), after.tries(), b, k);
}

/// What a transaction would commit depends only on its parent's values and
/// its writes: the same writes on top of the same state give the same state,
/// in any store and after any number of rolled-back attempts.
pub proof fn law_commit_determined(
    s1: TrieFileStorage,
    t1: TrieStorageTransaction,
    s2: TrieFileStorage,
    t2: TrieStorageTransaction,
)
    requires
        t1.writes() == t2.writes(),
        forall|k: Seq<u8>|
            #[trigger] s1.value(t1.parent() as int, k) == s2.value(t2.parent() as int, k),
    ensures
        forall|k: Seq<u8>| #[trigger] t1.value(&s1, k) == t2.value(&s2, k),
{
    assert forall|k: Seq<u8>| #[trigger] t1.value(&s1, k) == t2.value(&s2, k) by {
        assert(s1.value(t1.parent() as int, k) == s2.value(t2.parent() as int, k));
    }
}

/// Two transactions on the same parent, committed one after the other, give
/// two blocks with distinct identifiers, each holding its own transaction's
/// state on top of the parent, both readable afterwards.
pub proof fn law_fork_independence(
    s0: TrieFileStorage,
    t1: TrieStorageTransaction,
    s1: TrieFileStorage,
    t2: TrieStorageTransaction,
    s2: TrieFileStorage,
)
    requires
        s0.wf(),
        s2.wf(),
        t1.parent() == t2.parent(),
        t1.parent() < s0.len(),
        s1.len() == s0.len() + 1,
        forall|k: Seq<u8>| #[trigger] s1.value(s0.len() as int, k) == t1.value(&s0, k),
        forall|i: int, k: Seq<u8>| 0 <= i < s0.len() ==> #[trigger] s1.value(i, k) == s0.value(i, k),
        s2.len() == s1.len() + 1,
        forall|k: Seq<u8>| #[trigger] s2.value(s1.len() as int, k) == t2.value(&s1, k),
        forall|i: int, k: Seq<u8>| 0 <= i < s1.len() ==> #[trigger] s2.value(i, k) == s1.value(i, k),
    ensures
        s2.id_at(s0.len() as int) != s2.id_at(s1.len() as int),
        forall|k: Seq<u8>| #[trigger] s2.value(s0.len() as int, k) == t1.value(&s0, k),
        forall|k: Seq<u8>| #[trigger] s2.value(s1.len() as int, k) == t2.value(&s0, k),
{
    let b1 = s0.len() as int;
    let b2 = s1.len() as int;
    assert(s2.tries()[b1].block_id@ != s2.tries()[b2].block_id@);
    assert forall|k: Seq<u8>| #[trigger] s2.value(b1, k) == t1.value(&s0, k) by {
        assert(s2.value(b1, k) == s1.value(b1, k));
        assert(s1.value(b1, k) == t1.value(&s0, k));
    }
    assert forall|k: Seq<u8>| #[trigger] s2.value(b2, k) == t2.value(&s0, k) by {
        assert(s1.value(t2.parent() as int, k) == s0.value(t2.parent() as int, k));
    }
}

/// The records of a store's blocks, written one after another, make a file
/// that `restore` accepts, and that reads back as the store's tries.
pub proof fn law_store_file_round_trip(s: TrieFileStorage)
    requires
        s.wf(),
        forall|i: int| 0 <= i < s.len() ==> fits(trie_view(#[trigger] s.tries()[i])),
    ensures
        is_store_file(records(trie_views(s.tries()))),
        records_parse(records(trie_views(s.tries())), trie_views(s.tries())) == Some(
            records(trie_views(s.tries())).len() as int,
        ),
{
    let tv = trie_views(s.tries());
    assert(storable(s.tries()));
    assert forall|i: int| 0 <= i < tv.len() implies fits(#[trigger] tv[i]) by {
        assert(tv[i] == trie_view(s.tries()[i]));
    }
    law_records_round_trip(tv, Seq::empty());
    assert(records(tv) + Seq::<u8>::empty() =~= records(tv));
}

/// What `restore` rebuilds from the file of a store's records holds that
/// store's tries: the same identifiers, parents and writes, block by block.
pub proof fn law_restore_gives_back(s: TrieFileStorage, restored: TrieFileStorage)
    requires
        s.wf(),
        forall|i: int| 0 <= i < s.len() ==> fits(trie_view(#[trigger] s.tries()[i])),
        records_parse(records(trie_views(s.tries())), trie_views(restored.tries())) == Some(
            records(trie_views(s.tries())).len() as int,
        ),
    ensures
        trie_views(restored.tries()) == trie_views(s.tries()),
{
    law_store_file_round_trip(s);
    lemma_records_parse_unique(
        records(trie_views(s.tries())),
        trie_views(restored.tries()),
        trie_views(s.tries()),
    );
}

proof fn lemma_last_write_views(w1: Seq<Write>, w2: Seq<Write>, k: Seq<u8>)
    requires
        w1.map_values(|w: Write| write_view(w)) == w2.map_values(|w: Write| write_view(w)),
    ensures
        last_write(w1, k) == last_write(w2, k),
    decreases w1.len(),
{
    let v1 = w1.map_values(|w: Write| write_view(w));
    let v2 = w2.map_values(|w: Write| write_view(w));
    assert(v1.len() == w1.len() && v2.len() == w2.len());
    if w1.len() > 0 {
        assert(v1[w1.len() - 1] == v2[w2.len() - 1]);
        assert(w1.drop_last().map_values(|w: Write| write_view(w)) =~= v1.drop_last());
        assert(w2.drop_last().map_values(|w: Write| write_view(w)) =~= v2.drop_last());
        lemma_last_write_views(w1.drop_last(), w2.drop_last(), k);
    }
}

proof fn lemma_value_in_views(t1: Seq<SealedTrie>, t2: Seq<SealedTrie>, b: int, k: Seq<u8>)
    requires
        trie_views(t1) == trie_views(t2),
    ensures
        value_in(t1, b, k) == value_in(t2, b, k),
    decreases b,
{
    assert(t1.len() == trie_views(t1).len() && t2.len() == trie_views(t2).len());
    if 0 <= b < t1.len() {
        assert(trie_views(t1)[b] == trie_views(t2)[b]);
        lemma_last_write_views(t1[b].writes@, t2[b].writes@, k);
        match t1[b].parent {
            Some(p) => if p < b {
                lemma_value_in_views(t1, t2, p as int, k);
            },
            None => {},
        }
    }
}

/// A store rebuilt from the file of `s`'s records holds the same value for
/// every key at every block as `s`, and the same block identifiers.
pub proof fn law_restore_same_values(s: TrieFileStorage, restored: TrieFileStorage)
    requires
        s.wf(),
        forall|i: int| 0 <= i < s.len() ==> fits(trie_view(#[trigger] s.tries()[i])),
        records_parse(records(trie_views(s.tries())), trie_views(restored.tries())) == Some(
            records(trie_views(s.tries())).len() as int,
        ),
    ensures
        restored.len() == s.len(),
        forall|b: int| 0 <= b < s.len() ==> #[trigger] restored.id_at(b) == s.id_at(b),
        forall|b: int, k: Seq<u8>| #[trigger] restored.value(b, k) == s.value(b, k),
{
    law_restore_gives_back(s, restored);
    let v1 = trie_views(restored.tries());
    let v2 = trie_views(s.tries());
    assert(v1.len() == restored.len() && v2.len() == s.len());
    assert forall|b: int| 0 <= b < s.len() implies #[trigger] restored.id_at(b) == s.id_at(b) by {
        assert(v1[b] == v2[b]);
    }
    assert forall|b: int, k: Seq<u8>| #[trigger] restored.value(b, k) == s.value(b, k) by {
        lemma_value_in_views(restored.tries(), s.tries(), b, k);
    }
}

} // verus!
