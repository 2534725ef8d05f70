use vstd::prelude::*;
use crate::error::Error;
use crate::hash::{bytes32_at, bytes32_eq, copy_range, BlockHeaderHash, TrieHash};
use crate::store_laws::lemma_without_hash_valid;
use crate::model::{
    clear_state, count, create_state, has_hash, has_id, hash_of, id_of, index_of_hash,
    next_id, restore_result, restore_state,
    index_of_id, insert_result, insert_state, last_id, lock_result, lock_state,
    guard, mined_blob_of, mined_insert_result, mined_insert_state, node_of, range_of,
    range_of_hash, root_hash_of, roots_of,
    roots_readable, store_valid, table_range, table_valid, unlock_all_state, unlock_state,
    without_hash, RowView, StoreView, MAX_BLOCK_ID, ROOT_HASH_OFFSET,
};

verus! {

/// Names a byte range within a blob. The flag bits are carried along and
/// never read here.
#[derive(Clone, Copy, Debug, PartialEq, Eq)]
pub struct TriePtr {
    pub flags: u8,
    pub offset: u64,
    pub length: u64,
}

/// One row of a table: the id, the block hash and the blob.
pub struct BlockRow {
    block_id: u32,
    block_hash: BlockHeaderHash,
    data: Vec<u8>,
}

impl BlockRow {
    pub closed spec fn view(&self) -> RowView {
        RowView { id: self.block_id as int, hash: self.block_hash.0@, data: self.data@ }
    }
}

/// The three tables: committed blocks, mined blocks and extension locks.
pub struct TrieStore {
    ready: bool,
    committed: Vec<BlockRow>,
    mined: Vec<BlockRow>,
    locks: Vec<BlockHeaderHash>,
}

/// The rows of a table as contracts see them.
pub closed spec fn rows_view(rows: Seq<BlockRow>) -> Seq<RowView> {
    Seq::new(rows.len(), |i: int| rows[i]@)
}

/// The set of hashes that a list of locks holds.
pub closed spec fn lock_set(locks: Seq<BlockHeaderHash>) -> Set<Seq<u8>> {
    Set::new(|h: Seq<u8>| exists|i: int| 0 <= i < locks.len() && (#[trigger] locks[i]).0@ == h)
}

/// The id that follows `count` in a table, where there is one left.
pub fn next_block_id(count: u32) -> (r: Result<u32, Error>)
    ensures
        r == (if count >= MAX_BLOCK_ID {
            Err::<u32, Error>(Error::Exhausted)
        } else {
            Ok::<u32, Error>((count + 1) as u32)
        }),
{
    if count >= MAX_BLOCK_ID {
        Err(Error::Exhausted)
    } else {
        Ok(count + 1)
    }
}

/// The block id that stands for a row number handed out by a backing
/// table: the number itself where it lies between 1 and the largest
/// permitted id, `Exhausted` above that, `Corruption` below 1.
pub fn block_id_from_rowid(rowid: i64) -> (r: Result<u32, Error>)
    ensures
        r == (if rowid > MAX_BLOCK_ID {
            Err::<u32, Error>(Error::Exhausted)
        } else if rowid < 1 {
            Err::<u32, Error>(Error::Corruption)
        } else {
            Ok::<u32, Error>(rowid as u32)
        }),
{
    if rowid > 0x7fff_ffff {
        Err(Error::Exhausted)
    } else if rowid < 1 {
        Err(Error::Corruption)
    } else {
        Ok(rowid as u32)
    }
}

/// Whether `length` bytes from `offset` on lie within a blob of `len`
/// bytes.
pub fn range_within(len: u64, offset: u64, length: u64) -> (r: bool)
    ensures
        r == (offset + length <= len),
{
    offset <= len && length <= len - offset
}

/// The root hash stored in a blob; `Corruption` where the blob is too
/// short to hold one.
pub fn root_hash_of_blob(data: &[u8]) -> (r: Result<TrieHash, Error>)
    ensures
        hash_result(r) == (if data@.len() >= ROOT_HASH_OFFSET + 32 {
            Ok::<Seq<u8>, Error>(root_hash_of(data@))
        } else {
            Err::<Seq<u8>, Error>(Error::Corruption)
        }),
{
    if data.len() < ROOT_HASH_OFFSET + 32 {
        Err(Error::Corruption)
    } else {
        Ok(TrieHash(bytes32_at(data, ROOT_HASH_OFFSET)))
    }
}

fn find_hash(rows: &Vec<BlockRow>, h: &BlockHeaderHash) -> (r: Option<usize>)
    requires
        table_valid(rows_view(rows@)),
    ensures
        r is Some == has_hash(rows_view(rows@), h.0@),
        r is Some ==> r->0 < rows.len() && r->0 == index_of_hash(rows_view(rows@), h.0@),
{
    let ghost rv = rows_view(rows@);
    let mut i: usize = 0;
    while i < rows.len()
        invariant
            i <= rows.len(),
            rv == rows_view(rows@),
            rv.len() == rows.len(),
            table_valid(rv),
            forall|k: int| 0 <= k < i ==> (#[trigger] rv[k]).hash != h.0@,
        decreases rows.len() - i,
    {
        if bytes32_eq(&rows[i].block_hash.0, &h.0) {
            proof {
                assert(rv[i as int].hash == h.0@);
                let c = index_of_hash(rv, h.0@);
                assert(0 <= c < rv.len() && rv[c].hash == h.0@);
                assert(c == i) by {
                    if c < i {
                    } else if c > i {
                        assert(rv[i as int].hash != rv[c].hash);
                    }
                }
            }
            return Some(i);
        }
        i += 1;
    }
    None
}

fn find_id(rows: &Vec<BlockRow>, id: u32) -> (r: Option<usize>)
    requires
        table_valid(rows_view(rows@)),
    ensures
        r is Some == has_id(rows_view(rows@), id as int),
        r is Some ==> r->0 < rows.len() && r->0 == index_of_id(rows_view(rows@), id as int),
{
    let ghost rv = rows_view(rows@);
    let mut i: usize = 0;
    while i < rows.len()
        invariant
            i <= rows.len(),
            rv == rows_view(rows@),
            rv.len() == rows.len(),
            table_valid(rv),
            forall|k: int| 0 <= k < i ==> (#[trigger] rv[k]).id != id,
        decreases rows.len() - i,
    {
        if rows[i].block_id == id {
            proof {
                assert(rv[i as int].id == id);
                let c = index_of_id(rv, id as int);
                assert(0 <= c < rv.len() && rv[c].id == id);
                assert(c == i) by {
                    if c < i {
                    } else if c > i {
                        assert(rv[i as int].id < rv[c].id);
                    }
                }
            }
            return Some(i);
        }
        i += 1;
    }
    None
}

fn find_lock(locks: &Vec<BlockHeaderHash>, h: &BlockHeaderHash) -> (r: Option<usize>)
    ensures
        r is Some == lock_set(locks@).contains(h.0@),
        r is Some ==> r->0 < locks.len() && locks[r->0 as int].0@ == h.0@,
{
    let mut i: usize = 0;
    while i < locks.len()
        invariant
            i <= locks.len(),
            forall|k: int| 0 <= k < i ==> (#[trigger] locks[k]).0@ != h.0@,
        decreases locks.len() - i,
    {
        if bytes32_eq(&locks[i].0, &h.0) {
            return Some(i);
        }
        i += 1;
    }
    None
}

fn last_row_id(rows: &Vec<BlockRow>) -> (r: u32)
    requires
        table_valid(rows_view(rows@)),
    ensures
        r == last_id(rows_view(rows@)),
{
    let n: usize = rows.len();
    if n == 0 {
        0
    } else {
        assert(rows_view(rows@).last() == rows@[n - 1]@);
        rows[n - 1].block_id
    }
}

fn read_table_range(rows: &Vec<BlockRow>, block_id: u32, offset: u64, length: u64) -> (r: Result<
    Vec<u8>,
    Error,
>)
    requires
        table_valid(rows_view(rows@)),
    ensures
        match r {
            Ok(bytes) => Ok::<Seq<u8>, Error>(bytes@),
            Err(e) => Err::<Seq<u8>, Error>(e),
        } == table_range(rows_view(rows@), block_id, offset, length),
{
    match find_id(rows, block_id) {
        None => Err(Error::NotFound),
        Some(i) => {
            assert(rows_view(rows@)[i as int] == rows@[i as int]@);
            let data = &rows[i].data;
            let len: u64 = data.len() as u64;
            if !range_within(len, offset, length) {
                Err(Error::OutOfBounds)
            } else {
                let start: usize = offset as usize;
                let end: usize = (offset + length) as usize;
                Ok(copy_range(data.as_slice(), start, end))
            }
        },
    }
}

impl TrieStore {
    /// The store as contracts see it.
    pub closed spec fn view(&self) -> StoreView {
        StoreView {
            ready: self.ready,
            committed: rows_view(self.committed@),
            mined: rows_view(self.mined@),
            locks: lock_set(self.locks@),
        }
    }

    /// No lock is recorded twice.
    pub closed spec fn inv(&self) -> bool {
        forall|i: int, j: int|
            0 <= i < j < self.locks@.len() ==> (#[trigger] self.locks@[i]).0@ != (
            #[trigger] self.locks@[j]).0@
    }

    /// What every store that this library hands out satisfies.
    pub open spec fn wf(&self) -> bool {
        self.inv() && store_valid(self@)
    }

    /// A store whose tables are not created yet.
    pub fn new() -> (s: TrieStore)
        ensures
            s.wf(),
            s@ == (StoreView {
                ready: false,
                committed: Seq::empty(),
                mined: Seq::empty(),
                locks: Set::empty(),
            }),
    {
        let s = TrieStore {
            ready: false,
            committed: Vec::new(),
            mined: Vec::new(),
            locks: Vec::new(),
        };
        assert(s@.committed =~= Seq::empty());
        assert(s@.mined =~= Seq::empty());
        assert(s@.locks =~= Set::empty());
        s
    }
}

/// The view of a list of root entries.
pub open spec fn roots_view(v: Seq<(TrieHash, BlockHeaderHash)>) -> Seq<(Seq<u8>, Seq<u8>)> {
    Seq::new(v.len(), |i: int| (v[i].0.0@, v[i].1.0@))
}

/// The view of a result that holds bytes.
pub open spec fn bytes_result(r: Result<Vec<u8>, Error>) -> Result<Seq<u8>, Error> {
    match r {
        Ok(bytes) => Ok(bytes@),
        Err(e) => Err(e),
    }
}

/// The view of a result that holds a trie hash.
pub open spec fn hash_result(r: Result<TrieHash, Error>) -> Result<Seq<u8>, Error> {
    match r {
        Ok(h) => Ok(h.0@),
        Err(e) => Err(e),
    }
}

proof fn lemma_rows_push(rows: Seq<BlockRow>, row: BlockRow)
    ensures
        rows_view(rows.push(row)) == rows_view(rows).push(row@),
{
    assert(rows_view(rows.push(row)) =~= rows_view(rows).push(row@));
}

proof fn lemma_rows_remove(rows: Seq<BlockRow>, i: int)
    requires
        0 <= i < rows.len(),
    ensures
        rows_view(rows.remove(i)) == rows_view(rows).remove(i),
{
    assert(rows_view(rows.remove(i)) =~= rows_view(rows).remove(i));
}

/// Creates the three tables where they are missing. What the store holds
/// stays as it is.
pub fn create_tables_if_needed(store: &mut TrieStore) -> (r: Result<(), Error>)
    requires
        old(store).wf(),
    ensures
        final(store).wf(),
        r == Ok::<(), Error>(()),
        final(store)@ == create_state(old(store)@),
{
    store.ready = true;
    Ok(())
}

/// The id under which the block hash is committed; `NotFound` where it is
/// not committed.
pub fn get_block_identifier(store: &TrieStore, bhh: &BlockHeaderHash) -> (r: Result<u32, Error>)
    requires
        store.wf(),
    ensures
        r == id_of(store@, bhh.0@),
{
    if !store.ready {
        return Err(Error::Backend);
    }
    match find_hash(&store.committed, bhh) {
        None => Err(Error::NotFound),
        Some(i) => {
            assert(rows_view(store.committed@)[i as int] == store.committed@[i as int]@);
            Ok(store.committed[i].block_id)
        },
    }
}

/// The block hash committed under the id; `NotFound` where there is none.
pub fn get_block_hash(store: &TrieStore, local_id: u32) -> (r: Result<BlockHeaderHash, Error>)
    requires
        store.wf(),
    ensures
        match r {
            Ok(h) => Ok::<Seq<u8>, Error>(h.0@),
            Err(e) => Err::<Seq<u8>, Error>(e),
        } == hash_of(store@, local_id),
{
    if !store.ready {
        return Err(Error::Backend);
    }
    match find_id(&store.committed, local_id) {
        None => Err(Error::NotFound),
        Some(i) => {
            assert(rows_view(store.committed@)[i as int] == store.committed@[i as int]@);
            Ok(store.committed[i].block_hash)
        },
    }
}

/// The largest committed block id, 0 for an empty table.
pub fn count_blocks(store: &TrieStore) -> (r: Result<u32, Error>)
    requires
        store.wf(),
    ensures
        r == count(store@),
{
    if !store.ready {
        return Err(Error::Backend);
    }
    Ok(last_row_id(&store.committed))
}

fn append_row(rows: &mut Vec<BlockRow>, block_hash: &BlockHeaderHash, data: &[u8]) -> (r: Result<
    u32,
    Error,
>)
    requires
        table_valid(rows_view(old(rows)@)),
        !has_hash(rows_view(old(rows)@), block_hash.0@),
    ensures
        table_valid(rows_view(final(rows)@)),
        r == next_id(rows_view(old(rows)@)),
        match r {
            Ok(id) => rows_view(final(rows)@) == rows_view(old(rows)@).push(
                RowView { id: id as int, hash: block_hash.0@, data: data@ },
            ),
            Err(_) => final(rows)@ == old(rows)@,
        },
{
    let last: u32 = last_row_id(rows);
    match next_block_id(last) {
        Err(e) => Err(e),
        Ok(id) => {
            append_row_with_id(rows, id, block_hash, data);
            Ok(id)
        },
    }
}

fn append_row_with_id(rows: &mut Vec<BlockRow>, id: u32, block_hash: &BlockHeaderHash, data: &[u8])
    requires
        table_valid(rows_view(old(rows)@)),
        !has_hash(rows_view(old(rows)@), block_hash.0@),
        last_id(rows_view(old(rows)@)) < id <= MAX_BLOCK_ID,
    ensures
        table_valid(rows_view(final(rows)@)),
        rows_view(final(rows)@) == rows_view(old(rows)@).push(
            RowView { id: id as int, hash: block_hash.0@, data: data@ },
        ),
{
    let blob = copy_range(data, 0, data.len());
    assert(blob@ =~= data@);
    let row = BlockRow { block_id: id, block_hash: *block_hash, data: blob };
    proof {
        lemma_rows_push(rows@, row);
        let before = rows_view(rows@);
        let after = before.push(row@);
        assert(row@.hash.len() == 32);
        assert forall|i: int, j: int| 0 <= i < j < after.len() implies (
        #[trigger] after[i]).id < (#[trigger] after[j]).id by {
            if j == before.len() {
                if i < before.len() - 1 {
                    assert(before[i].id < before[before.len() - 1].id);
                }
            } else {
                assert(before[i].id < before[j].id);
            }
        }
        assert forall|i: int, j: int| 0 <= i < j < after.len() implies (
        #[trigger] after[i]).hash != (#[trigger] after[j]).hash by {
            if j == before.len() {
                assert(before[i].hash != block_hash.0@);
            } else {
                assert(before[i].hash != before[j].hash);
            }
        }
        assert forall|i: int| 0 <= i < after.len() implies 1 <= (#[trigger] after[i]).id
            <= MAX_BLOCK_ID && after[i].hash.len() == 32 by {
            if i < before.len() {
                assert(1 <= before[i].id);
            }
        }
    }
    rows.push(row);
}

/// Puts back a block that was committed earlier, under the id that it had
/// then. The id has to lie above every id in the table: `Corruption`
/// where it does not, or where it is above the largest permitted id.
pub fn restore_trie_blob(
    store: &mut TrieStore,
    block_id: u32,
    block_hash: &BlockHeaderHash,
    data: &[u8],
) -> (r: Result<(), Error>)
    requires
        old(store).wf(),
    ensures
        final(store).wf(),
        r == restore_result(old(store)@, block_id, block_hash.0@),
        final(store)@ == restore_state(old(store)@, block_id, block_hash.0@, data@),
{
    if !store.ready {
        return Err(Error::Backend);
    }
    if find_hash(&store.committed, block_hash).is_some() {
        return Err(Error::Duplicate);
    }
    if block_id <= last_row_id(&store.committed) || block_id > MAX_BLOCK_ID {
        return Err(Error::Corruption);
    }
    append_row_with_id(&mut store.committed, block_id, block_hash, data);
    Ok(())
}

/// Commits a blob under a block hash that is not committed yet, and
/// returns the id of the new row: one more than the largest id so far.
pub fn write_trie_blob(store: &mut TrieStore, block_hash: &BlockHeaderHash, data: &[u8]) -> (r:
    Result<u32, Error>)
    requires
        old(store).wf(),
    ensures
        final(store).wf(),
        r == insert_result(old(store)@, block_hash.0@, data@),
        final(store)@ == insert_state(old(store)@, block_hash.0@, data@),
{
    if !store.ready {
        return Err(Error::Backend);
    }
    if find_hash(&store.committed, block_hash).is_some() {
        return Err(Error::Duplicate);
    }
    append_row(&mut store.committed, block_hash, data)
}

/// Stores a blob under a block hash in the mined table, in place of an
/// earlier row of that hash, and returns the id of the new row.
pub fn write_trie_blob_to_mined(
    store: &mut TrieStore,
    block_hash: &BlockHeaderHash,
    data: &[u8],
) -> (r: Result<u32, Error>)
    requires
        old(store).wf(),
    ensures
        final(store).wf(),
        r == mined_insert_result(old(store)@, block_hash.0@, data@),
        final(store)@ == mined_insert_state(old(store)@, block_hash.0@, data@),
{
    if !store.ready {
        return Err(Error::Backend);
    }
    let ghost before = rows_view(store.mined@);
    match find_hash(&store.mined, block_hash) {
        None => append_row(&mut store.mined, block_hash, data),
        Some(i) => {
            let last: u32 = if i + 1 == store.mined.len() {
                if i == 0 {
                    0
                } else {
                    store.mined[i - 1].block_id
                }
            } else {
                last_row_id(&store.mined)
            };
            proof {
                lemma_rows_remove(store.mined@, i as int);
                let rest = before.remove(i as int);
                assert(rest == without_hash(before, block_hash.0@));
                if rest.len() > 0 {
                    if i + 1 == before.len() {
                        assert(rest.last() == before[i - 1]);
                        assert(before[i - 1] == store.mined@[i - 1]@);
                    } else {
                        assert(rest.last() == before.last());
                    }
                }
                assert(last == last_id(rest));
            }
            if last >= MAX_BLOCK_ID {
                return Err(Error::Exhausted);
            }
            let _gone = store.mined.remove(i);
            proof {
                assert(rows_view(store.mined@) == without_hash(before, block_hash.0@));
                lemma_without_hash_valid(before, block_hash.0@);
            }
            append_row(&mut store.mined, block_hash, data)
        },
    }
}

/// Reads `length` bytes at `offset` from the committed blob of the given
/// id: `NotFound` where there is no such id, `OutOfBounds` where the range
/// does not lie within the blob.
pub fn read_range(store: &TrieStore, block_id: u32, offset: u64, length: u64) -> (r: Result<
    Vec<u8>,
    Error,
>)
    requires
        store.wf(),
    ensures
        bytes_result(r) == range_of(store@, block_id, offset, length),
{
    if !store.ready {
        return Err(Error::Backend);
    }
    read_table_range(&store.committed, block_id, offset, length)
}

/// Reads the whole blob stored under the block hash in the mined table.
pub fn read_mined_blob(store: &TrieStore, bhh: &BlockHeaderHash) -> (r: Result<Vec<u8>, Error>)
    requires
        store.wf(),
    ensures
        bytes_result(r) == mined_blob_of(store@, bhh.0@),
{
    if !store.ready {
        return Err(Error::Backend);
    }
    match find_hash(&store.mined, bhh) {
        None => Err(Error::NotFound),
        Some(i) => {
            assert(rows_view(store.mined@)[i as int] == store.mined@[i as int]@);
            let data = &store.mined[i].data;
            let blob = copy_range(data.as_slice(), 0, data.len());
            assert(blob@ =~= data@);
            Ok(blob)
        },
    }
}

/// The hash of the node that the pointer names in the committed blob of
/// the given id: the 32 bytes at the pointer's offset.
pub fn get_node_hash_bytes(store: &TrieStore, block_id: u32, ptr: &TriePtr) -> (r: Result<
    TrieHash,
    Error,
>)
    requires
        store.wf(),
    ensures
        hash_result(r) == range_of(store@, block_id, ptr.offset, 32),
{
    match read_range(store, block_id, ptr.offset, 32) {
        Err(e) => Err(e),
        Ok(bytes) => {
            let h = bytes32_at(bytes.as_slice(), 0);
            assert(bytes@.subrange(0, 32) =~= bytes@);
            Ok(TrieHash(h))
        },
    }
}

/// As `get_node_hash_bytes`, for the blob committed under a block hash.
pub fn get_node_hash_bytes_by_bhh(store: &TrieStore, bhh: &BlockHeaderHash, ptr: &TriePtr) -> (r:
    Result<TrieHash, Error>)
    requires
        store.wf(),
    ensures
        hash_result(r) == range_of_hash(store@, bhh.0@, ptr.offset, 32),
{
    match get_block_identifier(store, bhh) {
        Err(e) => Err(e),
        Ok(id) => get_node_hash_bytes(store, id, ptr),
    }
}

/// Appends to `w` the hash of the node that the pointer names in the
/// committed blob of the given id. On an error `w` stays as it is.
pub fn read_node_hash_bytes(store: &TrieStore, w: &mut Vec<u8>, block_id: u32, ptr: &TriePtr) -> (r:
    Result<(), Error>)
    requires
        store.wf(),
    ensures
        match range_of(store@, block_id, ptr.offset, 32) {
            Ok(hash) => r == Ok::<(), Error>(()) && final(w)@ == old(w)@ + hash,
            Err(e) => r == Err::<(), Error>(e) && final(w)@ == old(w)@,
        },
{
    match get_node_hash_bytes(store, block_id, ptr) {
        Err(e) => Err(e),
        Ok(hash) => {
            let ghost before = w@;
            let mut i: usize = 0;
            while i < 32
                invariant
                    i <= 32,
                    w@ == before + hash.0@.subrange(0, i as int),
                decreases 32 - i,
            {
                w.push(hash.0[i]);
                proof {
                    assert(w@ =~= before + hash.0@.subrange(0, i + 1));
                }
                i += 1;
            }
            assert(hash.0@.subrange(0, 32) =~= hash.0@);
            Ok(())
        },
    }
}

/// As `read_node_hash_bytes`, for the blob committed under a block hash.
pub fn read_node_hash_bytes_by_bhh(
    store: &TrieStore,
    w: &mut Vec<u8>,
    bhh: &BlockHeaderHash,
    ptr: &TriePtr,
) -> (r: Result<(), Error>)
    requires
        store.wf(),
    ensures
        match range_of_hash(store@, bhh.0@, ptr.offset, 32) {
            Ok(hash) => r == Ok::<(), Error>(()) && final(w)@ == old(w)@ + hash,
            Err(e) => r == Err::<(), Error>(e) && final(w)@ == old(w)@,
        },
{
    match get_block_identifier(store, bhh) {
        Err(e) => Err(e),
        Ok(id) => read_node_hash_bytes(store, w, id, ptr),
    }
}

/// The record that the pointer names in the committed blob of the given
/// id, split into the encoded node and the hash stored before it.
/// `Corruption` where the pointer's length leaves no room for a hash.
pub fn read_node_type(store: &TrieStore, block_id: u32, ptr: &TriePtr) -> (r: Result<
    (Vec<u8>, TrieHash),
    Error,
>)
    requires
        store.wf(),
    ensures
        match r {
            Ok(p) => Ok::<(Seq<u8>, Seq<u8>), Error>((p.0@, p.1.0@)),
            Err(e) => Err::<(Seq<u8>, Seq<u8>), Error>(e),
        } == node_of(store@, block_id, ptr.offset, ptr.length),
{
    if !store.ready {
        return Err(Error::Backend);
    }
    if find_id(&store.committed, block_id).is_none() {
        return Err(Error::NotFound);
    }
    if ptr.length < 32 {
        return Err(Error::Corruption);
    }
    match read_range(store, block_id, ptr.offset, ptr.length) {
        Err(e) => Err(e),
        Ok(bytes) => {
            let hash = bytes32_at(bytes.as_slice(), 0);
            let node = copy_range(bytes.as_slice(), 32, bytes.len());
            Ok((node, TrieHash(hash)))
        },
    }
}

/// The root hash and the block hash of every committed block, in the order
/// of the ids.
pub fn read_all_block_hashes_and_roots(store: &TrieStore) -> (r: Result<
    Vec<(TrieHash, BlockHeaderHash)>,
    Error,
>)
    requires
        store.wf(),
    ensures
        match r {
            Ok(v) => Ok::<Seq<(Seq<u8>, Seq<u8>)>, Error>(roots_view(v@)),
            Err(e) => Err::<Seq<(Seq<u8>, Seq<u8>)>, Error>(e),
        } == roots_of(store@),
{
    if !store.ready {
        return Err(Error::Backend);
    }
    let ghost rv = rows_view(store.committed@);
    let mut out: Vec<(TrieHash, BlockHeaderHash)> = Vec::new();
    let mut i: usize = 0;
    while i < store.committed.len()
        invariant
            i <= store.committed.len(),
            store.ready,
            rv == rows_view(store.committed@),
            rv.len() == store.committed.len(),
            roots_readable(rv, i as int),
            out@.len() == i,
            forall|k: int|
                0 <= k < i ==> (#[trigger] out@[k]).0.0@ == root_hash_of(rv[k].data) && out@[k].1.0@
                    == rv[k].hash,
        decreases store.committed.len() - i,
    {
        let row = &store.committed[i];
        assert(rv[i as int] == store.committed@[i as int]@);
        match root_hash_of_blob(row.data.as_slice()) {
            Err(e) => {
                assert(rv[i as int].data.len() < ROOT_HASH_OFFSET + 32);
                assert(!roots_readable(rv, rv.len() as int));
                assert(store@.committed == rv);
                return Err(e);
            },
            Ok(root) => {
                out.push((root, row.block_hash));
            },
        }
        i += 1;
    }
    proof {
        let want = Seq::new(rv.len(), |k: int| (root_hash_of(rv[k].data), rv[k].hash));
        assert(roots_view(out@) =~= want);
    }
    Ok(out)
}

proof fn lemma_lock_push(locks: Seq<BlockHeaderHash>, h: BlockHeaderHash)
    ensures
        lock_set(locks.push(h)) == lock_set(locks).insert(h.0@),
{
    let a = lock_set(locks.push(h));
    let b = lock_set(locks).insert(h.0@);
    assert forall|x: Seq<u8>| a.contains(x) == b.contains(x) by {
        if a.contains(x) {
            let i = choose|i: int| 0 <= i < locks.push(h).len() && (#[trigger] locks.push(h)[i]).0@ == x;
            if i < locks.len() {
                assert(locks[i].0@ == x);
            }
        }
        if b.contains(x) {
            if x == h.0@ {
                assert(locks.push(h)[locks.len() as int].0@ == x);
            } else {
                let i = choose|i: int| 0 <= i < locks.len() && (#[trigger] locks[i]).0@ == x;
                assert(locks.push(h)[i].0@ == x);
            }
        }
    }
    assert(a =~= b);
}

proof fn lemma_lock_remove(locks: Seq<BlockHeaderHash>, i: int)
    requires
        0 <= i < locks.len(),
        forall|a: int, b: int|
            0 <= a < b < locks.len() ==> (#[trigger] locks[a]).0@ != (#[trigger] locks[b]).0@,
    ensures
        lock_set(locks.remove(i)) == lock_set(locks).remove(locks[i].0@),
{
    let rest = locks.remove(i);
    let a = lock_set(rest);
    let b = lock_set(locks).remove(locks[i].0@);
    assert forall|x: Seq<u8>| a.contains(x) == b.contains(x) by {
        if a.contains(x) {
            let k = choose|k: int| 0 <= k < rest.len() && (#[trigger] rest[k]).0@ == x;
            let k0 = if k < i { k } else { k + 1 };
            assert(rest[k] == locks[k0]);
            assert(locks[k0].0@ == x);
            if k0 < i {
                assert(locks[k0].0@ != locks[i].0@);
            } else {
                assert(locks[i].0@ != locks[k0].0@);
            }
        }
        if b.contains(x) {
            let k0 = choose|k: int| 0 <= k < locks.len() && (#[trigger] locks[k]).0@ == x;
            let k = if k0 < i { k0 } else { k0 - 1 };
            assert(rest[k] == locks[k0]);
            assert(rest[k].0@ == x);
        }
    }
    assert(a =~= b);
}

/// Locks a block hash for extension. Returns `false`, and changes nothing,
/// where the hash is committed or locked already; else records the lock
/// and returns `true`.
pub fn lock_bhh_for_extension(store: &mut TrieStore, bhh: &BlockHeaderHash) -> (r: Result<
    bool,
    Error,
>)
    requires
        old(store).wf(),
    ensures
        final(store).wf(),
        r == lock_result(old(store)@, bhh.0@),
        final(store)@ == lock_state(old(store)@, bhh.0@),
{
    if !store.ready {
        return Err(Error::Backend);
    }
    if find_hash(&store.committed, bhh).is_some() {
        return Ok(false);
    }
    if find_lock(&store.locks, bhh).is_some() {
        return Ok(false);
    }
    proof {
        lemma_lock_push(store.locks@, *bhh);
        let after = store.locks@.push(*bhh);
        assert forall|a: int, b: int| 0 <= a < b < after.len() implies (#[trigger] after[a]).0@ != (
        #[trigger] after[b]).0@ by {
            if b == store.locks@.len() {
                assert(lock_set(store.locks@).contains(after[a].0@));
            }
        }
    }
    store.locks.push(*bhh);
    Ok(true)
}

/// Drops the lock on a block hash, if there is one.
pub fn drop_lock(store: &mut TrieStore, bhh: &BlockHeaderHash) -> (r: Result<(), Error>)
    requires
        old(store).wf(),
    ensures
        final(store).wf(),
        r == guard(old(store)@),
        final(store)@ == unlock_state(old(store)@, bhh.0@),
{
    if !store.ready {
        assert(store@.locks.remove(bhh.0@) =~= store@.locks);
        return Err(Error::Backend);
    }
    match find_lock(&store.locks, bhh) {
        None => {
            assert(store@.locks.remove(bhh.0@) =~= store@.locks);
        },
        Some(i) => {
            proof {
                lemma_lock_remove(store.locks@, i as int);
            }
            let _gone = store.locks.remove(i);
        },
    }
    Ok(())
}

/// Drops every lock.
pub fn clear_lock_data(store: &mut TrieStore) -> (r: Result<(), Error>)
    requires
        old(store).wf(),
    ensures
        final(store).wf(),
        r == guard(old(store)@),
        final(store)@ == unlock_all_state(old(store)@),
{
    if !store.ready {
        return Err(Error::Backend);
    }
    store.locks.clear();
    assert(lock_set(store.locks@) =~= Set::empty());
    Ok(())
}

/// Empties all three tables.
pub fn clear_tables(store: &mut TrieStore) -> (r: Result<(), Error>)
    requires
        old(store).wf(),
    ensures
        final(store).wf(),
        r == guard(old(store)@),
        final(store)@ == clear_state(old(store)@),
{
    if !store.ready {
        assert(store@.committed =~= Seq::empty());
        assert(store@.mined =~= Seq::empty());
        return Err(Error::Backend);
    }
    store.locks.clear();
    store.committed.clear();
    store.mined.clear();
    assert(lock_set(store.locks@) =~= Set::empty());
    assert(rows_view(store.committed@) =~= Seq::empty());
    assert(rows_view(store.mined@) =~= Seq::empty());
    Ok(())
}

} // verus!
