use vstd::prelude::*;
use crate::error::Error;

verus! {

/// Largest block id that the store hands out.
pub const MAX_BLOCK_ID: u32 = 0x7fff_ffff;

/// Offset within every blob at which the hash of the root node is stored.
pub const ROOT_HASH_OFFSET: usize = 36;

/// One stored block as contracts see it.
pub ghost struct RowView {
    pub id: int,
    pub hash: Seq<u8>,
    pub data: Seq<u8>,
}

/// The whole store as contracts see it: whether its tables exist, the rows
/// of the committed and of the mined table in the order of their ids, and
/// the set of block hashes that are locked for extension.
pub ghost struct StoreView {
    pub ready: bool,
    pub committed: Seq<RowView>,
    pub mined: Seq<RowView>,
    pub locks: Set<Seq<u8>>,
}

/// Whether some row of the table carries the hash `h`.
pub open spec fn has_hash(rows: Seq<RowView>, h: Seq<u8>) -> bool {
    exists|i: int| 0 <= i < rows.len() && (#[trigger] rows[i]).hash == h
}

/// Whether some row of the table carries the id `id`.
pub open spec fn has_id(rows: Seq<RowView>, id: int) -> bool {
    exists|i: int| 0 <= i < rows.len() && (#[trigger] rows[i]).id == id
}

/// Position of a row that carries the hash `h`, where there is one.
pub open spec fn index_of_hash(rows: Seq<RowView>, h: Seq<u8>) -> int {
    choose|i: int| 0 <= i < rows.len() && (#[trigger] rows[i]).hash == h
}

/// Position of a row that carries the id `id`, where there is one.
pub open spec fn index_of_id(rows: Seq<RowView>, id: int) -> int {
    choose|i: int| 0 <= i < rows.len() && (#[trigger] rows[i]).id == id
}

/// The largest id in the table, or 0 for an empty table.
pub open spec fn last_id(rows: Seq<RowView>) -> int {
    if rows.len() == 0 {
        0
    } else {
        rows.last().id
    }
}

/// What holds of every table: ids lie between 1 and the largest permitted
/// id and grow strictly along the rows, and no hash occurs twice.
pub open spec fn table_valid(rows: Seq<RowView>) -> bool {
    &&& forall|i: int|
        0 <= i < rows.len() ==> 1 <= (#[trigger] rows[i]).id <= MAX_BLOCK_ID && rows[i].hash.len()
            == 32
    &&& forall|i: int, j: int|
        0 <= i < j < rows.len() ==> (#[trigger] rows[i]).id < (#[trigger] rows[j]).id
    &&& forall|i: int, j: int|
        0 <= i < j < rows.len() ==> (#[trigger] rows[i]).hash != (#[trigger] rows[j]).hash
}

/// What holds of every store: both tables are valid, and a store without
/// tables holds nothing.
pub open spec fn store_valid(s: StoreView) -> bool {
    &&& table_valid(s.committed)
    &&& table_valid(s.mined)
    &&& (!s.ready ==> s.committed.len() == 0 && s.mined.len() == 0 && s.locks
        == Set::<Seq<u8>>::empty())
}

/// The table without its row of hash `h`; the table itself where no row
/// carries `h`.
pub open spec fn without_hash(rows: Seq<RowView>, h: Seq<u8>) -> Seq<RowView> {
    if has_hash(rows, h) {
        rows.remove(index_of_hash(rows, h))
    } else {
        rows
    }
}

/// The id that a new row of the table gets, or why it gets none.
pub open spec fn next_id(rows: Seq<RowView>) -> Result<u32, Error> {
    if last_id(rows) >= MAX_BLOCK_ID {
        Err(Error::Exhausted)
    } else {
        Ok((last_id(rows) + 1) as u32)
    }
}

/// What committing the blob `b` under the hash `h` returns.
pub open spec fn insert_result(s: StoreView, h: Seq<u8>, b: Seq<u8>) -> Result<u32, Error> {
    if !s.ready {
        Err(Error::Backend)
    } else if has_hash(s.committed, h) {
        Err(Error::Duplicate)
    } else {
        next_id(s.committed)
    }
}

/// The store after committing the blob `b` under the hash `h`.
pub open spec fn insert_state(s: StoreView, h: Seq<u8>, b: Seq<u8>) -> StoreView {
    match insert_result(s, h, b) {
        Ok(id) => StoreView {
            committed: s.committed.push(RowView { id: id as int, hash: h, data: b }),
            ..s
        },
        Err(_) => s,
    }
}

/// What putting back a row under the id `id` returns: the id has to lie
/// above every committed id and within the permitted ids.
pub open spec fn restore_result(s: StoreView, id: u32, h: Seq<u8>) -> Result<(), Error> {
    if !s.ready {
        Err(Error::Backend)
    } else if has_hash(s.committed, h) {
        Err(Error::Duplicate)
    } else if id <= last_id(s.committed) || id > MAX_BLOCK_ID {
        Err(Error::Corruption)
    } else {
        Ok(())
    }
}

/// The store after a row is put back under the id `id`.
pub open spec fn restore_state(s: StoreView, id: u32, h: Seq<u8>, b: Seq<u8>) -> StoreView {
    match restore_result(s, id, h) {
        Ok(_) => StoreView {
            committed: s.committed.push(RowView { id: id as int, hash: h, data: b }),
            ..s
        },
        Err(_) => s,
    }
}

/// What storing the blob `b` under the hash `h` in the mined table returns.
pub open spec fn mined_insert_result(s: StoreView, h: Seq<u8>, b: Seq<u8>) -> Result<u32, Error> {
    if !s.ready {
        Err(Error::Backend)
    } else {
        next_id(without_hash(s.mined, h))
    }
}

/// The store after storing the blob `b` under the hash `h` in the mined
/// table: an earlier row of that hash is gone, the new one comes last.
pub open spec fn mined_insert_state(s: StoreView, h: Seq<u8>, b: Seq<u8>) -> StoreView {
    match mined_insert_result(s, h, b) {
        Ok(id) => StoreView {
            mined: without_hash(s.mined, h).push(RowView { id: id as int, hash: h, data: b }),
            ..s
        },
        Err(_) => s,
    }
}

/// The id under which the hash `h` is committed.
pub open spec fn id_of(s: StoreView, h: Seq<u8>) -> Result<u32, Error> {
    if !s.ready {
        Err(Error::Backend)
    } else if !has_hash(s.committed, h) {
        Err(Error::NotFound)
    } else {
        Ok(s.committed[index_of_hash(s.committed, h)].id as u32)
    }
}

/// The hash that is committed under the id `id`.
pub open spec fn hash_of(s: StoreView, id: u32) -> Result<Seq<u8>, Error> {
    if !s.ready {
        Err(Error::Backend)
    } else if !has_id(s.committed, id as int) {
        Err(Error::NotFound)
    } else {
        Ok(s.committed[index_of_id(s.committed, id as int)].hash)
    }
}

/// The number of committed blocks: the largest committed id.
pub open spec fn count(s: StoreView) -> Result<u32, Error> {
    if !s.ready {
        Err(Error::Backend)
    } else {
        Ok(last_id(s.committed) as u32)
    }
}

/// The bytes of a table's blob `id` from `offset` on, `length` of them.
pub open spec fn table_range(rows: Seq<RowView>, id: u32, offset: u64, length: u64) -> Result<
    Seq<u8>,
    Error,
> {
    if !has_id(rows, id as int) {
        Err(Error::NotFound)
    } else {
        let data = rows[index_of_id(rows, id as int)].data;
        if offset + length > data.len() {
            Err(Error::OutOfBounds)
        } else {
            Ok(data.subrange(offset as int, offset + length))
        }
    }
}

/// The bytes of the committed blob `id` from `offset` on, `length` of them.
pub open spec fn range_of(s: StoreView, id: u32, offset: u64, length: u64) -> Result<
    Seq<u8>,
    Error,
> {
    if !s.ready {
        Err(Error::Backend)
    } else {
        table_range(s.committed, id, offset, length)
    }
}

/// The blob stored under the hash `h` in the mined table.
pub open spec fn mined_blob_of(s: StoreView, h: Seq<u8>) -> Result<Seq<u8>, Error> {
    if !s.ready {
        Err(Error::Backend)
    } else if !has_hash(s.mined, h) {
        Err(Error::NotFound)
    } else {
        Ok(s.mined[index_of_hash(s.mined, h)].data)
    }
}

/// The bytes of the blob committed under the hash `h` from `offset` on,
/// `length` of them.
pub open spec fn range_of_hash(s: StoreView, h: Seq<u8>, offset: u64, length: u64) -> Result<
    Seq<u8>,
    Error,
> {
    match id_of(s, h) {
        Ok(id) => range_of(s, id, offset, length),
        Err(e) => Err(e),
    }
}

/// `Ok` for a store whose tables exist, `Backend` for one without.
pub open spec fn guard(s: StoreView) -> Result<(), Error> {
    if s.ready {
        Ok(())
    } else {
        Err(Error::Backend)
    }
}

/// The node record that a pointer of the given offset and length names in
/// the committed blob `id`: the encoded node and, before it, its hash.
pub open spec fn node_of(s: StoreView, id: u32, offset: u64, length: u64) -> Result<
    (Seq<u8>, Seq<u8>),
    Error,
> {
    if !s.ready {
        Err(Error::Backend)
    } else if !has_id(s.committed, id as int) {
        Err(Error::NotFound)
    } else if length < 32 {
        Err(Error::Corruption)
    } else {
        match range_of(s, id, offset, length) {
            Ok(bytes) => Ok((bytes.subrange(32, length as int), bytes.subrange(0, 32))),
            Err(e) => Err(e),
        }
    }
}

/// Whether every one of the first `n` blobs of the table is long enough to
/// hold a root hash.
pub open spec fn roots_readable(rows: Seq<RowView>, n: int) -> bool {
    forall|i: int| 0 <= i < n ==> (#[trigger] rows[i]).data.len() >= ROOT_HASH_OFFSET + 32
}

/// The root hash stored in a blob.
pub open spec fn root_hash_of(data: Seq<u8>) -> Seq<u8> {
    data.subrange(ROOT_HASH_OFFSET as int, ROOT_HASH_OFFSET + 32)
}

/// What an attempt to lock the hash `h` for extension returns.
pub open spec fn lock_result(s: StoreView, h: Seq<u8>) -> Result<bool, Error> {
    if !s.ready {
        Err(Error::Backend)
    } else {
        Ok(!has_hash(s.committed, h) && !s.locks.contains(h))
    }
}

/// The store after an attempt to lock the hash `h` for extension.
pub open spec fn lock_state(s: StoreView, h: Seq<u8>) -> StoreView {
    if lock_result(s, h) == Ok::<bool, Error>(true) {
        StoreView { locks: s.locks.insert(h), ..s }
    } else {
        s
    }
}

/// The store after the lock on `h` is dropped.
pub open spec fn unlock_state(s: StoreView, h: Seq<u8>) -> StoreView {
    StoreView { locks: s.locks.remove(h), ..s }
}

/// The store after every lock is dropped.
pub open spec fn unlock_all_state(s: StoreView) -> StoreView {
    StoreView { locks: Set::empty(), ..s }
}

/// The store after all three tables are emptied.
pub open spec fn clear_state(s: StoreView) -> StoreView {
    StoreView { ready: s.ready, committed: Seq::empty(), mined: Seq::empty(), locks: Set::empty() }
}

/// The root hash and the block hash of every committed row, in the order
/// of the ids; `Corruption` where a blob is too short to hold a root hash.
pub open spec fn roots_of(s: StoreView) -> Result<Seq<(Seq<u8>, Seq<u8>)>, Error> {
    if !s.ready {
        Err(Error::Backend)
    } else if !roots_readable(s.committed, s.committed.len() as int) {
        Err(Error::Corruption)
    } else {
        Ok(Seq::new(s.committed.len(), |i: int| (root_hash_of(s.committed[i].data), s.committed[i].hash)))
    }
}

/// The store after its tables are created where they were missing.
pub open spec fn create_state(s: StoreView) -> StoreView {
    StoreView { ready: true, ..s }
}

/// No hash is both committed and locked.
pub open spec fn locks_disjoint(s: StoreView) -> bool {
    forall|h: Seq<u8>| !(has_hash(s.committed, h) && s.locks.contains(h))
}

} // verus!
