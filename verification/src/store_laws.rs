use vstd::prelude::*;
use crate::error::Error;
use crate::model::{
    clear_state, count, create_state, has_hash, has_id, id_of, index_of_hash, index_of_id,
    insert_result, insert_state, last_id, lock_result, lock_state, locks_disjoint,
    mined_blob_of, mined_insert_result, mined_insert_state, without_hash, range_of, store_valid, table_valid, unlock_all_state, unlock_state,
    RowView, StoreView, MAX_BLOCK_ID,
};

verus! {

/// In a valid table a row is the only one with its hash and the only one
/// with its id.
pub proof fn lemma_row_is_found(rows: Seq<RowView>, i: int)
    requires
        table_valid(rows),
        0 <= i < rows.len(),
    ensures
        has_hash(rows, rows[i].hash),
        index_of_hash(rows, rows[i].hash) == i,
        has_id(rows, rows[i].id),
        index_of_id(rows, rows[i].id) == i,
        rows[i].id <= last_id(rows),
{
    let c = index_of_hash(rows, rows[i].hash);
    assert(0 <= c < rows.len() && rows[c].hash == rows[i].hash);
    if c < i {
        assert(rows[c].hash != rows[i].hash);
    } else if c > i {
        assert(rows[i].hash != rows[c].hash);
    }
    let d = index_of_id(rows, rows[i].id);
    assert(0 <= d < rows.len() && rows[d].id == rows[i].id);
    if d < i {
        assert(rows[d].id < rows[i].id);
    } else if d > i {
        assert(rows[i].id < rows[d].id);
    }
    if i < rows.len() - 1 {
        assert(rows[i].id < rows[rows.len() - 1].id);
    }
}

/// Committing keeps a valid store valid. Where it succeeds, the new row
/// comes last and carries the returned id.
pub proof fn lemma_insert_valid(s: StoreView, h: Seq<u8>, b: Seq<u8>)
    requires
        store_valid(s),
        h.len() == 32,
    ensures
        store_valid(insert_state(s, h, b)),
        insert_result(s, h, b) is Ok ==> {
            let rows = insert_state(s, h, b).committed;
            &&& rows.len() == s.committed.len() + 1
            &&& rows.last() == (RowView { id: insert_result(s, h, b)->Ok_0 as int, hash: h, data: b })
            &&& insert_result(s, h, b)->Ok_0 == last_id(s.committed) + 1
        },
{
    if insert_result(s, h, b) is Ok {
        let before = s.committed;
        let after = insert_state(s, h, b).committed;
        assert forall|i: int, j: int| 0 <= i < j < after.len() implies (#[trigger] after[i]).id < (
        #[trigger] after[j]).id && after[i].hash != after[j].hash by {
            if j == before.len() {
                lemma_row_is_found(before, i);
            } else {
                assert(before[i].id < before[j].id);
                assert(before[i].hash != before[j].hash);
            }
        }
        assert forall|i: int| 0 <= i < after.len() implies 1 <= (#[trigger] after[i]).id
            <= MAX_BLOCK_ID && after[i].hash.len() == 32 by {
            if i < before.len() {
                assert(1 <= before[i].id);
            }
        }
    }
}

/// A successful commit returns an id that is larger than every id
/// committed before, and the count afterwards is that id.
pub proof fn lemma_insert_id_is_count(s: StoreView, h: Seq<u8>, b: Seq<u8>)
    requires
        store_valid(s),
        h.len() == 32,
        insert_result(s, h, b) is Ok,
    ensures
        count(insert_state(s, h, b)) == insert_result(s, h, b),
        count(s) is Ok,
        count(s)->Ok_0 < insert_result(s, h, b)->Ok_0,
        forall|i: int|
            0 <= i < s.committed.len() ==> (#[trigger] s.committed[i]).id < insert_result(
                s,
                h,
                b,
            )->Ok_0,
{
    lemma_insert_valid(s, h, b);
    assert forall|i: int| 0 <= i < s.committed.len() implies (#[trigger] s.committed[i]).id
        < insert_result(s, h, b)->Ok_0 by {
        lemma_row_is_found(s.committed, i);
    }
}

/// The store after the first `n` of a list of commits, made in order.
pub open spec fn after_inserts(s: StoreView, hs: Seq<Seq<u8>>, bs: Seq<Seq<u8>>, n: nat) -> StoreView
    decreases n,
{
    if n == 0 {
        s
    } else {
        insert_state(after_inserts(s, hs, bs, (n - 1) as nat), hs[n - 1], bs[n - 1])
    }
}

/// What the commit at position `n` of a list of commits returns.
pub open spec fn nth_insert_result(s: StoreView, hs: Seq<Seq<u8>>, bs: Seq<Seq<u8>>, n: nat) -> Result<
    u32,
    Error,
> {
    insert_result(after_inserts(s, hs, bs, n), hs[n as int], bs[n as int])
}

/// What a list of commits can rely on: one blob for each hash, and every
/// hash 32 bytes long.
pub open spec fn inserts_well_formed(hs: Seq<Seq<u8>>, bs: Seq<Seq<u8>>) -> bool {
    &&& hs.len() == bs.len()
    &&& forall|k: int| 0 <= k < hs.len() ==> (#[trigger] hs[k]).len() == 32
}

/// Through a list of commits the store stays valid and its count does not
/// fall.
pub proof fn lemma_inserts_grow(s: StoreView, hs: Seq<Seq<u8>>, bs: Seq<Seq<u8>>, m: nat, n: nat)
    requires
        store_valid(s),
        inserts_well_formed(hs, bs),
        m <= n <= hs.len(),
    ensures
        store_valid(after_inserts(s, hs, bs, n)),
        last_id(after_inserts(s, hs, bs, m).committed) <= last_id(
            after_inserts(s, hs, bs, n).committed,
        ),
        after_inserts(s, hs, bs, n).ready == s.ready,
    decreases n,
{
    if n > 0 {
        let p = (n - 1) as nat;
        let prev = after_inserts(s, hs, bs, p);
        if m <= p {
            lemma_inserts_grow(s, hs, bs, m, p);
        } else {
            lemma_inserts_grow(s, hs, bs, p, p);
        }
        lemma_insert_valid(prev, hs[n - 1], bs[n - 1]);
    }
}

/// Of a list of commits, those that succeed return strictly increasing
/// ids, and each id is the count right after its commit.
pub proof fn lemma_insert_ids_increase(
    s: StoreView,
    hs: Seq<Seq<u8>>,
    bs: Seq<Seq<u8>>,
    i: nat,
    j: nat,
)
    requires
        store_valid(s),
        inserts_well_formed(hs, bs),
        i < j < hs.len(),
        nth_insert_result(s, hs, bs, i) is Ok,
        nth_insert_result(s, hs, bs, j) is Ok,
    ensures
        nth_insert_result(s, hs, bs, i)->Ok_0 < nth_insert_result(s, hs, bs, j)->Ok_0,
        count(after_inserts(s, hs, bs, i + 1)) == nth_insert_result(s, hs, bs, i),
        count(after_inserts(s, hs, bs, j + 1)) == nth_insert_result(s, hs, bs, j),
{
    lemma_inserts_grow(s, hs, bs, i, i);
    lemma_inserts_grow(s, hs, bs, i + 1, j);
    lemma_insert_id_is_count(after_inserts(s, hs, bs, i), hs[i as int], bs[i as int]);
    lemma_insert_id_is_count(after_inserts(s, hs, bs, j), hs[j as int], bs[j as int]);
}

/// Every committed row is found under its hash, and every range within
/// its blob reads as the bytes of the blob at that range.
pub proof fn lemma_committed_row_reads(s: StoreView, i: int, offset: u64, length: u64)
    requires
        store_valid(s),
        s.ready,
        0 <= i < s.committed.len(),
        offset + length <= s.committed[i].data.len(),
    ensures
        id_of(s, s.committed[i].hash) == Ok::<u32, Error>(s.committed[i].id as u32),
        range_of(s, s.committed[i].id as u32, offset, length) == Ok::<Seq<u8>, Error>(
            s.committed[i].data.subrange(offset as int, offset + length),
        ),
{
    lemma_row_is_found(s.committed, i);
}

/// After a successful commit of `b` under `h`, the id of `h` is the one
/// returned, and every range within `b` reads as `b` at that range: the
/// whole of `b` for the range from 0 to its length.
pub proof fn lemma_insert_then_read(s: StoreView, h: Seq<u8>, b: Seq<u8>, offset: u64, length: u64)
    requires
        store_valid(s),
        h.len() == 32,
        insert_result(s, h, b) is Ok,
        offset + length <= b.len(),
    ensures
        id_of(insert_state(s, h, b), h) == insert_result(s, h, b),
        range_of(insert_state(s, h, b), insert_result(s, h, b)->Ok_0, offset, length) == Ok::<
            Seq<u8>,
            Error,
        >(b.subrange(offset as int, offset + length)),
        offset == 0 && length == b.len() ==> range_of(
            insert_state(s, h, b),
            insert_result(s, h, b)->Ok_0,
            offset,
            length,
        ) == Ok::<Seq<u8>, Error>(b),
{
    lemma_insert_valid(s, h, b);
    let s2 = insert_state(s, h, b);
    lemma_committed_row_reads(s2, s2.committed.len() - 1, offset, length);
    if offset == 0 && length == b.len() {
        assert(b.subrange(0, b.len() as int) =~= b);
    }
}

/// A commit leaves every blob that was committed before as it was.
pub proof fn lemma_insert_keeps_blobs(
    s: StoreView,
    h: Seq<u8>,
    b: Seq<u8>,
    id: u32,
    offset: u64,
    length: u64,
)
    requires
        store_valid(s),
        h.len() == 32,
        has_id(s.committed, id as int),
    ensures
        range_of(insert_state(s, h, b), id, offset, length) == range_of(s, id, offset, length),
{
    lemma_insert_valid(s, h, b);
    if insert_result(s, h, b) is Ok {
        let i = index_of_id(s.committed, id as int);
        let s2 = insert_state(s, h, b);
        lemma_row_is_found(s.committed, i);
        assert(s2.committed[i] == s.committed[i]);
        lemma_row_is_found(s2.committed, i);
    }
}

/// Locking a committed hash is refused and changes nothing.
pub proof fn lemma_lock_committed_refused(s: StoreView, h: Seq<u8>)
    requires
        s.ready,
        has_hash(s.committed, h),
    ensures
        lock_result(s, h) == Ok::<bool, Error>(false),
        lock_state(s, h) == s,
{
}

/// A lock that was granted is on a hash that is not committed.
pub proof fn lemma_lock_granted(s: StoreView, h: Seq<u8>)
    requires
        lock_result(s, h) == Ok::<bool, Error>(true),
    ensures
        lock_state(s, h).locks.contains(h),
        !has_hash(lock_state(s, h).committed, h),
{
}

/// Where no hash is both committed and locked, that is still so after an
/// attempt to lock, after dropping one lock or all, after emptying the
/// tables, after creating them, and after storing a mined block.
pub proof fn lemma_disjoint_kept(s: StoreView, h: Seq<u8>, b: Seq<u8>)
    requires
        locks_disjoint(s),
    ensures
        locks_disjoint(lock_state(s, h)),
        locks_disjoint(unlock_state(s, h)),
        locks_disjoint(unlock_all_state(s)),
        locks_disjoint(clear_state(s)),
        locks_disjoint(create_state(s)),
        locks_disjoint(mined_insert_state(s, h, b)),
{
    let s1 = lock_state(s, h);
    assert forall|x: Seq<u8>| !(has_hash(s1.committed, x) && s1.locks.contains(x)) by {
        assert(!(has_hash(s.committed, x) && s.locks.contains(x)));
    }
    let s2 = unlock_state(s, h);
    assert forall|x: Seq<u8>| !(has_hash(s2.committed, x) && s2.locks.contains(x)) by {
        assert(!(has_hash(s.committed, x) && s.locks.contains(x)));
    }
    let s3 = clear_state(s);
    assert forall|x: Seq<u8>| !(has_hash(s3.committed, x) && s3.locks.contains(x)) by {}
    let s4 = mined_insert_state(s, h, b);
    assert forall|x: Seq<u8>| !(has_hash(s4.committed, x) && s4.locks.contains(x)) by {
        assert(!(has_hash(s.committed, x) && s.locks.contains(x)));
    }
    let s5 = create_state(s);
    assert forall|x: Seq<u8>| !(has_hash(s5.committed, x) && s5.locks.contains(x)) by {
        assert(!(has_hash(s.committed, x) && s.locks.contains(x)));
    }
}

/// Where no hash is both committed and locked, that is still so after a
/// commit of a hash that is not locked, and after a commit of any hash
/// once its lock is dropped.
pub proof fn lemma_disjoint_after_commit(s: StoreView, h: Seq<u8>, b: Seq<u8>)
    requires
        locks_disjoint(s),
    ensures
        !s.locks.contains(h) ==> locks_disjoint(insert_state(s, h, b)),
        locks_disjoint(unlock_state(insert_state(s, h, b), h)),
{
    let s1 = insert_state(s, h, b);
    assert forall|x: Seq<u8>| has_hash(s1.committed, x) implies x == h || has_hash(
        s.committed,
        x,
    ) by {
        if insert_result(s, h, b) is Ok {
            let i = index_of_hash(s1.committed, x);
            if i < s.committed.len() {
                assert(s.committed[i].hash == x);
            }
        }
    }
    if !s.locks.contains(h) {
        assert forall|x: Seq<u8>| !(has_hash(s1.committed, x) && s1.locks.contains(x)) by {
            assert(!(has_hash(s.committed, x) && s.locks.contains(x)));
        }
    }
    let s2 = unlock_state(s1, h);
    assert forall|x: Seq<u8>| !(has_hash(s2.committed, x) && s2.locks.contains(x)) by {
        assert(!(has_hash(s.committed, x) && s.locks.contains(x)));
    }
}

/// Of two attempts in a row to lock one hash, the second is refused.
pub proof fn lemma_lock_twice(s: StoreView, h: Seq<u8>)
    requires
        s.ready,
    ensures
        lock_result(lock_state(s, h), h) == Ok::<bool, Error>(false),
{
}

/// A hash that is not committed can be locked again once its lock is
/// dropped.
pub proof fn lemma_lock_unlock_lock(s: StoreView, h: Seq<u8>)
    requires
        s.ready,
        !has_hash(s.committed, h),
    ensures
        lock_result(unlock_state(lock_state(s, h), h), h) == Ok::<bool, Error>(true),
{
}

/// Committing a hash that is committed already is refused as a duplicate
/// and changes nothing, the count included.
pub proof fn lemma_duplicate_refused(s: StoreView, h: Seq<u8>, b: Seq<u8>)
    requires
        s.ready,
        has_hash(s.committed, h),
    ensures
        insert_result(s, h, b) == Err::<u32, Error>(Error::Duplicate),
        insert_state(s, h, b) == s,
        count(insert_state(s, h, b)) == count(s),
{
}

/// After a successful commit of a hash, a second commit of it is refused
/// as a duplicate, and a lock on it is refused too.
pub proof fn lemma_commit_is_final(s: StoreView, h: Seq<u8>, b: Seq<u8>, b2: Seq<u8>)
    requires
        store_valid(s),
        h.len() == 32,
        insert_result(s, h, b) is Ok,
    ensures
        insert_result(insert_state(s, h, b), h, b2) == Err::<u32, Error>(Error::Duplicate),
        lock_result(insert_state(s, h, b), h) == Ok::<bool, Error>(false),
{
    lemma_insert_valid(s, h, b);
    let s2 = insert_state(s, h, b);
    lemma_row_is_found(s2.committed, s2.committed.len() - 1);
}

/// A table without the row of a hash is valid and holds no row of that
/// hash.
pub proof fn lemma_without_hash_valid(rows: Seq<RowView>, h: Seq<u8>)
    requires
        table_valid(rows),
    ensures
        table_valid(without_hash(rows, h)),
        !has_hash(without_hash(rows, h), h),
{
    if has_hash(rows, h) {
        let i = index_of_hash(rows, h);
        let rest = rows.remove(i);
        assert forall|a: int| 0 <= a < rest.len() implies 1 <= (#[trigger] rest[a]).id
            <= MAX_BLOCK_ID && rest[a].hash.len() == 32 by {
            let a0 = if a < i { a } else { a + 1 };
            assert(rest[a] == rows[a0]);
        }
        assert forall|a: int, b: int| 0 <= a < b < rest.len() implies (#[trigger] rest[a]).id < (
        #[trigger] rest[b]).id && rest[a].hash != rest[b].hash by {
            let a0 = if a < i { a } else { a + 1 };
            let b0 = if b < i { b } else { b + 1 };
            assert(rest[a] == rows[a0]);
            assert(rest[b] == rows[b0]);
            assert(rows[a0].id < rows[b0].id);
            assert(rows[a0].hash != rows[b0].hash);
        }
        if has_hash(rest, h) {
            let a = index_of_hash(rest, h);
            let a0 = if a < i { a } else { a + 1 };
            assert(rest[a] == rows[a0]);
            if a0 < i {
                assert(rows[a0].hash != rows[i].hash);
            } else {
                assert(rows[i].hash != rows[a0].hash);
            }
        }
    }
}

/// After a block is stored in the mined table, reading the mined blob of
/// its hash gives the blob stored last, whatever was stored under that
/// hash before, and the committed table and the locks are as they were.
pub proof fn lemma_mined_insert_reads(s: StoreView, h: Seq<u8>, b: Seq<u8>)
    requires
        store_valid(s),
        h.len() == 32,
        mined_insert_result(s, h, b) is Ok,
    ensures
        store_valid(mined_insert_state(s, h, b)),
        mined_blob_of(mined_insert_state(s, h, b), h) == Ok::<Seq<u8>, Error>(b),
        mined_insert_state(s, h, b).committed == s.committed,
        mined_insert_state(s, h, b).locks == s.locks,
{
    lemma_without_hash_valid(s.mined, h);
    let rest = without_hash(s.mined, h);
    let after = mined_insert_state(s, h, b).mined;
    assert forall|i: int, j: int| 0 <= i < j < after.len() implies (#[trigger] after[i]).id < (
    #[trigger] after[j]).id && after[i].hash != after[j].hash by {
        if j == rest.len() {
            lemma_row_is_found(rest, i);
        } else {
            assert(rest[i].id < rest[j].id);
            assert(rest[i].hash != rest[j].hash);
        }
    }
    assert forall|i: int| 0 <= i < after.len() implies 1 <= (#[trigger] after[i]).id
        <= MAX_BLOCK_ID && after[i].hash.len() == 32 by {
        if i < rest.len() {
            assert(1 <= rest[i].id);
        }
    }
    lemma_row_is_found(after, after.len() - 1);
}

} // verus!
