use vstd::prelude::*;
use crate::error::Error;
use crate::model::{has_hash, lock_result, StoreView};

verus! {

/// A step of an attempt to lock a block hash on tables that answer one
/// question at a time, all within one transaction.
#[derive(Clone, Copy, Debug, PartialEq, Eq, Structural)]
pub enum LockAction {
    /// Ask whether the hash is committed.
    AskCommitted,
    /// Ask whether the hash is locked.
    AskLocked,
    /// Record the lock.
    RecordLock,
    /// Commit the transaction.
    CommitTransaction,
    /// Stop, with the attempt's result. Where it is `false` nothing was
    /// written and the transaction is abandoned.
    Finish(bool),
}

/// The first step of every attempt.
pub open spec fn first_action() -> LockAction {
    LockAction::AskCommitted
}

/// The step that follows `done`. `found` is the answer where `done` was a
/// question, and is not read where it was not.
pub open spec fn next_action(done: LockAction, found: bool) -> LockAction {
    match done {
        LockAction::AskCommitted => if found {
            LockAction::Finish(false)
        } else {
            LockAction::AskLocked
        },
        LockAction::AskLocked => if found {
            LockAction::Finish(false)
        } else {
            LockAction::RecordLock
        },
        LockAction::RecordLock => LockAction::CommitTransaction,
        LockAction::CommitTransaction => LockAction::Finish(true),
        LockAction::Finish(r) => LockAction::Finish(r),
    }
}

/// The steps of a whole attempt on tables that answer `committed` and
/// `locked`, the last being `Finish`.
pub open spec fn attempt(committed: bool, locked: bool) -> Seq<LockAction> {
    if committed {
        seq![LockAction::AskCommitted, LockAction::Finish(false)]
    } else if locked {
        seq![LockAction::AskCommitted, LockAction::AskLocked, LockAction::Finish(false)]
    } else {
        seq![
            LockAction::AskCommitted,
            LockAction::AskLocked,
            LockAction::RecordLock,
            LockAction::CommitTransaction,
            LockAction::Finish(true),
        ]
    }
}

/// The answer that the tables give to a step.
pub open spec fn answer_to(step: LockAction, committed: bool, locked: bool) -> bool {
    match step {
        LockAction::AskCommitted => committed,
        LockAction::AskLocked => locked,
        _ => false,
    }
}

/// The first step of an attempt to lock.
pub fn lock_start() -> (r: LockAction)
    ensures
        r == first_action(),
{
    LockAction::AskCommitted
}

/// The step that follows `done`, given the answer to it.
pub fn lock_next(done: LockAction, found: bool) -> (r: LockAction)
    ensures
        r == next_action(done, found),
{
    match done {
        LockAction::AskCommitted => if found {
            LockAction::Finish(false)
        } else {
            LockAction::AskLocked
        },
        LockAction::AskLocked => if found {
            LockAction::Finish(false)
        } else {
            LockAction::RecordLock
        },
        LockAction::RecordLock => LockAction::CommitTransaction,
        LockAction::CommitTransaction => LockAction::Finish(true),
        LockAction::Finish(r) => LockAction::Finish(r),
    }
}

/// Stepping from the first step on, with the tables' answers, goes
/// through exactly the steps of `attempt`. Its result is what locking
/// returns on a store with those answers, and the lock is recorded only
/// where that result is `true`.
pub proof fn lemma_attempt_follows_steps(s: StoreView, h: Seq<u8>)
    requires
        s.ready,
    ensures
        ({
            let committed = has_hash(s.committed, h);
            let locked = s.locks.contains(h);
            let steps = attempt(committed, locked);
            &&& steps[0] == first_action()
            &&& forall|i: int|
                0 <= i < steps.len() - 1 ==> #[trigger] steps[i + 1] == next_action(
                    steps[i],
                    answer_to(steps[i], committed, locked),
                )
            &&& Ok::<bool, Error>(steps.last()->Finish_0) == lock_result(s, h)
            &&& steps.last() is Finish
            &&& steps.contains(LockAction::RecordLock) == (lock_result(s, h) == Ok::<bool, Error>(
                true,
            ))
        }),
{
    let committed = has_hash(s.committed, h);
    let locked = s.locks.contains(h);
    let steps = attempt(committed, locked);
    if !committed && !locked {
        assert(steps[2] == LockAction::RecordLock);
    }
}

} // verus!
