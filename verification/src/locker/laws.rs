//! What lock transitions and their application promise.

use vstd::prelude::*;

use crate::ids;
use crate::lock::LockType;
use crate::locker::{
    self, ActionView, InfoView, PathStateView, RefusalView, RequestView, TxCommitStatus, UpdateView,
    ValueView,
};

verus! {

/// The state at a position is the one that counts for a transaction: it is the
/// first one given for it.
pub open spec fn counts_for(txs: Seq<PathStateView>, i: int, tx: Seq<u8>) -> bool {
    &&& 0 <= i < txs.len()
    &&& txs[i].tx == tx
    &&& forall|j: int| 0 <= j < i ==> (#[trigger] txs[j]).tx != tx
}

/// A transaction is still running, or nothing is known of it.
pub open spec fn runs(status: TxCommitStatus) -> bool {
    status == TxCommitStatus::Pending || status == TxCommitStatus::Unknown
}

/// A holder keeps its lock: it is still running and did not ask to be released.
pub open spec fn stays(txs: Seq<PathStateView>, unlockers: Seq<Seq<u8>>, tx: Seq<u8>) -> bool {
    &&& !unlockers.contains(tx)
    &&& exists|i: int| #[trigger] counts_for(txs, i, tx) && runs(txs[i].status)
}

/// A lock state that is consistent: nobody holds a lock that is free, one that is
/// taken has holders, and a writer's or a creator's lock has just one.
pub open spec fn consistent(typ: LockType, holders: Seq<Seq<u8>>) -> bool {
    match typ {
        LockType::NoLock => holders.len() == 0,
        LockType::Read => holders.len() > 0,
        LockType::Write | LockType::Create => holders.len() == 1,
        LockType::Unknown => false,
    }
}

/// Law: of several states given for a transaction the first one counts.
pub proof fn law_first_state_counts(txs: Seq<PathStateView>, tx: Seq<u8>)
    ensures
        forall|i: int| #[trigger]
            counts_for(txs, i, tx) ==> locker::state_of(txs, tx) == Some(txs[i]),
        locker::state_of(txs, tx) is None <==> forall|j: int|
            0 <= j < txs.len() ==> (#[trigger] txs[j]).tx != tx,
        locker::state_of(txs, tx) is Some ==> exists|i: int| #[trigger] counts_for(txs, i, tx),
    decreases txs.len(),
{
    if txs.len() > 0 {
        let rest = txs.skip(1);
        law_first_state_counts(rest, tx);
        if txs[0].tx == tx {
            assert(counts_for(txs, 0, tx));
        } else {
            assert forall|i: int| #[trigger] counts_for(txs, i, tx) implies locker::state_of(
                txs,
                tx,
            ) == Some(txs[i]) by {
                assert(rest[i - 1] == txs[i]);
                assert forall|j: int| 0 <= j < i - 1 implies (#[trigger] rest[j]).tx != tx by {
                    assert(rest[j] == txs[j + 1]);
                }
                assert(counts_for(rest, i - 1, tx));
            }
            if locker::state_of(txs, tx) is Some {
                let i = choose|i: int| #[trigger] counts_for(rest, i, tx);
                assert(rest[i] == txs[i + 1]);
                assert forall|j: int| 0 <= j < i + 1 implies (#[trigger] txs[j]).tx != tx by {
                    if j > 0 {
                        assert(rest[j - 1] == txs[j]);
                    }
                }
                assert(counts_for(txs, i + 1, tx));
                assert(txs[i + 1].tx == tx);
            } else {
                assert forall|j: int| 0 <= j < txs.len() implies (#[trigger] txs[j]).tx != tx by {
                    if j > 0 {
                        assert(rest[j - 1] == txs[j]);
                    }
                }
            }
        }
    }
}

/// A holder that stays is one whose counting state is not final.
proof fn lemma_stays(txs: Seq<PathStateView>, unlockers: Seq<Seq<u8>>, tx: Seq<u8>)
    requires
        locker::state_of(txs, tx) is Some,
    ensures
        stays(txs, unlockers, tx) <==> !unlockers.contains(tx) && runs(
            locker::state_of(txs, tx)->0.status,
        ),
{
    law_first_state_counts(txs, tx);
    let i = choose|i: int| #[trigger] counts_for(txs, i, tx);
    assert(locker::state_of(txs, tx) == Some(txs[i]));
}

/// What releasing the first `n` holders leaves.
proof fn lemma_released(
    curr: InfoView,
    unlockers: Seq<Seq<u8>>,
    txs: Seq<PathStateView>,
    n: int,
)
    requires
        0 <= n <= curr.locked_by.len(),
    ensures
        match locker::released(curr, unlockers, txs, n) {
            Ok(release) => {
                &&& forall|k: int|
                    0 <= k < n ==> locker::state_of(txs, #[trigger] curr.locked_by[k]) is Some
                &&& forall|tx: Seq<u8>| #[trigger]
                    release.lockers.contains(tx) <==> stays(txs, unlockers, tx)
                        && curr.locked_by.take(n).contains(tx)
                &&& forall|tx: Seq<u8>| #[trigger]
                    release.unlocked.contains(tx) <==> (unlockers.contains(tx)
                        && !curr.locked_by.contains(tx)) || (!stays(txs, unlockers, tx)
                        && curr.locked_by.take(n).contains(tx))
                &&& release.lockers.len() <= n
            },
            Err(missing) => curr.locked_by.take(n).contains(missing) && locker::state_of(
                txs,
                missing,
            ) is None,
        },
    decreases n,
{
    let all = curr.locked_by;
    if n > 0 {
        lemma_released(curr, unlockers, txs, n - 1);
        let last = all[n - 1];
        assert(all.take(n) =~= all.take(n - 1).push(last));
        assert(all.take(n)[n - 1] == last);
        assert forall|tx: Seq<u8>| #[trigger] all.take(n).contains(tx) <==> all.take(n - 1).contains(
            tx,
        ) || tx == last by {
            if all.take(n - 1).contains(tx) {
                let k = all.take(n - 1).index_of(tx);
                assert(all.take(n)[k] == tx);
            }
            if all.take(n).contains(tx) {
                let k = all.take(n).index_of(tx);
                if k < n - 1 {
                    assert(all.take(n - 1)[k] == tx);
                }
            }
        }
        if let Ok(before) = locker::released(curr, unlockers, txs, n - 1) {
            if locker::state_of(txs, last) is Some {
                lemma_stays(txs, unlockers, last);
                lemma_push_contains(before.lockers, last);
                lemma_push_contains(before.unlocked, last);
            }
        }
    } else {
        let r = unlockers.filter(locker::not_among(all));
        assert forall|tx: Seq<u8>| #[trigger] r.contains(tx) <==> unlockers.contains(tx)
            && !all.contains(tx) by {
            lemma_filter_contains(unlockers, locker::not_among(all), tx);
        }
    }
}

/// What a list with one more element holds.
proof fn lemma_push_contains(s: Seq<Seq<u8>>, last: Seq<u8>)
    ensures
        forall|tx: Seq<u8>| #[trigger] s.push(last).contains(tx) <==> s.contains(tx) || tx == last,
{
    let r = s.push(last);
    assert(r[s.len() as int] == last);
    assert forall|tx: Seq<u8>| #[trigger] r.contains(tx) <==> s.contains(tx) || tx == last by {
        if s.contains(tx) {
            assert(r[s.index_of(tx)] == tx);
        }
        if r.contains(tx) && tx != last {
            assert(s[r.index_of(tx)] == tx);
        }
    }
}

/// What a filtered list holds.
proof fn lemma_filter_contains(s: Seq<Seq<u8>>, keep: spec_fn(Seq<u8>) -> bool, tx: Seq<u8>)
    ensures
        s.filter(keep).contains(tx) <==> s.contains(tx) && keep(tx),
{
    let r = s.filter(keep);
    if r.contains(tx) {
        s.lemma_filter_contains_rev(keep, tx);
        let k = r.index_of(tx);
        s.lemma_filter_pred(keep, k);
    }
    if s.contains(tx) && keep(tx) {
        s.lemma_filter_contains(keep, s.index_of(tx));
    }
}

/// What two joined lists hold.
proof fn lemma_concat_contains(a: Seq<Seq<u8>>, b: Seq<Seq<u8>>)
    ensures
        forall|tx: Seq<u8>| #[trigger] (a + b).contains(tx) <==> a.contains(tx) || b.contains(tx),
{
    let r = a + b;
    assert forall|tx: Seq<u8>| #[trigger] r.contains(tx) <==> a.contains(tx) || b.contains(tx) by {
        if a.contains(tx) {
            assert(r[a.index_of(tx)] == tx);
        }
        if b.contains(tx) {
            assert(r[a.len() + b.index_of(tx)] == tx);
        }
        if r.contains(tx) {
            let k = r.index_of(tx);
            if k < a.len() {
                assert(a[k] == tx);
            } else {
                assert(b[k - a.len()] == tx);
            }
        }
    }
}

/// The lock state that the requesters meet, after the release.
proof fn lemma_after_release(curr: InfoView, req: RequestView, txs: Seq<PathStateView>)
    requires
        locker::unlock_ops(curr, req.unlockers, txs) is Ok,
        curr.typ != LockType::NoLock,
    ensures
        ({
            let unlock = locker::unlock_ops(curr, req.unlockers, txs)->Ok_0;
            let after = locker::info_after(curr, unlock);
            &&& forall|tx: Seq<u8>| #[trigger]
                after.locked_by.contains(tx) <==> curr.locked_by.contains(tx) && stays(
                    txs,
                    req.unlockers,
                    tx,
                )
            &&& unlock.has_update ==> unlock.update.lockers == after.locked_by && unlock.update.typ
                == after.typ
            &&& !unlock.has_update ==> after == curr
            &&& after.locked_by.len() <= curr.locked_by.len()
            &&& after.typ == if unlock.has_update && after.locked_by.len() == 0 {
                LockType::NoLock
            } else {
                curr.typ
            }
            &&& forall|tx: Seq<u8>| #[trigger]
                unlock.unlocked_for.contains(tx) <==> (req.unlockers.contains(tx)
                    && !curr.locked_by.contains(tx)) || (curr.locked_by.contains(tx) && !stays(
                    txs,
                    req.unlockers,
                    tx,
                ))
            &&& forall|k: int|
                0 <= k < curr.locked_by.len() ==> locker::state_of(
                    txs,
                    #[trigger] curr.locked_by[k],
                ) is Some
        }),
{
    let all = curr.locked_by;
    let n = all.len() as int;
    lemma_released(curr, req.unlockers, txs, n);
    assert(all.take(n) =~= all);
    let unlock = locker::unlock_ops(curr, req.unlockers, txs)->Ok_0;
    if !unlock.has_update {
        assert forall|tx: Seq<u8>| #[trigger] all.contains(tx) implies stays(
            txs,
            req.unlockers,
            tx,
        ) by {
            if !stays(txs, req.unlockers, tx) {
                assert(unlock.unlocked_for.contains(tx));
            }
        }
    }
}

/// Law: a holder that is still running and did not ask to be released keeps its
/// lock in every update, whoever else gets it. Only a create lock, which is for an
/// object that does not exist, is taken whatever is known of it.
pub proof fn law_running_holders_keep_the_lock(
    curr: InfoView,
    req: RequestView,
    txs: Seq<PathStateView>,
    holder: Seq<u8>,
)
    requires
        locker::lock_ops(curr, req, txs) is Ok,
        locker::lock_ops(curr, req, txs)->Ok_0.has_update,
        curr.locked_by.contains(holder),
        stays(txs, req.unlockers, holder),
        req.typ != LockType::Create || req.lockers.len() == 0,
    ensures
        locker::lock_ops(curr, req, txs)->Ok_0.update.lockers.contains(holder),
{
    let unlock = locker::unlock_ops(curr, req.unlockers, txs)->Ok_0;
    let after = locker::info_after(curr, unlock);
    if curr.typ != LockType::NoLock {
        lemma_after_release(curr, req, txs);
    }
    assert(after.locked_by.contains(holder));
    lemma_concat_contains(after.locked_by, req.lockers);
    assert(after.locked_by.contains(holder));
}

/// Law: nobody holds a lock after an update but its holders before that were not
/// released, and its requesters.
pub proof fn law_nobody_else_gets_the_lock(
    curr: InfoView,
    req: RequestView,
    txs: Seq<PathStateView>,
    tx: Seq<u8>,
)
    requires
        locker::lock_ops(curr, req, txs) is Ok,
        locker::lock_ops(curr, req, txs)->Ok_0.has_update,
        locker::lock_ops(curr, req, txs)->Ok_0.update.lockers.contains(tx),
        curr.typ != LockType::NoLock || curr.locked_by.len() == 0,
    ensures
        req.lockers.contains(tx) || (curr.locked_by.contains(tx) && stays(
            txs,
            req.unlockers,
            tx,
        )),
{
    let unlock = locker::unlock_ops(curr, req.unlockers, txs)->Ok_0;
    let after = locker::info_after(curr, unlock);
    if curr.typ != LockType::NoLock {
        lemma_after_release(curr, req, txs);
    }
    lemma_concat_contains(after.locked_by, req.lockers);
    lemma_concat_contains(Seq::empty(), req.lockers);
}

/// Law: whoever is told that it holds the lock asked for it and holds it after
/// the update, in the way it asked for.
pub proof fn law_granted_requesters_hold_the_lock(
    curr: InfoView,
    req: RequestView,
    txs: Seq<PathStateView>,
    tx: Seq<u8>,
)
    requires
        locker::lock_ops(curr, req, txs) is Ok,
        locker::lock_ops(curr, req, txs)->Ok_0.locked_for.contains(tx),
    ensures
        ({
            let ops = locker::lock_ops(curr, req, txs)->Ok_0;
            &&& req.lockers.contains(tx)
            &&& ops.has_update
            &&& ops.update.typ == req.typ
            &&& ops.update.lockers.contains(tx)
            &&& ops.wait_for.len() == 0
            &&& ops.wound.len() == 0
        }),
{
    let unlock = locker::unlock_ops(curr, req.unlockers, txs)->Ok_0;
    let after = locker::info_after(curr, unlock);
    if curr.typ != LockType::NoLock {
        lemma_after_release(curr, req, txs);
    }
    lemma_concat_contains(after.locked_by, req.lockers);
    lemma_concat_contains(Seq::empty(), req.lockers);
    lemma_filter_contains(after.locked_by, locker::among(req.lockers), tx);
}

/// Law: an update of a consistent lock leaves a consistent lock. So a writer or a
/// creator holds its lock alone.
pub proof fn law_updates_keep_locks_consistent(
    curr: InfoView,
    req: RequestView,
    txs: Seq<PathStateView>,
)
    requires
        consistent(curr.typ, curr.locked_by),
        locker::lock_ops(curr, req, txs) is Ok,
        locker::lock_ops(curr, req, txs)->Ok_0.has_update,
    ensures
        ({
            let update = locker::lock_ops(curr, req, txs)->Ok_0.update;
            consistent(update.typ, update.lockers)
        }),
{
    let unlock = locker::unlock_ops(curr, req.unlockers, txs)->Ok_0;
    if curr.typ != LockType::NoLock {
        lemma_after_release(curr, req, txs);
    }
}

/// Law: a holder that is final or that asked to be released is told so, and does
/// not hold the lock any more unless it asked for it again; so is everyone who
/// asked to be released and held nothing.
pub proof fn law_released_holders_are_told(
    curr: InfoView,
    req: RequestView,
    txs: Seq<PathStateView>,
    tx: Seq<u8>,
)
    requires
        locker::lock_ops(curr, req, txs) is Ok,
        curr.typ != LockType::NoLock || curr.locked_by.len() == 0,
    ensures
        ({
            let ops = locker::lock_ops(curr, req, txs)->Ok_0;
            &&& ops.unlocked_for.contains(tx) <==> (curr.locked_by.contains(tx) && !stays(
                txs,
                req.unlockers,
                tx,
            )) || (req.unlockers.contains(tx) && !curr.locked_by.contains(tx))
            &&& ops.unlocked_for.contains(tx) ==> ops.has_update
            &&& ops.unlocked_for.contains(tx) && ops.update.lockers.contains(tx)
                ==> req.lockers.contains(tx)
        }),
{
    let unlock = locker::unlock_ops(curr, req.unlockers, txs)->Ok_0;
    if curr.typ != LockType::NoLock {
        lemma_after_release(curr, req, txs);
    }
    let ops = locker::lock_ops(curr, req, txs)->Ok_0;
    if ops.unlocked_for.contains(tx) && ops.update.lockers.contains(tx) {
        law_nobody_else_gets_the_lock(curr, req, txs, tx);
    }
}

/// Law: when the holder of a writer's lock has committed, the update records it
/// with the value that it wrote; when it has not, no value is recorded.
pub proof fn law_committed_value_is_recorded(
    curr: InfoView,
    req: RequestView,
    txs: Seq<PathStateView>,
    i: int,
)
    requires
        curr.typ == LockType::Write || curr.typ == LockType::Create,
        curr.locked_by.len() == 1,
        counts_for(txs, i, curr.locked_by[0]),
        locker::lock_ops(curr, req, txs) is Ok,
    ensures
        ({
            let ops = locker::lock_ops(curr, req, txs)->Ok_0;
            if txs[i].status == TxCommitStatus::Committed {
                &&& ops.has_update
                &&& ops.update.writer == curr.locked_by[0]
                &&& ops.update.value == txs[i].value
                &&& ops.update.prev_type == curr.typ
            } else {
                &&& ops.update.writer.len() == 0
                &&& ops.update.value == (ValueView {
                    value: Seq::empty(),
                    deleted: false,
                    not_written: false,
                })
            }
        }),
{
    law_first_state_counts(txs, curr.locked_by[0]);
    reveal_with_fuel(locker::released, 2);
    lemma_released(curr, req.unlockers, txs, 1);
    assert(curr.locked_by.take(1) =~= curr.locked_by);
    lemma_after_release(curr, req, txs);
    assert(curr.locked_by.contains(curr.locked_by[0]));
    lemma_stays(txs, req.unlockers, curr.locked_by[0]);
}

/// Law: a lock that readers share records no value.
pub proof fn law_readers_record_nothing(
    curr: InfoView,
    req: RequestView,
    txs: Seq<PathStateView>,
)
    requires
        curr.typ == LockType::Read || curr.typ == LockType::NoLock,
        locker::lock_ops(curr, req, txs) is Ok,
    ensures
        ({
            let update = locker::lock_ops(curr, req, txs)->Ok_0.update;
            &&& update.writer.len() == 0
            &&& update.value == (ValueView {
                value: Seq::empty(),
                deleted: false,
                not_written: false,
            })
        }),
{
    lemma_no_value(curr, req.unlockers, txs, curr.locked_by.len() as int);
}

proof fn lemma_no_value(
    curr: InfoView,
    unlockers: Seq<Seq<u8>>,
    txs: Seq<PathStateView>,
    n: int,
)
    requires
        curr.typ == LockType::Read || curr.typ == LockType::NoLock,
    ensures
        locker::released(curr, unlockers, txs, n) matches Ok(release) ==> release.writer.len() == 0
            && release.value == ValueView::none(),
    decreases n,
{
    if n > 0 {
        lemma_no_value(curr, unlockers, txs, n - 1);
    }
}

/// Law: a release needs the state of every holder, and nothing else; what is
/// wrong with a request is that it asks for no lock, or for a writer's lock with
/// other than one requester.
pub proof fn law_requests_that_are_refused(
    curr: InfoView,
    req: RequestView,
    txs: Seq<PathStateView>,
)
    ensures
        locker::lock_ops(curr, req, txs) is Err ==> {
            ||| curr.typ != LockType::NoLock && exists|k: int|
                0 <= k < curr.locked_by.len() && locker::state_of(
                    txs,
                    #[trigger] curr.locked_by[k],
                ) is None
            ||| req.lockers.len() > 0 && (req.typ == LockType::Unknown || req.typ
                == LockType::NoLock)
            ||| req.lockers.len() > 1 && (req.typ == LockType::Write || req.typ
                == LockType::Create)
        },
        curr.typ != LockType::NoLock && (exists|k: int|
            0 <= k < curr.locked_by.len() && locker::state_of(
                txs,
                #[trigger] curr.locked_by[k],
            ) is None) ==> locker::lock_ops(curr, req, txs) is Err,
{
    let all = curr.locked_by;
    let n = all.len() as int;
    lemma_released(curr, req.unlockers, txs, n);
    assert(all.take(n) =~= all);
    if curr.typ != LockType::NoLock {
        if let Err(missing) = locker::released(curr, req.unlockers, txs, n) {
            let k = all.index_of(missing);
            assert(locker::state_of(txs, all[k]) is None);
        }
    }
}

/// Law: readers do not exclude readers. Where nobody but readers holds the lock,
/// and none of the requesters does yet, they all get it, nobody is waited for and
/// nobody is wounded.
pub proof fn law_readers_share(curr: InfoView, req: RequestView, txs: Seq<PathStateView>)
    requires
        curr.typ == LockType::Read || curr.typ == LockType::NoLock,
        req.typ == LockType::Read,
        req.lockers.len() > 0,
        forall|k: int|
            0 <= k < req.lockers.len() ==> !curr.locked_by.contains(#[trigger] req.lockers[k]),
        locker::lock_ops(curr, req, txs) is Ok,
    ensures
        ({
            let ops = locker::lock_ops(curr, req, txs)->Ok_0;
            &&& ops.has_update
            &&& ops.update.typ == LockType::Read
            &&& ops.locked_for == req.lockers
            &&& ops.wait_for.len() == 0
            &&& ops.wound.len() == 0
            &&& forall|k: int|
                0 <= k < req.lockers.len() ==> ops.update.lockers.contains(
                    #[trigger] req.lockers[k],
                )
        }),
{
    law_readers_record_nothing(curr, req, txs);
    let unlock = locker::unlock_ops(curr, req.unlockers, txs)->Ok_0;
    let after = locker::info_after(curr, unlock);
    lemma_no_value(curr, req.unlockers, txs, curr.locked_by.len() as int);
    if curr.typ != LockType::NoLock {
        lemma_after_release(curr, req, txs);
    }
    let held = after.locked_by.filter(locker::among(req.lockers));
    if held.len() > 0 {
        assert(held.contains(held[0]));
        lemma_filter_contains(after.locked_by, locker::among(req.lockers), held[0]);
        let k = req.lockers.index_of(held[0]);
        assert(curr.locked_by.contains(req.lockers[k]));
    }
    lemma_concat_contains(after.locked_by, req.lockers);
}

/// Law: a lock that nobody else keeps is given to the writer that asks for it: to
/// it alone, in whatever way it or those who released it held the lock before. A
/// committed deletion is applied first.
pub proof fn law_free_lock_is_given_to_a_writer(
    curr: InfoView,
    req: RequestView,
    txs: Seq<PathStateView>,
)
    requires
        consistent(curr.typ, curr.locked_by),
        req.typ == LockType::Write,
        req.lockers.len() == 1,
        forall|k: int|
            0 <= k < curr.locked_by.len() ==> (#[trigger] curr.locked_by[k] == req.lockers[0]
                && curr.typ != LockType::Create && curr.locked_by.len() == 1) || !stays(
                txs,
                req.unlockers,
                curr.locked_by[k],
            ),
        locker::lock_ops(curr, req, txs) is Ok,
        !locker::lock_ops(curr, req, txs)->Ok_0.update.value.deleted,
    ensures
        ({
            let ops = locker::lock_ops(curr, req, txs)->Ok_0;
            &&& ops.has_update
            &&& ops.update.typ == LockType::Write
            &&& ops.update.lockers == req.lockers
            &&& ops.locked_for == req.lockers
            &&& ops.wait_for.len() == 0
            &&& ops.wound.len() == 0
        }),
{
    let unlock = locker::unlock_ops(curr, req.unlockers, txs)->Ok_0;
    let after = locker::info_after(curr, unlock);
    if curr.typ != LockType::NoLock {
        lemma_after_release(curr, req, txs);
        if after.locked_by.len() > 0 {
            assert(after.locked_by.contains(after.locked_by[0]));
            let k = curr.locked_by.index_of(after.locked_by[0]);
            assert(curr.locked_by[k] == req.lockers[0]);
            assert(after.locked_by =~= req.lockers);
        }
    }
    assert(Seq::<Seq<u8>>::empty() + req.lockers =~= req.lockers);
    assert(after.locked_by.len() == 0 ==> after.locked_by + req.lockers =~= req.lockers);
    assert(after.locked_by.len() == 0 || after.locked_by =~= req.lockers);
    if after.locked_by.len() == 1 {
        lemma_filter_contains(after.locked_by, locker::among(req.lockers), req.lockers[0]);
        assert(req.lockers.contains(req.lockers[0]));
        let held = after.locked_by.filter(locker::among(req.lockers));
        assert(held =~= req.lockers) by {
            reveal(Seq::filter);
            assert(after.locked_by.drop_last() =~= Seq::empty());
            assert(after.locked_by.drop_last().filter(locker::among(req.lockers)).len() == 0);
        }
    }
}

/// Requesters conflict with holders: either of them writes.
pub open spec fn conflicts(held: LockType, wanted: LockType) -> bool {
    ||| held == LockType::Write && (wanted == LockType::Read || wanted == LockType::Write)
    ||| held == LockType::Create && (wanted == LockType::Read || wanted == LockType::Write)
    ||| held == LockType::Read && wanted == LockType::Write
}

/// Law: requesters that conflict with a holder that stays get nothing. They may
/// abort the holder when one of them has priority over it and it is none of them,
/// and must wait for it else.
pub proof fn law_conflicting_holders_are_wounded_or_awaited(
    curr: InfoView,
    req: RequestView,
    txs: Seq<PathStateView>,
    holder: Seq<u8>,
)
    requires
        conflicts(curr.typ, req.typ),
        req.lockers.len() > 0,
        curr.locked_by.contains(holder),
        stays(txs, req.unlockers, holder),
        !req.lockers.contains(holder),
        forall|k: int|
            0 <= k < req.lockers.len() ==> !curr.locked_by.contains(#[trigger] req.lockers[k])
                || curr.typ != req.typ,
        locker::lock_ops(curr, req, txs) is Ok,
        !locker::lock_ops(curr, req, txs)->Ok_0.update.value.deleted,
    ensures
        ({
            let ops = locker::lock_ops(curr, req, txs)->Ok_0;
            let outranked = exists|k: int|
                0 <= k < req.lockers.len() && ids::has_priority(#[trigger] req.lockers[k], holder);
            &&& ops.locked_for.len() == 0
            &&& ops.wound.contains(holder) <==> outranked
            &&& ops.wait_for.contains(holder) <==> !outranked
        }),
{
    let unlock = locker::unlock_ops(curr, req.unlockers, txs)->Ok_0;
    let after = locker::info_after(curr, unlock);
    lemma_after_release(curr, req, txs);
    assert(after.locked_by.contains(holder));
    lemma_filter_contains(after.locked_by, locker::awaited(req.lockers), holder);
    lemma_filter_contains(after.locked_by, locker::wounded(req.lockers), holder);
    let held = after.locked_by.filter(locker::among(req.lockers));
    if after.typ == req.typ && held.len() > 0 {
        assert(held.contains(held[0]));
        lemma_filter_contains(after.locked_by, locker::among(req.lockers), held[0]);
        let k = req.lockers.index_of(held[0]);
        assert(curr.locked_by.contains(req.lockers[k]));
    }
}

/// Law: only holders are waited for or wounded, and none of the requesters is
/// wounded.
pub proof fn law_only_holders_are_wounded_or_awaited(
    curr: InfoView,
    req: RequestView,
    txs: Seq<PathStateView>,
    tx: Seq<u8>,
)
    requires
        locker::lock_ops(curr, req, txs) is Ok,
        ({
            let ops = locker::lock_ops(curr, req, txs)->Ok_0;
            ops.wait_for.contains(tx) || ops.wound.contains(tx)
        }),
        curr.typ != LockType::NoLock,
    ensures
        curr.locked_by.contains(tx),
        stays(txs, req.unlockers, tx),
        locker::lock_ops(curr, req, txs)->Ok_0.wound.contains(tx) ==> !req.lockers.contains(tx),
{
    let unlock = locker::unlock_ops(curr, req.unlockers, txs)->Ok_0;
    let after = locker::info_after(curr, unlock);
    lemma_after_release(curr, req, txs);
    lemma_filter_contains(after.locked_by, locker::awaited(req.lockers), tx);
    lemma_filter_contains(after.locked_by, locker::wounded(req.lockers), tx);
}

/// Law: a committed value is written as it is. When an update names a writer that
/// wrote its value and did not delete it, and the object is there, the object gets
/// just that value, and its tags name the writer.
pub proof fn law_committed_value_is_written(update: UpdateView)
    requires
        update.typ == LockType::NoLock || update.typ == LockType::Read || update.typ
            == LockType::Write,
        update.writer.len() > 0,
        !update.value.not_written,
        !update.value.deleted,
    ensures
        locker::action_for(update, false) matches Ok(ActionView::Write { value, tags }) && value
            == update.value.value && tags.contains_key("last-writer"@) && tags["last-writer"@]
            == locker::base64_text(update.writer),
{
}

/// Law: an object is deleted just when its lock becomes free and the deletion of
/// it was committed under a writer's lock, or its creator has written nothing.
pub proof fn law_what_deletes_an_object(update: UpdateView, missing: bool)
    ensures
        locker::action_for(update, missing) == Ok::<ActionView, RefusalView>(ActionView::Delete)
            <==> update.typ == LockType::NoLock && if update.value.deleted {
            update.prev_type == LockType::Write || update.prev_type == LockType::Create
        } else {
            update.prev_type == LockType::Create && (update.writer.len() == 0
                || update.value.not_written)
        },
{
}

/// Law: an object that exists keeps its value when the update has none to write:
/// only its tags change. An object is created empty, and only by a create lock.
pub proof fn law_nothing_else_changes_the_value(update: UpdateView, missing: bool)
    ensures
        locker::action_for(update, missing) matches Ok(ActionView::Write { value, .. }) ==> {
            &&& value == update.value.value
            &&& update.writer.len() > 0
            &&& !update.value.not_written
            &&& !missing
        },
        locker::action_for(update, missing) matches Ok(ActionView::Create { .. }) <==> update.typ
            == LockType::Create,
        !missing && (update.typ == LockType::Read || update.typ == LockType::Write) && (
        update.writer.len() == 0 || update.value.not_written) ==> locker::action_for(
            update,
            missing,
        ) matches Ok(ActionView::SetTags { .. }),
        !missing && update.typ == LockType::NoLock && update.prev_type != LockType::Create
            && !update.value.deleted && (update.writer.len() == 0 || update.value.not_written)
            ==> locker::action_for(update, missing) matches Ok(ActionView::SetTags { .. }),
        missing && (update.typ == LockType::Read || update.typ == LockType::Write)
            ==> locker::action_for(update, missing) == Err::<ActionView, RefusalView>(
            RefusalView::NotFound,
        ),
        missing && update.typ == LockType::NoLock && !update.value.deleted && update.prev_type
            != LockType::Create ==> locker::action_for(update, missing) == Ok::<
            ActionView,
            RefusalView,
        >(ActionView::Keep),
{
}

/// Law: the tags that an action leaves say how the lock is held, and name its
/// holders in their order.
pub proof fn law_tags_say_who_holds_the_lock(update: UpdateView, missing: bool)
    ensures
        match locker::action_for(update, missing) {
            Ok(ActionView::Create { tags }) => says(tags, update),
            Ok(ActionView::Write { tags, .. }) => says(tags, update),
            Ok(ActionView::SetTags { tags }) => says(tags, update) && !tags.contains_key(
                "last-writer"@,
            ),
            _ => true,
        },
{
    locker::lemma_tag_names();
    assert(Seq::new(update.lockers.len(), |i: int| locker::base64_text(update.lockers[i]))
        =~= locker::tag_texts(update.lockers));
}

/// Tags carry a lock's type and its holders.
pub open spec fn says(tags: Map<Seq<char>, Seq<char>>, update: UpdateView) -> bool {
    &&& tags.contains_key("lock-type"@)
    &&& tags["lock-type"@] == (match update.typ {
        LockType::NoLock => "-"@,
        LockType::Read => "r"@,
        LockType::Write => "w"@,
        LockType::Create => "c"@,
        LockType::Unknown => ""@,
    })
    &&& tags.contains_key("locked-by"@)
    &&& tags["locked-by"@] == locker::comma_joined(
        Seq::new(update.lockers.len(), |i: int| locker::base64_text(update.lockers[i])),
    )
}

/// Law: a committed write reaches the object. When the holder of a write lock has
/// committed a value, and the lock is released and nobody asks for it, the object
/// gets that value and a free lock; a committed deletion deletes the object.
pub proof fn law_committed_write_reaches_the_object(
    curr: InfoView,
    req: RequestView,
    txs: Seq<PathStateView>,
    i: int,
)
    requires
        curr.typ == LockType::Write || curr.typ == LockType::Create,
        curr.locked_by.len() == 1,
        curr.locked_by[0].len() > 0,
        counts_for(txs, i, curr.locked_by[0]),
        txs[i].status == TxCommitStatus::Committed,
        !txs[i].value.not_written,
        req.lockers.len() == 0,
    ensures
        locker::lock_ops(curr, req, txs) matches Ok(ops) && match locker::action_for(
            ops.update,
            false,
        ) {
            Ok(ActionView::Delete) => txs[i].value.deleted,
            Ok(ActionView::Write { value, tags }) => !txs[i].value.deleted && value
                == txs[i].value.value && ops.update.lockers.len() == 0 && ops.update.typ
                == LockType::NoLock,
            _ => false,
        },
{
    let tx = curr.locked_by[0];
    law_first_state_counts(txs, tx);
    law_requests_that_are_refused(curr, req, txs);
    assert forall|k: int| 0 <= k < curr.locked_by.len() implies locker::state_of(
        txs,
        #[trigger] curr.locked_by[k],
    ) is Some by {}
    law_committed_value_is_recorded(curr, req, txs, i);
    lemma_after_release(curr, req, txs);
    lemma_stays(txs, req.unlockers, tx);
    let unlock = locker::unlock_ops(curr, req.unlockers, txs)->Ok_0;
    let after = locker::info_after(curr, unlock);
    if after.locked_by.len() > 0 {
        assert(after.locked_by.contains(after.locked_by[0]));
        let k = curr.locked_by.index_of(after.locked_by[0]);
    }
}

/// Law: a committed deletion is applied before anyone gets the lock: the update
/// that carries it leaves the lock free, and nobody is told to hold it.
pub proof fn law_deletion_is_applied_first(
    curr: InfoView,
    req: RequestView,
    txs: Seq<PathStateView>,
)
    requires
        consistent(curr.typ, curr.locked_by),
        locker::lock_ops(curr, req, txs) is Ok,
        locker::lock_ops(curr, req, txs)->Ok_0.update.value.deleted,
    ensures
        ({
            let ops = locker::lock_ops(curr, req, txs)->Ok_0;
            &&& ops.has_update
            &&& ops.locked_for.len() == 0
            &&& ops.update.typ == LockType::NoLock
            &&& ops.update.lockers.len() == 0
            &&& locker::action_for(ops.update, false) == Ok::<ActionView, RefusalView>(
                ActionView::Delete,
            )
        }),
{
    if curr.typ == LockType::Read || curr.typ == LockType::NoLock {
        law_readers_record_nothing(curr, req, txs);
    } else {
        let tx = curr.locked_by[0];
        lemma_after_release(curr, req, txs);
        law_first_state_counts(txs, tx);
        assert(locker::state_of(txs, tx) is Some);
        let i = choose|i: int| #[trigger] counts_for(txs, i, tx);
        law_committed_value_is_recorded(curr, req, txs, i);
        lemma_stays(txs, req.unlockers, tx);
        let unlock = locker::unlock_ops(curr, req.unlockers, txs)->Ok_0;
        let after = locker::info_after(curr, unlock);
        if after.locked_by.len() > 0 {
            assert(after.locked_by.contains(after.locked_by[0]));
            let k = curr.locked_by.index_of(after.locked_by[0]);
        }
    }
}

/// Law: what is wrong with a lock state is that nobody holds a lock that is not
/// free, or that several hold a writer's or a creator's.
pub proof fn law_inconsistent_locks_are_found(info: InfoView)
    ensures
        info.typ != LockType::Unknown && consistent(info.typ, info.locked_by)
            ==> locker::info_fault(info) is None,
        info.locked_by.len() == 0 && info.typ != LockType::NoLock ==> locker::info_fault(info)
            is Some,
        info.locked_by.len() > 1 && (info.typ == LockType::Write || info.typ == LockType::Create)
            ==> locker::info_fault(info) is Some,
        info.locked_by.len() == 1 ==> locker::info_fault(info) is None,
        info.locked_by.len() > 1 && info.typ == LockType::Read ==> locker::info_fault(info) is None,
{
}

/// Law: an object without tags is free, and has no writer; tags that name a
/// writer which does not read count as none.
pub proof fn law_untagged_object_is_free(tags: Map<Seq<char>, Seq<char>>)
    ensures
        !tags.contains_key("lock-type"@) && !tags.contains_key("locked-by"@)
            && !tags.contains_key("last-writer"@) ==> locker::info_of(tags) == Ok::<
            InfoView,
            Seq<char>,
        >(InfoView { typ: LockType::NoLock, locked_by: Seq::empty(), last_writer: Seq::empty() }),
        locker::info_of(tags) is Ok && tags.contains_key("last-writer"@) ==> locker::info_of(
            tags,
        )->Ok_0.last_writer == (match locker::base64_parsed(tags["last-writer"@]) {
            Ok(id) => id,
            Err(_) => Seq::empty(),
        }),
{
}

/// Law: an update that gives the lock to nobody leaves its type as it is, or frees
/// it when no holder is left.
pub proof fn law_kept_lock_keeps_its_type(
    curr: InfoView,
    req: RequestView,
    txs: Seq<PathStateView>,
)
    requires
        consistent(curr.typ, curr.locked_by),
        locker::lock_ops(curr, req, txs) is Ok,
        locker::lock_ops(curr, req, txs)->Ok_0.has_update,
        locker::lock_ops(curr, req, txs)->Ok_0.locked_for.len() == 0,
    ensures
        ({
            let update = locker::lock_ops(curr, req, txs)->Ok_0.update;
            update.typ == if update.lockers.len() == 0 {
                LockType::NoLock
            } else {
                curr.typ
            }
        }),
{
    let unlock = locker::unlock_ops(curr, req.unlockers, txs)->Ok_0;
    if curr.typ != LockType::NoLock {
        lemma_after_release(curr, req, txs);
    }
}

/// Law: an aborted write leaves the object as it was. When the holder of a write
/// lock has aborted, and nobody asks for the lock, only the tags of the object
/// change, and the lock is free; an object that was only being created is deleted.
pub proof fn law_aborted_write_leaves_the_object(
    curr: InfoView,
    req: RequestView,
    txs: Seq<PathStateView>,
    i: int,
)
    requires
        curr.typ == LockType::Write || curr.typ == LockType::Create,
        curr.locked_by.len() == 1,
        counts_for(txs, i, curr.locked_by[0]),
        txs[i].status == TxCommitStatus::Aborted,
        req.lockers.len() == 0,
    ensures
        locker::lock_ops(curr, req, txs) matches Ok(ops) && ops.has_update && ops.update.typ
            == LockType::NoLock && ops.update.lockers.len() == 0 && match locker::action_for(
            ops.update,
            false,
        ) {
            Ok(ActionView::Delete) => curr.typ == LockType::Create,
            Ok(ActionView::SetTags { .. }) => curr.typ == LockType::Write,
            _ => false,
        },
{
    let tx = curr.locked_by[0];
    law_first_state_counts(txs, tx);
    law_requests_that_are_refused(curr, req, txs);
    assert forall|k: int| 0 <= k < curr.locked_by.len() implies locker::state_of(
        txs,
        #[trigger] curr.locked_by[k],
    ) is Some by {}
    law_committed_value_is_recorded(curr, req, txs, i);
    lemma_after_release(curr, req, txs);
    lemma_stays(txs, req.unlockers, tx);
    let unlock = locker::unlock_ops(curr, req.unlockers, txs)->Ok_0;
    let after = locker::info_after(curr, unlock);
    assert(curr.locked_by.contains(tx));
    assert(unlock.unlocked_for.contains(tx));
    if after.locked_by.len() > 0 {
        assert(after.locked_by.contains(after.locked_by[0]));
        let k = curr.locked_by.index_of(after.locked_by[0]);
    }
}

} // verus!
