//! Lock transitions on storage objects, and the tags that persist locks.

pub mod laws;

use vstd::prelude::*;
use vstd::string::*;

use base64::Engine;

use crate::bytes;
use crate::error::StorageError;
use crate::ids::{self, TxId};
use crate::lock::LockType;
use crate::text;

verus! {

/// Where a transaction stands.
#[derive(Clone, Copy, Debug, PartialEq, Eq, Structural)]
pub enum TxCommitStatus {
    /// Nothing is known of the transaction.
    Unknown,
    /// The transaction is running.
    Pending,
    /// The transaction has committed.
    Committed,
    /// The transaction has aborted.
    Aborted,
}

/// The transaction has committed or aborted.
pub open spec fn final_status(status: TxCommitStatus) -> bool {
    status == TxCommitStatus::Committed || status == TxCommitStatus::Aborted
}

impl TxCommitStatus {
    /// Reports whether the transaction has committed or aborted.
    pub fn is_final(self) -> (r: bool)
        ensures
            r == final_status(self),
    {
        self == TxCommitStatus::Committed || self == TxCommitStatus::Aborted
    }
}

/// A value written by a transaction.
pub struct ValueView {
    /// The bytes.
    pub value: Seq<u8>,
    /// The write was a deletion.
    pub deleted: bool,
    /// The transaction committed but did not write this value.
    pub not_written: bool,
}

impl ValueView {
    /// No bytes, neither deleted nor unwritten.
    pub open spec fn none() -> ValueView {
        ValueView { value: Seq::empty(), deleted: false, not_written: false }
    }
}

/// A value written by a transaction, including whether it was a deletion or was
/// not written at all.
#[derive(Debug, PartialEq, Eq)]
pub struct TValue {
    /// The bytes.
    pub value: Vec<u8>,
    /// The write was a deletion.
    pub deleted: bool,
    /// True when the transaction committed but did not write this value, for
    /// example under a read-only lock.
    pub not_written: bool,
}

impl View for TValue {
    type V = ValueView;

    open spec fn view(&self) -> ValueView {
        ValueView { value: self.value@, deleted: self.deleted, not_written: self.not_written }
    }
}

impl Clone for TValue {
    fn clone(&self) -> (r: Self)
        ensures
            r@ == self@,
    {
        TValue {
            value: bytes::copy(self.value.as_slice()),
            deleted: self.deleted,
            not_written: self.not_written,
        }
    }
}

impl Default for TValue {
    fn default() -> (r: Self)
        ensures
            r@ == ValueView::none(),
    {
        TValue { value: Vec::new(), deleted: false, not_written: false }
    }
}

/// The desired state of a lock after an update.
pub struct UpdateView {
    /// The new type.
    pub typ: LockType,
    /// The type before.
    pub prev_type: LockType,
    /// The new holders.
    pub lockers: Seq<Seq<u8>>,
    /// The transaction whose value is recorded, empty for none.
    pub writer: Seq<u8>,
    /// The recorded value.
    pub value: ValueView,
}

impl UpdateView {
    /// Nothing desired.
    pub open spec fn none() -> UpdateView {
        UpdateView {
            typ: LockType::Unknown,
            prev_type: LockType::Unknown,
            lockers: Seq::empty(),
            writer: Seq::empty(),
            value: ValueView::none(),
        }
    }
}

/// The desired state of a lock after an update.
#[derive(Debug, PartialEq, Eq)]
pub struct LockUpdate {
    /// The new type.
    pub typ: LockType,
    /// The type before.
    pub prev_type: LockType,
    /// The new holders.
    pub lockers: Vec<TxId>,
    /// The transaction whose value is recorded, empty for none.
    pub writer: TxId,
    /// The recorded value.
    pub value: TValue,
}

impl View for LockUpdate {
    type V = UpdateView;

    open spec fn view(&self) -> UpdateView {
        UpdateView {
            typ: self.typ,
            prev_type: self.prev_type,
            lockers: ids::tx_views(self.lockers@),
            writer: self.writer@,
            value: self.value@,
        }
    }
}

impl Default for LockUpdate {
    fn default() -> (r: Self)
        ensures
            r@ == UpdateView::none(),
    {
        let r = LockUpdate {
            typ: LockType::Unknown,
            prev_type: LockType::Unknown,
            lockers: Vec::new(),
            writer: TxId::from_bytes(Vec::new()),
            value: TValue::default(),
        };
        proof {
            assert(r@.lockers =~= Seq::<Seq<u8>>::empty());
        }
        r
    }
}

/// The transactions that want to acquire or release a lock.
pub struct RequestView {
    /// The wanted type.
    pub typ: LockType,
    /// The transactions that want the lock.
    pub lockers: Seq<Seq<u8>>,
    /// The transactions that release it.
    pub unlockers: Seq<Seq<u8>>,
}

/// The transactions that want to acquire or release a lock.
#[derive(Debug)]
pub struct LockRequest {
    /// The wanted type.
    pub typ: LockType,
    /// The transactions that want the lock.
    pub lockers: Vec<TxId>,
    /// The transactions that release it.
    pub unlockers: Vec<TxId>,
}

impl View for LockRequest {
    type V = RequestView;

    open spec fn view(&self) -> RequestView {
        RequestView {
            typ: self.typ,
            lockers: ids::tx_views(self.lockers@),
            unlockers: ids::tx_views(self.unlockers@),
        }
    }
}

/// A transaction's commit status and the value it wrote for a path.
pub struct PathStateView {
    /// The transaction.
    pub tx: Seq<u8>,
    /// Where it stands.
    pub status: TxCommitStatus,
    /// The value it wrote.
    pub value: ValueView,
}

/// A transaction's commit status and the value it wrote for a path.
#[derive(Debug)]
pub struct TxPathState {
    /// The transaction.
    pub tx: TxId,
    /// Where it stands.
    pub status: TxCommitStatus,
    /// The value it wrote.
    pub value: TValue,
}

impl View for TxPathState {
    type V = PathStateView;

    open spec fn view(&self) -> PathStateView {
        PathStateView { tx: self.tx@, status: self.status, value: self.value@ }
    }
}

/// What several transactions' states are.
pub open spec fn state_views(txs: Seq<TxPathState>) -> Seq<PathStateView> {
    txs.map_values(|s: TxPathState| s@)
}

/// The next update for a lock and the operation's effects.
pub struct OpsView {
    /// The update.
    pub update: UpdateView,
    /// There is an update to apply.
    pub has_update: bool,
    /// Older holders the requester must wait for.
    pub wait_for: Seq<Seq<u8>>,
    /// Younger holders the requester may abort.
    pub wound: Seq<Seq<u8>>,
    /// Transactions that hold the lock after the update.
    pub locked_for: Seq<Seq<u8>>,
    /// Transactions that have released the lock after the update.
    pub unlocked_for: Seq<Seq<u8>>,
}

impl OpsView {
    /// Nothing to do.
    pub open spec fn none() -> OpsView {
        OpsView {
            update: UpdateView::none(),
            has_update: false,
            wait_for: Seq::empty(),
            wound: Seq::empty(),
            locked_for: Seq::empty(),
            unlocked_for: Seq::empty(),
        }
    }
}

/// The next possible update for a lock, plus the transactions to wait for and
/// the operation's effects.
#[derive(Debug)]
pub struct LockOps {
    /// The update.
    pub update: LockUpdate,
    /// There is an update to apply.
    pub has_update: bool,
    /// Higher-priority (older) holders the requester must wait for under the
    /// wound-wait rule.
    pub wait_for: Vec<TxId>,
    /// Lower-priority (younger) holders the requester is allowed to abort, so
    /// it can take the lock without waiting.
    pub wound: Vec<TxId>,
    /// Transactions that hold the lock after the update.
    pub locked_for: Vec<TxId>,
    /// Transactions that have released the lock after the update.
    pub unlocked_for: Vec<TxId>,
}

impl View for LockOps {
    type V = OpsView;

    open spec fn view(&self) -> OpsView {
        OpsView {
            update: self.update@,
            has_update: self.has_update,
            wait_for: ids::tx_views(self.wait_for@),
            wound: ids::tx_views(self.wound@),
            locked_for: ids::tx_views(self.locked_for@),
            unlocked_for: ids::tx_views(self.unlocked_for@),
        }
    }
}

/// An empty list of transactions.
fn no_ids() -> (r: Vec<TxId>)
    ensures
        ids::tx_views(r@) == Seq::<Seq<u8>>::empty(),
{
    let r: Vec<TxId> = Vec::new();
    proof {
        assert(ids::tx_views(r@) =~= Seq::<Seq<u8>>::empty());
    }
    r
}

impl Default for LockOps {
    fn default() -> (r: Self)
        ensures
            r@ == OpsView::none(),
    {
        LockOps {
            update: LockUpdate::default(),
            has_update: false,
            wait_for: no_ids(),
            wound: no_ids(),
            locked_for: no_ids(),
            unlocked_for: no_ids(),
        }
    }
}

/// The current lock state of a storage object.
pub struct InfoView {
    /// The type.
    pub typ: LockType,
    /// The holders.
    pub locked_by: Seq<Seq<u8>>,
    /// The transaction that wrote the object last, empty for none.
    pub last_writer: Seq<u8>,
}

/// The current lock state of a storage object.
#[derive(Debug)]
pub struct LockInfo {
    /// The type.
    pub typ: LockType,
    /// The holders.
    pub locked_by: Vec<TxId>,
    /// The transaction that wrote the object last, empty for none.
    pub last_writer: TxId,
}

impl View for LockInfo {
    type V = InfoView;

    open spec fn view(&self) -> InfoView {
        InfoView {
            typ: self.typ,
            locked_by: ids::tx_views(self.locked_by@),
            last_writer: self.last_writer@,
        }
    }
}

impl Default for LockInfo {
    fn default() -> (r: Self)
        ensures
            r@ == (InfoView {
                typ: LockType::Unknown,
                locked_by: Seq::empty(),
                last_writer: Seq::empty(),
            }),
    {
        LockInfo {
            typ: LockType::Unknown,
            locked_by: no_ids(),
            last_writer: TxId::from_bytes(Vec::new()),
        }
    }
}

/// What is inconsistent in a lock state, if anything.
pub open spec fn info_fault(info: InfoView) -> Option<Seq<char>> {
    if info.locked_by.len() == 0 {
        if info.typ != LockType::NoLock {
            Some("got zero lockers, but lock type is not none"@)
        } else {
            None
        }
    } else if info.locked_by.len() > 1 && writer_type(info.typ) {
        Some("got "@ + text::decimal(info.locked_by.len()) + " lockers with writer lock"@)
    } else {
        None
    }
}

impl LockInfo {
    /// Checks that the lock state is internally consistent.
    pub fn valid(&self) -> (r: Result<(), StorageError>)
        ensures
            match info_fault(self@) {
                Some(words) => r matches Err(error) && error.says(words),
                None => r is Ok,
            },
    {
        if self.locked_by.len() == 0 {
            if self.typ != LockType::NoLock {
                return Err(StorageError::other("got zero lockers, but lock type is not none"));
            }
            return Ok(());
        }
        if self.locked_by.len() > 1 && is_writer_type(self.typ) {
            let mut words = String::from_str("got ");
            text::append_decimal(&mut words, self.locked_by.len() as u64);
            words.append(" lockers with writer lock");
            return Err(StorageError::other(words.as_str()));
        }
        Ok(())
    }
}

/// The lock admits one holder only.
pub open spec fn writer_type(typ: LockType) -> bool {
    typ == LockType::Create || typ == LockType::Write
}

/// Reports whether the lock admits one holder only.
fn is_writer_type(typ: LockType) -> (r: bool)
    ensures
        r == writer_type(typ),
{
    typ == LockType::Create || typ == LockType::Write
}

/// Transactions that are not among others.
pub open spec fn not_among(others: Seq<Seq<u8>>) -> spec_fn(Seq<u8>) -> bool {
    |id: Seq<u8>| !others.contains(id)
}

/// Transactions that are among others.
pub open spec fn among(others: Seq<Seq<u8>>) -> spec_fn(Seq<u8>) -> bool {
    |id: Seq<u8>| others.contains(id)
}

/// Some requester has priority over the holder.
pub open spec fn outranked(holder: Seq<u8>, requesters: Seq<Seq<u8>>) -> bool {
    exists|i: int|
        0 <= i < requesters.len() && ids::has_priority(#[trigger] requesters[i], holder)
}

/// Holders that the requesters may abort: those that some requester has
/// priority over and that are no requesters themselves.
pub open spec fn wounded(requesters: Seq<Seq<u8>>) -> spec_fn(Seq<u8>) -> bool {
    |holder: Seq<u8>| !requesters.contains(holder) && outranked(holder, requesters)
}

/// Holders that the requesters must wait for.
pub open spec fn awaited(requesters: Seq<Seq<u8>>) -> spec_fn(Seq<u8>) -> bool {
    |holder: Seq<u8>| requesters.contains(holder) || !outranked(holder, requesters)
}

/// Reports whether a transaction is in a list.
fn contains(list: &Vec<TxId>, id: &TxId) -> (r: bool)
    ensures
        r == ids::tx_views(list@).contains(id@),
{
    let ghost views = ids::tx_views(list@);
    let mut i: usize = 0;
    while i < list.len()
        invariant
            i <= list@.len(),
            views == ids::tx_views(list@),
            forall|k: int| 0 <= k < i ==> views[k] != id@,
        decreases list@.len() - i,
    {
        if list[i].same(id) {
            proof {
                assert(views[i as int] == id@);
            }
            return true;
        }
        i = i + 1;
    }
    false
}

/// Reports whether any of the requesters has priority over the holder.
fn any_older(requesters: &Vec<TxId>, holder: &TxId) -> (r: bool)
    ensures
        r == outranked(holder@, ids::tx_views(requesters@)),
{
    let ghost views = ids::tx_views(requesters@);
    let mut i: usize = 0;
    while i < requesters.len()
        invariant
            i <= requesters@.len(),
            views == ids::tx_views(requesters@),
            forall|k: int| 0 <= k < i ==> !ids::has_priority(#[trigger] views[k], holder@),
        decreases requesters@.len() - i,
    {
        if requesters[i].older(holder) {
            proof {
                assert(views[i as int] == requesters@[i as int]@);
            }
            return true;
        }
        i = i + 1;
    }
    false
}

/// Adding one more to the views.
proof fn lemma_pushed(list: Seq<TxId>, id: TxId)
    ensures
        ids::tx_views(list.push(id)) == ids::tx_views(list).push(id@),
{
    assert(ids::tx_views(list.push(id)) =~= ids::tx_views(list).push(id@));
}

/// Filtering one element more.
proof fn lemma_filter_step<A>(s: Seq<A>, keep: spec_fn(A) -> bool, i: int)
    requires
        0 <= i < s.len(),
    ensures
        s.take(i + 1).filter(keep) == if keep(s[i]) {
            s.take(i).filter(keep).push(s[i])
        } else {
            s.take(i).filter(keep)
        },
{
    reveal(Seq::filter);
    assert(s.take(i + 1).drop_last() =~= s.take(i));
    assert(s.take(i + 1).last() == s[i]);
}

/// Filtering nothing.
proof fn lemma_filter_none<A>(s: Seq<A>, keep: spec_fn(A) -> bool)
    ensures
        s.take(0).filter(keep) == Seq::<A>::empty(),
{
    reveal(Seq::filter);
    assert(s.take(0).filter(keep) =~= Seq::<A>::empty());
}

/// Splits the holders of a lock into those the requesters must wait for and
/// those they may wound, following the wound-wait rule. A holder is wounded
/// when at least one requester is older; otherwise the requesters must wait
/// for it. A holder that is also one of the requesters is never wounded.
fn partition_wound_wait(holders: &Vec<TxId>, requesters: &Vec<TxId>) -> (r: LockOps)
    ensures
        r@ == (OpsView {
            wait_for: ids::tx_views(holders@).filter(awaited(ids::tx_views(requesters@))),
            wound: ids::tx_views(holders@).filter(wounded(ids::tx_views(requesters@))),
            ..OpsView::none()
        }),
{
    let ghost all = ids::tx_views(holders@);
    let ghost asking = ids::tx_views(requesters@);
    let mut ops = LockOps::default();
    let mut i: usize = 0;
    proof {
        lemma_filter_none(all, awaited(asking));
        lemma_filter_none(all, wounded(asking));
    }
    while i < holders.len()
        invariant
            i <= holders@.len(),
            all == ids::tx_views(holders@),
            asking == ids::tx_views(requesters@),
            ops@ == (OpsView {
                wait_for: all.take(i as int).filter(awaited(asking)),
                wound: all.take(i as int).filter(wounded(asking)),
                ..OpsView::none()
            }),
        decreases holders@.len() - i,
    {
        let holder = &holders[i];
        proof {
            lemma_filter_step(all, awaited(asking), i as int);
            lemma_filter_step(all, wounded(asking), i as int);
            assert(all[i as int] == holder@);
        }
        if !contains(requesters, holder) && any_older(requesters, holder) {
            let copy = holder.clone();
            proof {
                lemma_pushed(ops.wound@, copy);
            }
            ops.wound.push(copy);
        } else {
            let copy = holder.clone();
            proof {
                lemma_pushed(ops.wait_for@, copy);
            }
            ops.wait_for.push(copy);
        }
        i = i + 1;
    }
    proof {
        assert(all.take(i as int) =~= all);
    }
    ops
}

/// Returns the transactions of one list that are not in another.
fn tids_diff(a: &Vec<TxId>, b: &Vec<TxId>) -> (r: Vec<TxId>)
    ensures
        ids::tx_views(r@) == ids::tx_views(a@).filter(not_among(ids::tx_views(b@))),
{
    let ghost all = ids::tx_views(a@);
    let ghost others = ids::tx_views(b@);
    let mut out = no_ids();
    let mut i: usize = 0;
    proof {
        lemma_filter_none(all, not_among(others));
    }
    while i < a.len()
        invariant
            i <= a@.len(),
            all == ids::tx_views(a@),
            others == ids::tx_views(b@),
            ids::tx_views(out@) == all.take(i as int).filter(not_among(others)),
        decreases a@.len() - i,
    {
        proof {
            lemma_filter_step(all, not_among(others), i as int);
            assert(all[i as int] == a@[i as int]@);
        }
        if !contains(b, &a[i]) {
            let copy = a[i].clone();
            proof {
                lemma_pushed(out@, copy);
            }
            out.push(copy);
        }
        i = i + 1;
    }
    proof {
        assert(all.take(i as int) =~= all);
    }
    out
}

/// Returns the transactions of one list that are also in another.
fn tids_intersect(a: &Vec<TxId>, b: &Vec<TxId>) -> (r: Vec<TxId>)
    ensures
        ids::tx_views(r@) == ids::tx_views(a@).filter(among(ids::tx_views(b@))),
{
    let ghost all = ids::tx_views(a@);
    let ghost others = ids::tx_views(b@);
    let mut out = no_ids();
    let mut i: usize = 0;
    proof {
        lemma_filter_none(all, among(others));
    }
    while i < a.len()
        invariant
            i <= a@.len(),
            all == ids::tx_views(a@),
            others == ids::tx_views(b@),
            ids::tx_views(out@) == all.take(i as int).filter(among(others)),
        decreases a@.len() - i,
    {
        proof {
            lemma_filter_step(all, among(others), i as int);
            assert(all[i as int] == a@[i as int]@);
        }
        if contains(b, &a[i]) {
            let copy = a[i].clone();
            proof {
                lemma_pushed(out@, copy);
            }
            out.push(copy);
        }
        i = i + 1;
    }
    proof {
        assert(all.take(i as int) =~= all);
    }
    out
}

/// The first state given for a transaction.
pub open spec fn state_of(txs: Seq<PathStateView>, tx: Seq<u8>) -> Option<PathStateView>
    decreases txs.len(),
{
    if txs.len() == 0 {
        None
    } else if txs[0].tx == tx {
        Some(txs[0])
    } else {
        state_of(txs.skip(1), tx)
    }
}

/// Finds the first state given for a transaction.
fn find_tx_path_state<'a>(txs: &'a Vec<TxPathState>, tid: &TxId) -> (r: Option<&'a TxPathState>)
    ensures
        match state_of(state_views(txs@), tid@) {
            Some(state) => r matches Some(found) && found@ == state,
            None => r is None,
        },
{
    let ghost all = state_views(txs@);
    let mut i: usize = 0;
    proof {
        assert(all.skip(0) =~= all);
    }
    while i < txs.len()
        invariant
            i <= txs@.len(),
            all == state_views(txs@),
            state_of(all, tid@) == state_of(all.skip(i as int), tid@),
        decreases txs@.len() - i,
    {
        proof {
            assert(all.skip(i as int)[0] == txs@[i as int]@);
            assert(all.skip(i as int).skip(1) =~= all.skip(i + 1));
        }
        if txs[i].tx.same(tid) {
            return Some(&txs[i]);
        }
        i = i + 1;
    }
    None
}

/// What releasing a lock leads to.
pub struct ReleaseView {
    /// The holders that stay.
    pub lockers: Seq<Seq<u8>>,
    /// The transactions that have released the lock.
    pub unlocked: Seq<Seq<u8>>,
    /// The transaction whose value is recorded, empty for none.
    pub writer: Seq<u8>,
    /// The recorded value.
    pub value: ValueView,
}

/// Releases the first `n` holders that are final or asked to be released, or
/// names the holder whose state is missing. A committed writer's value is
/// recorded.
pub open spec fn released(
    curr: InfoView,
    unlockers: Seq<Seq<u8>>,
    txs: Seq<PathStateView>,
    n: int,
) -> Result<ReleaseView, Seq<u8>>
    decreases n,
{
    if n <= 0 {
        Ok(
            ReleaseView {
                lockers: Seq::empty(),
                unlocked: unlockers.filter(not_among(curr.locked_by)),
                writer: Seq::empty(),
                value: ValueView::none(),
            },
        )
    } else {
        let tx = curr.locked_by[n - 1];
        match released(curr, unlockers, txs, n - 1) {
            Err(missing) => Err(missing),
            Ok(before) => match state_of(txs, tx) {
                None => Err(tx),
                Some(state) => if !final_status(state.status) && !unlockers.contains(tx) {
                    Ok(ReleaseView { lockers: before.lockers.push(tx), ..before })
                } else if writer_type(curr.typ) && state.status == TxCommitStatus::Committed {
                    Ok(
                        ReleaseView {
                            unlocked: before.unlocked.push(tx),
                            writer: tx,
                            value: state.value,
                            ..before
                        },
                    )
                } else {
                    Ok(ReleaseView { unlocked: before.unlocked.push(tx), ..before })
                },
            },
        }
    }
}

/// The operations that release a lock, or the holder whose state is missing.
pub open spec fn unlock_ops(
    curr: InfoView,
    unlockers: Seq<Seq<u8>>,
    txs: Seq<PathStateView>,
) -> Result<OpsView, Seq<u8>> {
    if curr.typ == LockType::NoLock {
        Ok(OpsView { unlocked_for: unlockers, ..OpsView::none() })
    } else {
        match released(curr, unlockers, txs, curr.locked_by.len() as int) {
            Err(missing) => Err(missing),
            Ok(release) => Ok(
                OpsView {
                    update: UpdateView {
                        typ: if release.lockers.len() == 0 {
                            LockType::NoLock
                        } else {
                            curr.typ
                        },
                        prev_type: curr.typ,
                        lockers: release.lockers,
                        writer: release.writer,
                        value: release.value,
                    },
                    has_update: release.unlocked.len() > 0,
                    unlocked_for: release.unlocked,
                    ..OpsView::none()
                },
            ),
        }
    }
}

/// The operations that give a lock to its requesters.
pub open spec fn granted(typ: LockType, prev_type: LockType, held: Seq<Seq<u8>>, lockers: Seq<
    Seq<u8>,
>) -> OpsView {
    OpsView {
        update: UpdateView { typ, prev_type, lockers: held + lockers, ..UpdateView::none() },
        has_update: true,
        locked_for: lockers,
        ..OpsView::none()
    }
}

/// The name of a lock type.
pub open spec fn lock_word(typ: LockType) -> Seq<char> {
    match typ {
        LockType::Unknown => "Unknown"@,
        LockType::NoLock => "None"@,
        LockType::Read => "Read"@,
        LockType::Write => "Write"@,
        LockType::Create => "Create"@,
    }
}

/// Returns the name of a lock type.
pub fn lock_type_name(typ: LockType) -> (r: &'static str)
    ensures
        r@ == lock_word(typ),
{
    match typ {
        LockType::Unknown => "Unknown",
        LockType::NoLock => "None",
        LockType::Read => "Read",
        LockType::Write => "Write",
        LockType::Create => "Create",
    }
}

/// The operations that acquire a lock, or why it cannot be acquired that way.
pub open spec fn acquire_ops(
    curr: InfoView,
    typ: LockType,
    lockers: Seq<Seq<u8>>,
) -> Result<OpsView, Seq<char>> {
    let held = curr.locked_by.filter(among(lockers));
    if typ == LockType::Unknown || typ == LockType::NoLock {
        Err("cannot lock with type "@ + lock_word(typ))
    } else if writer_type(typ) && lockers.len() != 1 {
        Err("cannot lock in write with "@ + text::decimal(lockers.len()) + " lockers"@)
    } else if curr.typ == typ && held.len() > 0 {
        Ok(OpsView { locked_for: held, ..OpsView::none() })
    } else if typ == LockType::Create {
        Ok(granted(LockType::Create, LockType::Unknown, Seq::empty(), lockers))
    } else if typ == LockType::Write && curr.typ == LockType::Read && curr.locked_by == lockers {
        Ok(granted(LockType::Write, LockType::Unknown, Seq::empty(), lockers))
    } else if writer_type(curr.typ) || (curr.typ == LockType::Read && writer_type(typ)) {
        Ok(
            OpsView {
                wait_for: curr.locked_by.filter(awaited(lockers)),
                wound: curr.locked_by.filter(wounded(lockers)),
                ..OpsView::none()
            },
        )
    } else {
        Ok(granted(typ, curr.typ, curr.locked_by, lockers))
    }
}

/// Effects without an update are carried by one that keeps the lock as it is.
pub open spec fn settled(curr: InfoView, ops: OpsView) -> OpsView {
    if (ops.locked_for.len() == 0 && ops.unlocked_for.len() == 0) || ops.has_update {
        ops
    } else {
        OpsView {
            has_update: true,
            update: UpdateView {
                typ: curr.typ,
                lockers: curr.locked_by,
                ..UpdateView::none()
            },
            ..ops
        }
    }
}

/// The lock state after an update.
pub open spec fn info_after(curr: InfoView, unlock: OpsView) -> InfoView {
    if unlock.has_update {
        InfoView {
            typ: unlock.update.typ,
            locked_by: unlock.update.lockers,
            last_writer: unlock.update.writer,
        }
    } else {
        curr
    }
}

/// The next lock operation, or why there is none.
pub open spec fn lock_ops(
    curr: InfoView,
    req: RequestView,
    txs: Seq<PathStateView>,
) -> Result<OpsView, Seq<char>> {
    match unlock_ops(curr, req.unlockers, txs) {
        Err(missing) => Err("missing state for tx "@ + text::hex(missing)),
        Ok(unlock) => if req.lockers.len() == 0 {
            Ok(settled(curr, unlock))
        } else if unlock.has_update && unlock.update.value.deleted {
            Ok(unlock)
        } else {
            let after = info_after(curr, unlock);
            match acquire_ops(after, req.typ, req.lockers) {
                Err(words) => Err(words),
                Ok(lock) => {
                    let ops = OpsView {
                        update: unlock.update,
                        has_update: unlock.has_update || lock.has_update,
                        wait_for: lock.wait_for,
                        wound: lock.wound,
                        locked_for: lock.locked_for,
                        unlocked_for: unlock.unlocked_for,
                    };
                    if lock.has_update {
                        Ok(
                            OpsView {
                                update: UpdateView {
                                    typ: lock.update.typ,
                                    lockers: lock.update.lockers,
                                    ..unlock.update
                                },
                                ..ops
                            },
                        )
                    } else {
                        Ok(settled(after, ops))
                    }
                },
            }
        },
    }
}

/// Releases the holders that are final or asked to be released.
fn compute_unlock_update(
    curr: &LockInfo,
    unlockers: &Vec<TxId>,
    txs: &Vec<TxPathState>,
) -> (r: Result<LockOps, StorageError>)
    ensures
        match unlock_ops(curr@, ids::tx_views(unlockers@), state_views(txs@)) {
            Ok(ops) => r matches Ok(found) && found@ == ops,
            Err(missing) => r matches Err(error) && error.says(
                "missing state for tx "@ + text::hex(missing),
            ),
        },
{
    if curr.typ == LockType::NoLock {
        let mut ops = LockOps::default();
        ops.unlocked_for = ids::copy_ids(unlockers);
        return Ok(ops);
    }
    let ghost asking = ids::tx_views(unlockers@);
    let ghost states = state_views(txs@);
    let mut update = LockUpdate::default();
    update.typ = curr.typ;
    update.prev_type = curr.typ;
    let mut unlocked_for = tids_diff(unlockers, &curr.locked_by);
    let mut i: usize = 0;
    while i < curr.locked_by.len()
        invariant
            i <= curr.locked_by@.len(),
            asking == ids::tx_views(unlockers@),
            states == state_views(txs@),
            curr.typ != LockType::NoLock,
            update.typ == curr.typ,
            update.prev_type == curr.typ,
            released(curr@, asking, states, i as int) == Ok::<ReleaseView, Seq<u8>>(
                ReleaseView {
                    lockers: ids::tx_views(update.lockers@),
                    unlocked: ids::tx_views(unlocked_for@),
                    writer: update.writer@,
                    value: update.value@,
                },
            ),
        decreases curr.locked_by@.len() - i,
    {
        let tx = &curr.locked_by[i];
        proof {
            assert(curr@.locked_by[i as int] == tx@);
        }
        match find_tx_path_state(txs, tx) {
            None => {
                proof {
                    lemma_missing(curr@, asking, states, i + 1);
                }
                let mut words = String::from_str("missing state for tx ");
                text::append_hex(&mut words, tx.as_bytes());
                return Err(StorageError::other(words.as_str()));
            },
            Some(state) => {
                let copy = tx.clone();
                if !state.status.is_final() && !contains(unlockers, tx) {
                    proof {
                        lemma_pushed(update.lockers@, copy);
                    }
                    update.lockers.push(copy);
                } else {
                    proof {
                        lemma_pushed(unlocked_for@, copy);
                    }
                    unlocked_for.push(copy);
                    if is_writer_type(curr.typ) && state.status == TxCommitStatus::Committed {
                        update.value = state.value.clone();
                        update.writer = tx.clone();
                    }
                }
            },
        }
        i = i + 1;
    }
    if update.lockers.len() == 0 {
        update.typ = LockType::NoLock;
    }
    let has_update: bool = unlocked_for.len() != 0;
    Ok(
        LockOps {
            update,
            has_update,
            wait_for: no_ids(),
            wound: no_ids(),
            locked_for: no_ids(),
            unlocked_for,
        },
    )
}

/// The first holder without a state is the missing one.
proof fn lemma_missing(
    curr: InfoView,
    unlockers: Seq<Seq<u8>>,
    txs: Seq<PathStateView>,
    n: int,
)
    requires
        0 <= n <= curr.locked_by.len(),
        released(curr, unlockers, txs, n) is Err,
    ensures
        released(curr, unlockers, txs, curr.locked_by.len() as int) == released(
            curr,
            unlockers,
            txs,
            n,
        ),
    decreases curr.locked_by.len() - n,
{
    if n < curr.locked_by.len() {
        lemma_missing(curr, unlockers, txs, n + 1);
    }
}

/// Gives a lock to its requesters.
fn grant(typ: LockType, prev_type: LockType, held: &Vec<TxId>, lockers: &Vec<TxId>) -> (r: LockOps)
    ensures
        r@ == granted(typ, prev_type, ids::tx_views(held@), ids::tx_views(lockers@)),
{
    let mut all = ids::copy_ids(held);
    let mut more = ids::copy_ids(lockers);
    let ghost before = all@;
    let ghost added = more@;
    all.append(&mut more);
    let mut ops = LockOps::default();
    ops.update.typ = typ;
    ops.update.prev_type = prev_type;
    ops.update.lockers = all;
    ops.has_update = true;
    ops.locked_for = ids::copy_ids(lockers);
    proof {
        assert(ids::tx_views(all@) =~= ids::tx_views(before) + ids::tx_views(added));
    }
    ops
}

/// Reports whether two lists name the same transactions in the same order.
fn same_ids(a: &Vec<TxId>, b: &Vec<TxId>) -> (r: bool)
    ensures
        r == (ids::tx_views(a@) == ids::tx_views(b@)),
{
    let ghost x = ids::tx_views(a@);
    let ghost y = ids::tx_views(b@);
    if a.len() != b.len() {
        proof {
            assert(x.len() != y.len());
        }
        return false;
    }
    let mut i: usize = 0;
    while i < a.len()
        invariant
            i <= a@.len(),
            a@.len() == b@.len(),
            x == ids::tx_views(a@),
            y == ids::tx_views(b@),
            forall|k: int| 0 <= k < i ==> x[k] == y[k],
        decreases a@.len() - i,
    {
        if !a[i].same(&b[i]) {
            proof {
                assert(x[i as int] != y[i as int]);
            }
            return false;
        }
        i = i + 1;
    }
    proof {
        assert(x =~= y);
    }
    true
}

/// Acquires a lock for its requesters.
fn compute_lock_update_inner(curr: &LockInfo, typ: LockType, lockers: &Vec<TxId>) -> (r: Result<
    LockOps,
    StorageError,
>)
    ensures
        match acquire_ops(curr@, typ, ids::tx_views(lockers@)) {
            Ok(ops) => r matches Ok(found) && found@ == ops,
            Err(words) => r matches Err(error) && error.says(words),
        },
{
    if typ == LockType::Unknown || typ == LockType::NoLock {
        let mut words = String::from_str("cannot lock with type ");
        words.append(lock_type_name(typ));
        return Err(StorageError::other(words.as_str()));
    }
    if is_writer_type(typ) && lockers.len() != 1 {
        let mut words = String::from_str("cannot lock in write with ");
        text::append_decimal(&mut words, lockers.len() as u64);
        words.append(" lockers");
        return Err(StorageError::other(words.as_str()));
    }
    if curr.typ == typ {
        let already_locked = tids_intersect(&curr.locked_by, lockers);
        if already_locked.len() != 0 {
            let mut ops = LockOps::default();
            ops.locked_for = already_locked;
            return Ok(ops);
        }
    }
    if typ == LockType::Create {
        return Ok(grant(LockType::Create, LockType::Unknown, &no_ids(), lockers));
    }
    if typ == LockType::Write && curr.typ == LockType::Read && same_ids(&curr.locked_by, lockers) {
        return Ok(grant(LockType::Write, LockType::Unknown, &no_ids(), lockers));
    }
    // Under the wound-wait rule, the requester waits for higher-priority
    // (older) holders and wounds lower-priority (younger) ones.
    if is_writer_type(curr.typ) || (curr.typ == LockType::Read && is_writer_type(typ)) {
        return Ok(partition_wound_wait(&curr.locked_by, lockers));
    }
    Ok(grant(typ, curr.typ, &curr.locked_by, lockers))
}

/// Carries effects without an update by one that keeps the lock as it is.
fn handle_no_ops(curr: &LockInfo, ops: LockOps) -> (r: LockOps)
    ensures
        r@ == settled(curr@, ops@),
{
    if ops.locked_for.len() == 0 && ops.unlocked_for.len() == 0 {
        return ops;
    }
    if ops.has_update {
        return ops;
    }
    let mut ops = ops;
    let mut update = LockUpdate::default();
    update.typ = curr.typ;
    update.lockers = ids::copy_ids(&curr.locked_by);
    ops.has_update = true;
    ops.update = update;
    ops
}

/// Determines the next lock operation given the current state, a request, and
/// the status of relevant transactions.
pub fn compute_lock_update(curr: LockInfo, req: &LockRequest, txs: &Vec<TxPathState>) -> (r: Result<
    LockOps,
    StorageError,
>)
    ensures
        match lock_ops(curr@, req@, state_views(txs@)) {
            Ok(ops) => r matches Ok(found) && found@ == ops,
            Err(words) => r matches Err(error) && error.says(words),
        },
{
    let unlock_ops = match compute_unlock_update(&curr, &req.unlockers, txs) {
        Err(error) => {
            return Err(error);
        },
        Ok(ops) => ops,
    };
    if req.lockers.len() == 0 {
        return Ok(handle_no_ops(&curr, unlock_ops));
    }
    if unlock_ops.has_update && unlock_ops.update.value.deleted {
        return Ok(unlock_ops);
    }
    let mut curr = curr;
    if unlock_ops.has_update {
        curr.typ = unlock_ops.update.typ;
        curr.last_writer = unlock_ops.update.writer.clone();
        curr.locked_by = ids::copy_ids(&unlock_ops.update.lockers);
    }
    let lock_ops = match compute_lock_update_inner(&curr, req.typ, &req.lockers) {
        Err(error) => {
            return Err(error);
        },
        Ok(ops) => ops,
    };
    let acquired: bool = lock_ops.has_update;
    let mut ops = LockOps {
        update: unlock_ops.update,
        has_update: unlock_ops.has_update || acquired,
        wait_for: lock_ops.wait_for,
        wound: lock_ops.wound,
        locked_for: lock_ops.locked_for,
        unlocked_for: unlock_ops.unlocked_for,
    };
    if !acquired {
        return Ok(handle_no_ops(&curr, ops));
    }
    ops.update.typ = lock_ops.update.typ;
    ops.update.lockers = lock_ops.update.lockers;
    Ok(ops)
}

/// Law: no holder is both awaited and wounded, every holder is one of the two,
/// and a requester is never wounded.
pub proof fn law_wound_or_wait(holder: Seq<u8>, requesters: Seq<Seq<u8>>)
    ensures
        wounded(requesters)(holder) <==> !awaited(requesters)(holder),
        requesters.contains(holder) ==> !wounded(requesters)(holder),
{
}

/// Law: requesters that conflict with the holders get no update of the lock
/// and hold nothing.
pub proof fn law_conflicts_do_not_acquire(curr: InfoView, typ: LockType, lockers: Seq<Seq<u8>>)
    requires
        acquire_ops(curr, typ, lockers) matches Ok(ops) && (ops.wait_for.len() > 0
            || ops.wound.len() > 0),
    ensures
        acquire_ops(curr, typ, lockers) matches Ok(ops) && !ops.has_update
            && ops.locked_for.len() == 0,
{
}

/// A tag of a storage object.
#[derive(Debug, Clone)]
struct Tag {
    name: String,
    value: String,
}

/// The tags that entries stand for: of entries with the same name the last one
/// counts.
spec fn tag_map(entries: Seq<Tag>) -> Map<Seq<char>, Seq<char>>
    decreases entries.len(),
{
    if entries.len() == 0 {
        Map::empty()
    } else {
        tag_map(entries.drop_last()).insert(entries.last().name@, entries.last().value@)
    }
}

/// The tags of a storage object.
#[derive(Debug, Clone)]
pub struct Tags {
    entries: Vec<Tag>,
}

impl View for Tags {
    type V = Map<Seq<char>, Seq<char>>;

    closed spec fn view(&self) -> Map<Seq<char>, Seq<char>> {
        tag_map(self.entries@)
    }
}

impl Tags {
    /// Creates no tags.
    pub fn new() -> (r: Self)
        ensures
            r@ == Map::<Seq<char>, Seq<char>>::empty(),
    {
        Tags { entries: Vec::new() }
    }

    /// Sets a tag.
    pub fn insert(&mut self, name: String, value: String)
        ensures
            final(self)@ == old(self)@.insert(name@, value@),
    {
        let ghost before = self.entries@;
        self.entries.push(Tag { name, value });
        proof {
            assert(self.entries@.drop_last() =~= before);
        }
    }

    /// Returns the value of a tag.
    pub fn get(&self, name: &str) -> (r: Option<&String>)
        ensures
            r is Some <==> self@.contains_key(name@),
            r matches Some(value) ==> value@ == self@[name@],
    {
        let wanted = String::from_str(name);
        let mut i: usize = self.entries.len();
        proof {
            assert(self.entries@.take(i as int) =~= self.entries@);
        }
        while i > 0
            invariant
                i <= self.entries@.len(),
                wanted@ == name@,
                tag_map(self.entries@.take(i as int)).contains_key(name@) <==> self@.contains_key(
                    name@,
                ),
                self@.contains_key(name@) ==> tag_map(self.entries@.take(i as int))[name@]
                    == self@[name@],
            decreases i,
        {
            i = i - 1;
            proof {
                let now = self.entries@.take(i + 1);
                assert(now.drop_last() =~= self.entries@.take(i as int));
                assert(now.last() == self.entries@[i as int]);
            }
            if self.entries[i].name == wanted {
                return Some(&self.entries[i].value);
            }
        }
        None
    }
}

/// The text that `base64`'s `URL_SAFE` engine writes for bytes.
pub uninterp spec fn base64_text(b: Seq<u8>) -> Seq<char>;

/// The bytes that `base64`'s `URL_SAFE` engine reads from a text, or the words
/// of its error.
pub uninterp spec fn base64_parsed(t: Seq<char>) -> Result<Seq<u8>, Seq<char>>;

/// Writes bytes with `base64::engine::general_purpose::URL_SAFE.encode`. The
/// text reads back as the bytes, it is empty only for no bytes, and its
/// alphabet has no comma.
#[verifier::external_body]
fn encode_base64(b: &[u8]) -> (r: String)
    ensures
        r@ == base64_text(b@),
        base64_parsed(r@) is Ok && base64_parsed(r@)->Ok_0 == b@,
        r@.len() == 0 <==> b@.len() == 0,
        !r@.contains(','),
{
    base64::engine::general_purpose::URL_SAFE.encode(b)
}

/// Reads bytes with `base64::engine::general_purpose::URL_SAFE.decode`.
#[verifier::external_body]
fn decode_base64(t: &str) -> (r: Result<Vec<u8>, String>)
    ensures
        match base64_parsed(t@) {
            Ok(b) => r matches Ok(found) && found@ == b,
            Err(words) => r matches Err(found) && found@ == words,
        },
{
    base64::engine::general_purpose::URL_SAFE.decode(t).map_err(|e| e.to_string())
}

/// Returns a transaction's tag value.
pub fn tid_to_tag(id: &TxId) -> (r: String)
    ensures
        r@ == base64_text(id@),
        base64_parsed(r@) == Ok::<Seq<u8>, Seq<char>>(id@),
        r@.len() == 0 <==> id@.len() == 0,
        !r@.contains(','),
{
    encode_base64(id.as_bytes())
}

/// The parts of a text between commas.
pub open spec fn comma_parts(s: Seq<char>) -> Seq<Seq<char>>
    decreases s.len(),
{
    if s.len() == 0 {
        seq![Seq::empty()]
    } else {
        let before = comma_parts(s.drop_last());
        if s.last() == ',' {
            before.push(Seq::empty())
        } else {
            before.drop_last().push(before.last().push(s.last()))
        }
    }
}

/// Texts with commas between them.
pub open spec fn comma_joined(list: Seq<Seq<char>>) -> Seq<char>
    decreases list.len(),
{
    if list.len() == 0 {
        Seq::empty()
    } else if list.len() == 1 {
        list[0]
    } else {
        comma_joined(list.drop_last()).push(',') + list.last()
    }
}

/// What several texts are.
pub open spec fn text_views(list: Seq<String>) -> Seq<Seq<char>> {
    list.map_values(|s: String| s@)
}

/// Splits a text at its commas.
fn split_commas(s: &str) -> (r: Vec<String>)
    ensures
        text_views(r@) == comma_parts(s@),
{
    let n: usize = s.unicode_len();
    let mut out: Vec<String> = Vec::new();
    let mut start: usize = 0;
    let mut i: usize = 0;
    proof {
        assert(s@.take(0) =~= Seq::<char>::empty());
        assert(text_views(out@).push(s@.subrange(0, 0)) =~= comma_parts(s@.take(0)));
    }
    while i < n
        invariant
            start <= i <= n == s@.len(),
            text_views(out@).push(s@.subrange(start as int, i as int)) == comma_parts(
                s@.take(i as int),
            ),
        decreases n - i,
    {
        let c = s.get_char(i);
        let ghost before = comma_parts(s@.take(i as int));
        let ghost was = text_views(out@);
        proof {
            assert(s@.take(i + 1).drop_last() =~= s@.take(i as int));
            assert(s@.take(i + 1).last() == c);
        }
        if c == ',' {
            let part = s.substring_char(start, i).to_owned();
            out.push(part);
            start = i + 1;
            proof {
                assert(text_views(out@) =~= before);
                assert(s@.subrange(i + 1, i + 1) =~= Seq::<char>::empty());
            }
        } else {
            proof {
                assert(before.drop_last() =~= was);
                assert(before.last() == s@.subrange(start as int, i as int));
                assert(s@.subrange(start as int, i + 1) =~= s@.subrange(
                    start as int,
                    i as int,
                ).push(c));
            }
        }
        i = i + 1;
    }
    let last = s.substring_char(start, n).to_owned();
    let ghost was = text_views(out@);
    out.push(last);
    proof {
        assert(s@.take(n as int) =~= s@);
        assert(text_views(out@) =~= was.push(s@.subrange(start as int, n as int)));
    }
    out
}

/// Law: texts without commas come back from being joined by commas.
pub proof fn law_commas_round_trip(list: Seq<Seq<char>>)
    requires
        list.len() > 0,
        forall|i: int| 0 <= i < list.len() ==> !(#[trigger] list[i]).contains(','),
    ensures
        comma_parts(comma_joined(list)) == list,
    decreases list.len(),
{
    let last = list.last();
    assert(!list[list.len() - 1].contains(','));
    if list.len() == 1 {
        lemma_parts_append(Seq::empty(), last);
        assert(Seq::<char>::empty() + last =~= last);
        assert(comma_parts(Seq::<char>::empty()) =~= seq![Seq::<char>::empty()]);
        assert(comma_parts(last) =~= list);
    } else {
        let rest = list.drop_last();
        assert forall|i: int| 0 <= i < rest.len() implies !(#[trigger] rest[i]).contains(',') by {
            assert(!list[i].contains(','));
        }
        law_commas_round_trip(rest);
        let head = comma_joined(rest).push(',');
        assert(head.drop_last() =~= comma_joined(rest));
        lemma_parts_append(head, last);
        assert(comma_parts(head) == rest.push(Seq::<char>::empty()));
        assert(rest.push(Seq::<char>::empty()).drop_last() =~= rest);
        assert(Seq::<char>::empty() + last =~= last);
        assert(rest.push(last) =~= list);
    }
}

/// A text without commas extends the last part.
proof fn lemma_parts_append(head: Seq<char>, tail: Seq<char>)
    requires
        !tail.contains(','),
    ensures
        comma_parts(head).len() > 0,
        comma_parts(head + tail) == comma_parts(head).drop_last().push(
            comma_parts(head).last() + tail,
        ),
    decreases tail.len(),
{
    lemma_parts_nonempty(head);
    let before = comma_parts(head);
    if tail.len() == 0 {
        assert(head + tail =~= head);
        assert(before.last() + tail =~= before.last());
        assert(before.drop_last().push(before.last()) =~= before);
    } else {
        let rest = tail.drop_last();
        assert(tail[tail.len() - 1] == tail.last());
        assert(!rest.contains(',')) by {
            if rest.contains(',') {
                let i = rest.index_of(',');
                assert(tail[i] == ',');
            }
        }
        lemma_parts_append(head, rest);
        assert((head + tail).drop_last() =~= head + rest);
        assert((head + tail).last() == tail.last());
        let mid = comma_parts(head + rest);
        assert(mid.drop_last() =~= before.drop_last());
        assert(mid.last() == before.last() + rest);
        assert((before.last() + rest).push(tail.last()) =~= before.last() + tail);
    }
}

proof fn lemma_parts_nonempty(s: Seq<char>)
    ensures
        comma_parts(s).len() > 0,
    decreases s.len(),
{
    if s.len() > 0 {
        lemma_parts_nonempty(s.drop_last());
    }
}

/// The transactions that tag values name, or the words of the first error.
pub open spec fn holders_of(parts: Seq<Seq<char>>) -> Result<Seq<Seq<u8>>, Seq<char>>
    decreases parts.len(),
{
    if parts.len() == 0 {
        Ok(Seq::empty())
    } else {
        match holders_of(parts.drop_last()) {
            Err(words) => Err(words),
            Ok(before) => match base64_parsed(parts.last()) {
                Ok(id) => Ok(before.push(id)),
                Err(words) => Err(words),
            },
        }
    }
}

/// The tag value of a lock type.
pub open spec fn type_tag(typ: LockType) -> Option<Seq<char>> {
    match typ {
        LockType::NoLock => Some("-"@),
        LockType::Read => Some("r"@),
        LockType::Write => Some("w"@),
        LockType::Create => Some("c"@),
        LockType::Unknown => None,
    }
}

/// The lock type of a tag value.
pub open spec fn tag_type(value: Seq<char>) -> Option<LockType> {
    if value == "r"@ {
        Some(LockType::Read)
    } else if value == "w"@ {
        Some(LockType::Write)
    } else if value == "c"@ {
        Some(LockType::Create)
    } else if value == "-"@ || value == ""@ {
        Some(LockType::NoLock)
    } else {
        None
    }
}

/// Returns the tag value of a lock type.
pub fn lock_type_to_tag(typ: LockType) -> (r: Result<String, StorageError>)
    ensures
        match type_tag(typ) {
            Some(value) => r matches Ok(found) && found@ == value,
            None => r matches Err(error) && error.says("unknown lock type"@),
        },
{
    match typ {
        LockType::NoLock => Ok(String::from_str("-")),
        LockType::Read => Ok(String::from_str("r")),
        LockType::Write => Ok(String::from_str("w")),
        LockType::Create => Ok(String::from_str("c")),
        LockType::Unknown => Err(StorageError::other("unknown lock type")),
    }
}

/// The last writer that tags name; none when the tag is absent or malformed.
pub open spec fn last_writer_of(tags: Map<Seq<char>, Seq<char>>) -> Seq<u8> {
    if tags.contains_key("last-writer"@) {
        match base64_parsed(tags["last-writer"@]) {
            Ok(id) => id,
            Err(_) => Seq::empty(),
        }
    } else {
        Seq::empty()
    }
}

/// The lock state that tags describe, or what is wrong with them.
pub open spec fn info_of(tags: Map<Seq<char>, Seq<char>>) -> Result<InfoView, Seq<char>> {
    let typ = if tags.contains_key("lock-type"@) {
        tag_type(tags["lock-type"@])
    } else {
        Some(LockType::NoLock)
    };
    let holders = if tags.contains_key("locked-by"@) && tags["locked-by"@].len() > 0 {
        holders_of(comma_parts(tags["locked-by"@]))
    } else {
        Ok(Seq::empty())
    };
    match typ {
        None => Err("unknown lock type "@ + text::quoted(tags["lock-type"@])),
        Some(typ) => match holders {
            Err(words) => Err("invalid locked-by tag: "@ + words),
            Ok(locked_by) => Ok(
                InfoView { typ, locked_by, last_writer: last_writer_of(tags) },
            ),
        },
    }
}

/// Reads the lock type of a tag value.
fn parse_lock_type(value: &String) -> (r: Result<LockType, StorageError>)
    ensures
        match tag_type(value@) {
            Some(typ) => r == Ok::<LockType, StorageError>(typ),
            None => r matches Err(error) && error.says(
                "unknown lock type "@ + text::quoted(value@),
            ),
        },
{
    if *value == String::from_str("r") {
        Ok(LockType::Read)
    } else if *value == String::from_str("w") {
        Ok(LockType::Write)
    } else if *value == String::from_str("c") {
        Ok(LockType::Create)
    } else if *value == String::from_str("-") || *value == String::from_str("") {
        Ok(LockType::NoLock)
    } else {
        let mut words = String::from_str("unknown lock type ");
        words.append(text::quote(value.as_str()).as_str());
        Err(StorageError::other(words.as_str()))
    }
}

/// Reads the holders that tag values name.
fn parse_holders(parts: &Vec<String>) -> (r: Result<Vec<TxId>, StorageError>)
    ensures
        match holders_of(text_views(parts@)) {
            Ok(holders) => r matches Ok(found) && ids::tx_views(found@) == holders,
            Err(words) => r matches Err(error) && error.says("invalid locked-by tag: "@ + words),
        },
{
    let ghost all = text_views(parts@);
    let mut out = no_ids();
    let mut i: usize = 0;
    proof {
        assert(all.take(0) =~= Seq::<Seq<char>>::empty());
    }
    while i < parts.len()
        invariant
            i <= parts@.len(),
            all == text_views(parts@),
            holders_of(all.take(i as int)) == Ok::<Seq<Seq<u8>>, Seq<char>>(
                ids::tx_views(out@),
            ),
        decreases parts@.len() - i,
    {
        proof {
            assert(all.take(i + 1).drop_last() =~= all.take(i as int));
            assert(all.take(i + 1).last() == parts@[i as int]@);
        }
        match decode_base64(parts[i].as_str()) {
            Err(cause) => {
                proof {
                    lemma_holders_fail(all, i + 1);
                }
                let mut words = String::from_str("invalid locked-by tag: ");
                words.append(cause.as_str());
                return Err(StorageError::other(words.as_str()));
            },
            Ok(raw) => {
                let id = TxId::from_bytes(raw);
                proof {
                    lemma_pushed(out@, id);
                }
                out.push(id);
            },
        }
        i = i + 1;
    }
    proof {
        assert(all.take(i as int) =~= all);
    }
    Ok(out)
}

/// The first malformed value decides.
proof fn lemma_holders_fail(parts: Seq<Seq<char>>, n: int)
    requires
        0 <= n <= parts.len(),
        holders_of(parts.take(n)) is Err,
    ensures
        holders_of(parts) == holders_of(parts.take(n)),
    decreases parts.len(),
{
    if n == parts.len() {
        assert(parts.take(n) =~= parts);
    } else {
        assert(parts.drop_last().take(n) =~= parts.take(n));
        lemma_holders_fail(parts.drop_last(), n);
    }
}

/// Extracts the last-writer transaction from object tags; an empty one when
/// the tag is absent or malformed.
pub fn last_writer_from_tags(tags: &Tags) -> (r: TxId)
    ensures
        r@ == last_writer_of(tags@),
{
    match tags.get("last-writer") {
        Some(value) => match decode_base64(value.as_str()) {
            Ok(raw) => TxId::from_bytes(raw),
            Err(_) => TxId::from_bytes(Vec::new()),
        },
        None => TxId::from_bytes(Vec::new()),
    }
}

/// Parses lock-managing tags into a [`LockInfo`].
pub fn tags_lock_info(tags: &Tags) -> (r: Result<LockInfo, StorageError>)
    ensures
        match info_of(tags@) {
            Ok(info) => r matches Ok(found) && found@ == info,
            Err(words) => r matches Err(error) && error.says(words),
        },
{
    let typ = match tags.get("lock-type") {
        Some(value) => match parse_lock_type(value) {
            Ok(typ) => typ,
            Err(error) => {
                return Err(error);
            },
        },
        None => LockType::NoLock,
    };
    let locked_by = match tags.get("locked-by") {
        Some(value) => if value.as_str().is_empty() {
            no_ids()
        } else {
            match parse_holders(&split_commas(value.as_str())) {
                Ok(holders) => holders,
                Err(error) => {
                    return Err(error);
                },
            }
        },
        None => no_ids(),
    };
    Ok(LockInfo { typ, locked_by, last_writer: last_writer_from_tags(tags) })
}

/// The tag values of several transactions.
pub open spec fn tag_texts(list: Seq<Seq<u8>>) -> Seq<Seq<char>> {
    list.map_values(|id: Seq<u8>| base64_text(id))
}

/// No transactions, or one without bytes: their tag value is empty.
pub open spec fn names_nobody(list: Seq<Seq<u8>>) -> bool {
    list.len() == 0 || (list.len() == 1 && list[0].len() == 0)
}

/// Returns the tag value of several transactions. They read back from it.
fn join_tags(list: &Vec<TxId>) -> (r: String)
    ensures
        r@ == comma_joined(tag_texts(ids::tx_views(list@))),
        r@.len() == 0 <==> names_nobody(ids::tx_views(list@)),
        list@.len() > 0 ==> holders_of(comma_parts(r@)) == Ok::<Seq<Seq<u8>>, Seq<char>>(
            ids::tx_views(list@),
        ),
{
    let ghost all = ids::tx_views(list@);
    let ghost texts = tag_texts(all);
    let mut out = String::new();
    let mut i: usize = 0;
    proof {
        assert(texts.take(0) =~= Seq::<Seq<char>>::empty());
        assert(all.take(0) =~= Seq::<Seq<u8>>::empty());
    }
    while i < list.len()
        invariant
            i <= list@.len(),
            all == ids::tx_views(list@),
            texts == tag_texts(all),
            out@ == comma_joined(texts.take(i as int)),
            out@.len() == 0 <==> names_nobody(all.take(i as int)),
            forall|k: int| 0 <= k < i ==> !(#[trigger] texts[k]).contains(','),
            holders_of(texts.take(i as int)) == Ok::<Seq<Seq<u8>>, Seq<char>>(
                all.take(i as int),
            ),
        decreases list@.len() - i,
    {
        let part = tid_to_tag(&list[i]);
        proof {
            let now = texts.take(i + 1);
            assert(now.drop_last() =~= texts.take(i as int));
            assert(texts[i as int] == part@);
            assert(now.last() == part@);
            assert(all.take(i + 1) =~= all.take(i as int).push(all[i as int]));
            assert(all[i as int] == list@[i as int]@);
        }
        if i > 0 {
            out.append(",");
            proof {
                reveal_strlit(",");
                assert(","@ =~= seq![',']);
                assert(comma_joined(texts.take(i as int)) + seq![','] =~= comma_joined(
                    texts.take(i as int),
                ).push(','));
            }
        }
        out.append(part.as_str());
        proof {
            let now = texts.take(i + 1);
            if i == 0 {
                assert(now[0] == part@);
                assert(out@ =~= part@);
            }
        }
        i = i + 1;
    }
    proof {
        assert(texts.take(i as int) =~= texts);
        assert(all.take(i as int) =~= all);
        if all.len() > 0 {
            law_commas_round_trip(texts);
        }
    }
    out
}

/// The tags of a lock: its type and its holders.
pub open spec fn lock_tags_of(typ: Seq<char>, lockers: Seq<Seq<u8>>) -> Map<Seq<char>, Seq<char>> {
    Map::<Seq<char>, Seq<char>>::empty().insert("lock-type"@, typ).insert(
        "locked-by"@,
        comma_joined(tag_texts(lockers)),
    )
}

/// The tags' names differ.
pub proof fn lemma_tag_names()
    ensures
        "lock-type"@ != "locked-by"@,
        "lock-type"@ != "last-writer"@,
        "locked-by"@ != "last-writer"@,
{
    reveal_strlit("lock-type");
    reveal_strlit("locked-by");
    reveal_strlit("last-writer");
    assert("lock-type"@[4] != "locked-by"@[4]);
    assert("lock-type"@.len() != "last-writer"@.len());
    assert("locked-by"@.len() != "last-writer"@.len());
}

/// A lock type reads back from its tag value.
proof fn lemma_type_tag(typ: LockType)
    ensures
        type_tag(typ) matches Some(value) ==> tag_type(value) == Some(typ),
{
    reveal_strlit("r");
    reveal_strlit("w");
    reveal_strlit("c");
    reveal_strlit("-");
    assert("r"@[0] == 'r' && "w"@[0] == 'w' && "c"@[0] == 'c' && "-"@[0] == '-');
}

/// Builds the tags that persist a lock. They read back as the lock's type and
/// holders, unless the only holder has no bytes.
pub fn lock_tags(update: &LockUpdate) -> (r: Result<Tags, StorageError>)
    ensures
        match type_tag(update@.typ) {
            Some(typ) => {
                &&& r matches Ok(tags)
                &&& tags@ == lock_tags_of(typ, update@.lockers)
                &&& info_of(tags@) == Ok::<InfoView, Seq<char>>(
                    InfoView {
                        typ: update@.typ,
                        locked_by: if names_nobody(update@.lockers) {
                            Seq::empty()
                        } else {
                            update@.lockers
                        },
                        last_writer: Seq::empty(),
                    },
                )
            },
            None => r matches Err(error) && error.says("unknown lock type"@),
        },
{
    let typ = match lock_type_to_tag(update.typ) {
        Err(error) => {
            return Err(error);
        },
        Ok(typ) => typ,
    };
    let mut tags = Tags::new();
    tags.insert(String::from_str("lock-type"), typ);
    let holders = join_tags(&update.lockers);
    tags.insert(String::from_str("locked-by"), holders);
    proof {
        lemma_tag_names();
        lemma_type_tag(update.typ);
    }
    Ok(tags)
}

/// What to do with a storage object to apply a lock update.
pub enum ActionView {
    /// Nothing.
    Keep,
    /// Delete the object.
    Delete,
    /// Create an empty object with these tags.
    Create {
        /// The tags.
        tags: Map<Seq<char>, Seq<char>>,
    },
    /// Write a value with these tags.
    Write {
        /// The value.
        value: Seq<u8>,
        /// The tags.
        tags: Map<Seq<char>, Seq<char>>,
    },
    /// Replace the tags.
    SetTags {
        /// The tags.
        tags: Map<Seq<char>, Seq<char>>,
    },
}

/// What to do with a storage object to apply a lock update.
#[derive(Debug)]
pub enum LockAction {
    /// Nothing.
    Keep,
    /// Delete the object.
    Delete,
    /// Create an empty object with these tags.
    Create {
        /// The tags.
        tags: Tags,
    },
    /// Write a value with these tags.
    Write {
        /// The value.
        value: Vec<u8>,
        /// The tags.
        tags: Tags,
    },
    /// Replace the tags.
    SetTags {
        /// The tags.
        tags: Tags,
    },
}

impl View for LockAction {
    type V = ActionView;

    open spec fn view(&self) -> ActionView {
        match self {
            LockAction::Keep => ActionView::Keep,
            LockAction::Delete => ActionView::Delete,
            LockAction::Create { tags } => ActionView::Create { tags: tags@ },
            LockAction::Write { value, tags } => ActionView::Write { value: value@, tags: tags@ },
            LockAction::SetTags { tags } => ActionView::SetTags { tags: tags@ },
        }
    }
}

/// A lock update refused.
pub enum RefusalView {
    /// The object does not exist.
    NotFound,
    /// Any other reason, in words.
    Because(Seq<char>),
}

/// What applying a lock update to an object does, or why it is refused. The
/// object may not exist yet.
pub open spec fn action_for(update: UpdateView, missing: bool) -> Result<ActionView, RefusalView> {
    if update.typ == LockType::NoLock && update.value.deleted {
        if writer_type(update.prev_type) {
            Ok(ActionView::Delete)
        } else {
            Err(
                RefusalView::Because(
                    "cannot delete from unlock type "@ + lock_word(update.prev_type),
                ),
            )
        }
    } else if update.typ == LockType::NoLock && update.prev_type == LockType::Create && (
    update.writer.len() == 0 || update.value.not_written) {
        Ok(ActionView::Delete)
    } else if missing && update.typ == LockType::NoLock {
        Ok(ActionView::Keep)
    } else if missing && (update.typ == LockType::Read || update.typ == LockType::Write) {
        Err(RefusalView::NotFound)
    } else {
        match type_tag(update.typ) {
            None => Err(RefusalView::Because("unknown lock type"@)),
            Some(typ) => {
                let tags = lock_tags_of(typ, update.lockers);
                if update.typ == LockType::Create {
                    Ok(ActionView::Create { tags })
                } else if update.writer.len() > 0 && !update.value.not_written {
                    Ok(
                        ActionView::Write {
                            value: update.value.value,
                            tags: tags.insert("last-writer"@, base64_text(update.writer)),
                        },
                    )
                } else {
                    Ok(ActionView::SetTags { tags })
                }
            },
        }
    }
}

/// Tags read back as a lock's type and holders, unless the only holder has no
/// bytes, and as a last writer.
pub open spec fn tags_say(
    tags: Map<Seq<char>, Seq<char>>,
    update: UpdateView,
    writer: Seq<u8>,
) -> bool {
    &&& info_of(tags) matches Ok(info)
    &&& info.typ == update.typ
    &&& info.locked_by == if update.lockers.len() == 1 && update.lockers[0].len() == 0 {
        Seq::empty()
    } else {
        update.lockers
    }
    &&& info.last_writer == writer
}

/// Decides what applying a lock update to an object does. `missing` says that
/// the object does not exist yet.
pub fn plan_lock_update(update: &LockUpdate, missing: bool) -> (r: Result<LockAction, StorageError>)
    ensures
        match action_for(update@, missing) {
            Ok(action) => r matches Ok(found) && found@ == action,
            Err(RefusalView::NotFound) => r matches Err(error) && error
                == StorageError::NotFound,
            Err(RefusalView::Because(words)) => r matches Err(error) && error.says(words),
        },
        r matches Ok(LockAction::Write { value, tags }) ==> value@ == update@.value.value
            && tags_say(tags@, update@, update@.writer),
        r matches Ok(LockAction::SetTags { tags }) ==> tags_say(tags@, update@, Seq::empty()),
        r matches Ok(LockAction::Create { tags }) ==> tags_say(tags@, update@, Seq::empty()),
{
    if update.typ == LockType::NoLock && update.value.deleted {
        if !is_writer_type(update.prev_type) {
            let mut words = String::from_str("cannot delete from unlock type ");
            words.append(lock_type_name(update.prev_type));
            return Err(StorageError::other(words.as_str()));
        }
        return Ok(LockAction::Delete);
    }
    if update.typ == LockType::NoLock && update.prev_type == LockType::Create && (
    update.writer.is_empty() || update.value.not_written) {
        return Ok(LockAction::Delete);
    }
    if missing {
        if update.typ == LockType::NoLock {
            return Ok(LockAction::Keep);
        }
        if update.typ == LockType::Read || update.typ == LockType::Write {
            return Err(StorageError::NotFound);
        }
    }
    let mut tags = match lock_tags(update) {
        Err(error) => {
            return Err(error);
        },
        Ok(tags) => tags,
    };
    proof {
        lemma_tag_names();
        assert(update@.lockers.len() == 0 ==> update@.lockers =~= Seq::empty());
    }
    if update.typ == LockType::Create {
        return Ok(LockAction::Create { tags });
    }
    if !update.writer.is_empty() && !update.value.not_written {
        let writer = tid_to_tag(&update.writer);
        tags.insert(String::from_str("last-writer"), writer);
        return Ok(
            LockAction::Write { value: bytes::copy(update.value.value.as_slice()), tags },
        );
    }
    Ok(LockAction::SetTags { tags })
}

/// Returns the update that releases a create lock on an uncommitted object,
/// which deletes it.
pub fn unlock_create_uncommitted() -> (r: LockUpdate)
    ensures
        r@ == (UpdateView {
            typ: LockType::NoLock,
            prev_type: LockType::Create,
            ..UpdateView::none()
        }),
        action_for(r@, true) == Ok::<ActionView, RefusalView>(ActionView::Delete),
        action_for(r@, false) == Ok::<ActionView, RefusalView>(ActionView::Delete),
{
    let mut update = LockUpdate::default();
    update.typ = LockType::NoLock;
    update.prev_type = LockType::Create;
    update
}

} // verus!
