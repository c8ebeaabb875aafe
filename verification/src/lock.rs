//! Lock states shared by the persisted coordination scopes.

use vstd::prelude::*;

use crate::bytes;
use crate::ids::TxId;
use crate::sorted;

verus! {

/// The type of lock held on a storage object.
#[derive(Clone, Copy, Debug, PartialEq, Eq, Structural)]
pub enum LockType {
    /// Not known.
    Unknown,
    /// No lock.
    NoLock,
    /// Shared by readers.
    Read,
    /// Held by one writer.
    Write,
    /// Held by one creator.
    Create,
}

impl Default for LockType {
    fn default() -> (r: Self)
        ensures
            r == LockType::Unknown,
    {
        LockType::Unknown
    }
}

/// Why persisted lock fields do not form a lock state.
#[derive(Clone, Copy, Debug, PartialEq, Eq, Structural)]
pub enum LockStateError {
    /// A holder is listed twice.
    DuplicateHolder,
    /// The number of holders does not fit the lock type.
    InvalidShape,
}

/// A lock type and its holders in ascending order.
pub struct LockView {
    /// The lock type.
    pub typ: LockType,
    /// The holders.
    pub holders: Seq<Seq<u8>>,
}

/// The persisted number of a lock type.
pub open spec fn lock_type_number(typ: LockType) -> i32 {
    match typ {
        LockType::Unknown => 0,
        LockType::NoLock => 1,
        LockType::Read => 2,
        LockType::Write => 3,
        LockType::Create => 4,
    }
}

/// The lock type of a persisted number.
pub open spec fn numbered_lock_type(number: i32) -> LockType {
    if number == 1 {
        LockType::NoLock
    } else if number == 2 {
        LockType::Read
    } else if number == 3 {
        LockType::Write
    } else if number == 4 {
        LockType::Create
    } else {
        LockType::Unknown
    }
}

/// Maps a lock type to its persisted number.
pub fn lock_type_to_proto(typ: LockType) -> (r: i32)
    ensures
        r == lock_type_number(typ),
{
    match typ {
        LockType::Unknown => 0,
        LockType::NoLock => 1,
        LockType::Read => 2,
        LockType::Write => 3,
        LockType::Create => 4,
    }
}

/// Maps a persisted number, also an unknown one, to its lock type.
pub fn lock_type_from_proto(number: i32) -> (r: LockType)
    ensures
        r == numbered_lock_type(number),
{
    if number == 1 {
        LockType::NoLock
    } else if number == 2 {
        LockType::Read
    } else if number == 3 {
        LockType::Write
    } else if number == 4 {
        LockType::Create
    } else {
        LockType::Unknown
    }
}

/// Byte strings in strictly ascending order.
pub open spec fn ascending(s: Seq<Seq<u8>>) -> bool {
    forall|i: int, j: int| 0 <= i < j < s.len() ==> bytes::lt(s[i], s[j])
}

/// The number of holders fits the lock type.
pub open spec fn shape_fits(typ: LockType, holders: nat) -> bool {
    match typ {
        LockType::Unknown => false,
        LockType::NoLock => holders == 0,
        LockType::Read => holders >= 1,
        LockType::Write => holders == 1,
        LockType::Create => holders == 1,
    }
}

/// The type that persisted fields stand for: an omitted type without holders
/// means no lock.
pub open spec fn settled_type(typ: LockType, holders: nat) -> LockType {
    if typ is Unknown && holders == 0 {
        LockType::NoLock
    } else {
        typ
    }
}

impl LockView {
    /// A state that some lock can have.
    pub open spec fn valid(self) -> bool {
        ascending(self.holders) && shape_fits(self.typ, self.holders.len())
    }

    /// The state without holders.
    pub open spec fn unlocked() -> LockView {
        LockView { typ: LockType::NoLock, holders: Seq::empty() }
    }

    /// The state with one exclusive holder.
    pub open spec fn exclusive(typ: LockType, holder: Seq<u8>) -> LockView {
        LockView { typ, holders: seq![holder] }
    }
}

/// Ascending byte strings do not repeat.
pub proof fn lemma_ascending(s: Seq<Seq<u8>>)
    requires
        ascending(s),
    ensures
        s.no_duplicates(),
{
    assert forall|i: int, j: int| 0 <= i < s.len() && 0 <= j < s.len() && i != j implies s[i]
        != s[j] by {
        if i < j {
            bytes::lemma_lt_asymmetric(s[i], s[j]);
        } else {
            bytes::lemma_lt_asymmetric(s[j], s[i]);
        }
    }
}

/// Law: holders in ascending order are determined by who holds the lock.
pub proof fn law_holders_are_canonical(a: Seq<Seq<u8>>, b: Seq<Seq<u8>>)
    requires
        ascending(a),
        ascending(b),
        forall|k: Seq<u8>| a.contains(k) <==> b.contains(k),
    ensures
        a == b,
    decreases a.len(),
{
    if a.len() == 0 {
        if b.len() > 0 {
            assert(b.contains(b[0]));
            assert(false);
        }
        assert(a =~= b);
    } else {
        assert(a.contains(a[a.len() - 1]));
        let x = a.last();
        let k = b.index_of(x);
        assert(b.len() > 0);
        let y = b.last();
        assert(b.contains(b[b.len() - 1]));
        let m = a.index_of(y);
        if x != y {
            assert(m < a.len() - 1);
            assert(bytes::lt(a[m], a[a.len() - 1]));
            assert(k < b.len() - 1);
            assert(bytes::lt(b[k], b[b.len() - 1]));
            bytes::lemma_lt_asymmetric(x, y);
            assert(false);
        }
        let p = a.drop_last();
        let q = b.drop_last();
        lemma_ascending(a);
        lemma_ascending(b);
        assert forall|z: Seq<u8>| p.contains(z) <==> q.contains(z) by {
            if p.contains(z) {
                let i = p.index_of(z);
                assert(a[i] == z);
                assert(a.contains(z));
                let j = b.index_of(z);
                assert(z != x);
                assert(q[j] == z);
            }
            if q.contains(z) {
                let i = q.index_of(z);
                assert(b[i] == z);
                assert(b.contains(z));
                let j = a.index_of(z);
                assert(z != y);
                assert(p[j] == z);
            }
        }
        law_holders_are_canonical(p, q);
        assert(a =~= p.push(x));
        assert(b =~= q.push(y));
    }
}

/// Byte strings put in ascending order.
pub open spec fn arranged(list: Seq<Seq<u8>>) -> Seq<Seq<u8>> {
    sorted::put_all(Seq::empty(), list)
}

/// Arranging keeps the members; what is in order stays as it is.
pub proof fn lemma_arranged(list: Seq<Seq<u8>>)
    ensures
        ascending(arranged(list)),
        forall|k: Seq<u8>| arranged(list).contains(k) <==> list.contains(k),
        ascending(list) ==> arranged(list) == list,
    decreases list.len(),
{
    sorted::lemma_put_all_step(Seq::empty(), list);
    let all = arranged(list);
    let none = Seq::<Seq<u8>>::empty();
    sorted::lemma_put_all(none, list);
    lemma_ascending_is_sorted(all);
    if ascending(list) {
        assert(none + list =~= list);
        lemma_ascending_is_sorted(list);
        sorted::lemma_put_sorted(none, list);
    }
    if list.len() > 0 {
        let head = list.drop_last();
        lemma_arranged(head);
        let before = arranged(head);
        sorted::lemma_put_all(none, head);
        sorted::lemma_put(before, list.last());
        assert forall|k: Seq<u8>| all.contains(k) <==> list.contains(k) by {
            lemma_ascending_is_sorted(all);
            lemma_ascending_is_sorted(before);
            assert(sorted::holds_key(all, k) <==> all.contains(k));
            assert(sorted::holds_key(before, k) <==> before.contains(k));
            if list.contains(k) && k != list.last() {
                let i = list.index_of(k);
                assert(head[i] == k);
            }
            if head.contains(k) {
                let i = head.index_of(k);
                assert(list[i] == k);
            }
            assert(list[list.len() - 1] == list.last());
        }
    }
}

/// The order of byte strings is that of elements that are their own keys.
pub proof fn lemma_ascending_is_sorted(list: Seq<Seq<u8>>)
    ensures
        ascending(list) <==> sorted::sorted(list),
        forall|k: Seq<u8>| #[trigger] sorted::holds_key(list, k) <==> list.contains(k),
{
    if sorted::sorted(list) {
        assert forall|i: int, j: int| 0 <= i < j < list.len() implies bytes::lt(
            list[i],
            list[j],
        ) by {
            assert(bytes::lt(sorted::Keyed::key(&list[i]), sorted::Keyed::key(&list[j])));
        }
    }
    if ascending(list) {
        assert forall|i: int, j: int| 0 <= i < j < list.len() implies bytes::lt(
            sorted::Keyed::key(&list[i]),
            sorted::Keyed::key(&list[j]),
        ) by {
            assert(bytes::lt(list[i], list[j]));
        }
    }
    assert forall|k: Seq<u8>| #[trigger] sorted::holds_key(list, k) <==> list.contains(k) by {
        if list.contains(k) {
            let i = list.index_of(k);
            assert(sorted::Keyed::key(&list[i]) == k);
        }
    }
}

/// The lock that persisted fields stand for, if they stand for one.
pub open spec fn lock_of(number: i32, holders: Seq<Seq<u8>>) -> Option<LockView> {
    let typ = settled_type(numbered_lock_type(number), holders.len());
    if holders.no_duplicates() && shape_fits(typ, holders.len()) {
        Some(LockView { typ, holders: arranged(holders) })
    } else {
        None
    }
}

/// A validated lock type and its canonical holders.
#[derive(Debug, PartialEq, Eq)]
pub struct LockState {
    typ: LockType,
    holders: Vec<TxId>,
}

impl View for LockState {
    type V = LockView;

    closed spec fn view(&self) -> LockView {
        LockView { typ: self.typ, holders: crate::ids::tx_views(self.holders@) }
    }
}

impl Clone for LockState {
    fn clone(&self) -> (r: Self)
        ensures
            r@ == self@,
    {
        LockState { typ: self.typ, holders: crate::ids::copy_ids(&self.holders) }
    }
}

impl Default for LockState {
    fn default() -> (r: Self)
        ensures
            r@ == LockView::unlocked(),
            r.wf(),
    {
        let r = LockState { typ: LockType::NoLock, holders: Vec::new() };
        proof {
            assert(r@.holders =~= Seq::<Seq<u8>>::empty());
        }
        r
    }
}

/// Sorted identifiers have ascending views, with the same members.
proof fn lemma_views(ids: Seq<TxId>)
    ensures
        sorted::sorted(ids) <==> ascending(crate::ids::tx_views(ids)),
        forall|k: Seq<u8>|
            #[trigger] sorted::holds_key(ids, k) <==> crate::ids::tx_views(ids).contains(k),
{
    let v = crate::ids::tx_views(ids);
    if sorted::sorted(ids) {
        assert forall|i: int, j: int| 0 <= i < j < v.len() implies bytes::lt(v[i], v[j]) by {
            assert(bytes::lt(sorted::Keyed::key(&ids[i]), sorted::Keyed::key(&ids[j])));
        }
    }
    if ascending(v) {
        assert forall|i: int, j: int| 0 <= i < j < ids.len() implies bytes::lt(
            sorted::Keyed::key(&ids[i]),
            sorted::Keyed::key(&ids[j]),
        ) by {
            assert(bytes::lt(v[i], v[j]));
        }
    }
    assert forall|k: Seq<u8>| #[trigger] sorted::holds_key(ids, k) <==> v.contains(k) by {
        if sorted::holds_key(ids, k) {
            let i = choose|i: int|
                0 <= i < ids.len() && sorted::Keyed::key(#[trigger] &ids[i]) == k;
            assert(v[i] == k);
        }
        if v.contains(k) {
            let i = v.index_of(k);
            assert(sorted::Keyed::key(&ids[i]) == k);
        }
    }
}

/// What taking out one of several ascending byte strings leaves.
proof fn lemma_without(v: Seq<Seq<u8>>, a: int)
    requires
        ascending(v),
        0 <= a < v.len(),
    ensures
        ascending(v.remove(a)),
        forall|k: Seq<u8>| v.remove(a).contains(k) <==> v.contains(k) && k != v[a],
{
    let w = v.remove(a);
    lemma_ascending(v);
    assert forall|k: Seq<u8>| w.contains(k) <==> v.contains(k) && k != v[a] by {
        if w.contains(k) {
            let i = w.index_of(k);
            let j = if i < a { i } else { i + 1 };
            assert(v[j] == k);
        }
        if v.contains(k) && k != v[a] {
            let j = v.index_of(k);
            let i = if j < a { j } else { j - 1 };
            assert(w[i] == k);
        }
    }
    assert forall|i: int, j: int| 0 <= i < j < w.len() implies bytes::lt(w[i], w[j]) by {
        let x = if i < a { i } else { i + 1 };
        let y = if j < a { j } else { j + 1 };
        assert(bytes::lt(v[x], v[y]));
    }
}

/// Dropping one of several sorted identifiers takes it out of their views.
proof fn lemma_dropped(ids: Seq<TxId>, id: Seq<u8>) -> (a: int)
    requires
        ascending(crate::ids::tx_views(ids)),
    ensures
        sorted::sorted(ids),
        crate::ids::tx_views(ids).contains(id) <==> sorted::get(ids, id) is Some,
        !crate::ids::tx_views(ids).contains(id) ==> sorted::drop(ids, id) == ids,
        crate::ids::tx_views(ids).contains(id) ==> {
            &&& 0 <= a < ids.len()
            &&& crate::ids::tx_views(ids)[a] == id
            &&& crate::ids::tx_views(sorted::drop(ids, id)) == crate::ids::tx_views(ids).remove(a)
        },
{
    lemma_views(ids);
    let (a, b) = sorted::lemma_place(ids, id);
    sorted::lemma_stands_at(ids, id, a, b);
    assert(sorted::holds_key(ids, id) <==> crate::ids::tx_views(ids).contains(id));
    if a == b {
        assert(ids.take(a) + ids.skip(b) =~= ids);
    } else {
        assert(crate::ids::tx_views(ids.take(a) + ids.skip(b)) =~= crate::ids::tx_views(
            ids,
        ).remove(a));
    }
    a
}

impl LockState {
    /// The state is one that a lock can have.
    pub open spec fn wf(&self) -> bool {
        self@.valid()
    }

    /// Decodes and validates persisted lock fields.
    pub fn from_wire(lock_type: i32, locked_by: Vec<Vec<u8>>) -> (r: Result<Self, LockStateError>)
        ensures
            ({
                let holders = bytes::views(locked_by@);
                let typ = settled_type(numbered_lock_type(lock_type), holders.len());
                &&& !holders.no_duplicates() ==> r == Err::<LockState, LockStateError>(
                    LockStateError::DuplicateHolder,
                )
                &&& holders.no_duplicates() && !shape_fits(typ, holders.len()) ==> r == Err::<
                    LockState,
                    LockStateError,
                >(LockStateError::InvalidShape)
                &&& holders.no_duplicates() && shape_fits(typ, holders.len()) ==> r is Ok
                &&& r matches Ok(state) ==> {
                    &&& state.wf()
                    &&& state@.typ == typ
                    &&& state@.holders == arranged(holders)
                    &&& state@.holders.len() == holders.len()
                    &&& forall|k: Seq<u8>| state@.holders.contains(k) <==> holders.contains(k)
                }
            }),
    {
        let ghost all = bytes::views(locked_by@);
        let mut holders: Vec<TxId> = Vec::new();
        let mut i: usize = 0;
        while i < locked_by.len()
            invariant
                i <= locked_by@.len(),
                all == bytes::views(locked_by@),
                sorted::sorted(holders@),
                holders@.len() == i,
                all.take(i as int).no_duplicates(),
                forall|k: Seq<u8>| #[trigger]
                    sorted::holds_key(holders@, k) <==> all.take(i as int).contains(k),
            decreases locked_by@.len() - i,
        {
            let ghost head = all.take(i as int);
            let ghost x = all[i as int];
            proof {
                assert(all.take(i + 1) =~= head.push(x));
            }
            if sorted::contains(&holders, locked_by[i].as_slice()) {
                proof {
                    assert(head.contains(x));
                    let k = head.index_of(x);
                    assert(all[k] == all[i as int]);
                }
                return Err(LockStateError::DuplicateHolder);
            }
            let id = TxId::from_bytes(bytes::copy(locked_by[i].as_slice()));
            let ghost was = holders@;
            proof {
                sorted::lemma_put(was, id);
                let (a, b) = sorted::lemma_place(was, id@);
                sorted::lemma_stands_at(was, id@, a, b);
            }
            sorted::insert(&mut holders, id);
            proof {
                assert forall|k: Seq<u8>| #[trigger]
                    sorted::holds_key(holders@, k) <==> all.take(i + 1).contains(k) by {
                    lemma_push_contains(head, x, k);
                    if k == id@ {
                    } else {
                        assert(sorted::holds_key(was, k) <==> head.contains(k));
                    }
                }
                lemma_push_no_duplicates(head, x);
            }
            i = i + 1;
        }
        proof {
            assert(all.take(i as int) =~= all);
            lemma_views(holders@);
        }
        let mut typ: LockType = lock_type_from_proto(lock_type);
        if matches!(typ, LockType::Unknown) && holders.len() == 0 {
            typ = LockType::NoLock;
        }
        let fits: bool = match typ {
            LockType::Unknown => false,
            LockType::NoLock => holders.len() == 0,
            LockType::Read => holders.len() >= 1,
            LockType::Write => holders.len() == 1,
            LockType::Create => holders.len() == 1,
        };
        if !fits {
            return Err(LockStateError::InvalidShape);
        }
        let state = LockState { typ, holders };
        proof {
            assert forall|k: Seq<u8>| state@.holders.contains(k) <==> all.contains(k) by {
                assert(sorted::holds_key(holders@, k) <==> all.contains(k));
            }
            lemma_arranged(all);
            assert forall|k: Seq<u8>|
                state@.holders.contains(k) <==> arranged(all).contains(k) by {
                assert(state@.holders.contains(k) <==> all.contains(k));
            }
            law_holders_are_canonical(state@.holders, arranged(all));
        }
        Ok(state)
    }

    /// Returns the held lock type.
    pub fn lock_type(&self) -> (r: LockType)
        ensures
            r == self@.typ,
    {
        self.typ
    }

    /// Returns the transactions holding the lock, in ascending order.
    pub fn holders(&self) -> (r: &Vec<TxId>)
        ensures
            crate::ids::tx_views(r@) == self@.holders,
            r@.len() == self@.holders.len(),
    {
        &self.holders
    }

    /// Reports whether `id` holds this lock.
    pub fn contains(&self, id: &TxId) -> (r: bool)
        requires
            self.wf(),
        ensures
            r == self@.holders.contains(id@),
    {
        proof {
            lemma_views(self.holders@);
        }
        sorted::contains(&self.holders, id.as_bytes())
    }

    /// Adds one shared holder.
    pub fn add_reader(&mut self, id: TxId)
        requires
            old(self).wf(),
        ensures
            final(self).wf(),
            final(self)@.typ == LockType::Read,
            forall|k: Seq<u8>|
                final(self)@.holders.contains(k) <==> old(self)@.holders.contains(k) || k == id@,
    {
        let ghost was = self.holders@;
        proof {
            lemma_views(was);
            sorted::lemma_put(was, id);
        }
        sorted::insert(&mut self.holders, id);
        self.typ = LockType::Read;
        proof {
            lemma_views(self.holders@);
            assert forall|k: Seq<u8>|
                self@.holders.contains(k) <==> old(self)@.holders.contains(k) || k == id@ by {
                assert(sorted::holds_key(self.holders@, k) <==> self@.holders.contains(k));
                assert(sorted::holds_key(was, k) <==> old(self)@.holders.contains(k));
            }
            assert(self@.holders.contains(id@));
        }
    }

    /// Replaces all holders by one exclusive holder.
    fn set_exclusive(&mut self, id: TxId, typ: LockType)
        requires
            typ == LockType::Write || typ == LockType::Create,
        ensures
            final(self).wf(),
            final(self)@ == LockView::exclusive(typ, id@),
    {
        let mut holders: Vec<TxId> = Vec::new();
        holders.push(id);
        self.holders = holders;
        self.typ = typ;
        proof {
            assert(self@.holders =~= seq![id@]);
        }
    }

    /// Replaces the lock with one exclusive writer.
    pub fn set_writer(&mut self, id: TxId)
        ensures
            final(self).wf(),
            final(self)@ == LockView::exclusive(LockType::Write, id@),
    {
        self.set_exclusive(id, LockType::Write);
    }

    /// Replaces the lock with one exclusive creator.
    pub fn set_creator(&mut self, id: TxId)
        ensures
            final(self).wf(),
            final(self)@ == LockView::exclusive(LockType::Create, id@),
    {
        self.set_exclusive(id, LockType::Create);
    }

    /// Removes one holder and unlocks an empty state.
    pub fn remove(&mut self, id: &TxId) -> (r: bool)
        requires
            old(self).wf(),
        ensures
            final(self).wf(),
            r == old(self)@.holders.contains(id@),
            forall|k: Seq<u8>|
                final(self)@.holders.contains(k) <==> old(self)@.holders.contains(k) && k != id@,
            final(self)@.typ == if final(self)@.holders.len() == 0 {
                LockType::NoLock
            } else {
                old(self)@.typ
            },
            !r ==> final(self)@ == old(self)@,
    {
        let ghost was = self.holders@;
        let ghost a = lemma_dropped(was, id@);
        let removed: bool = sorted::remove(&mut self.holders, id.as_bytes()).is_some();
        if self.holders.len() == 0 {
            self.typ = LockType::NoLock;
        }
        proof {
            if removed {
                lemma_without(crate::ids::tx_views(was), a);
            }
        }
        removed
    }

    /// Removes every holder.
    pub fn clear(&mut self)
        ensures
            final(self).wf(),
            final(self)@ == LockView::unlocked(),
    {
        self.typ = LockType::NoLock;
        self.holders = Vec::new();
        proof {
            assert(self@.holders =~= Seq::<Seq<u8>>::empty());
        }
    }

    /// Reports whether the lock has no holders.
    pub fn is_empty(&self) -> (r: bool)
        requires
            self.wf(),
        ensures
            r == (self@ == LockView::unlocked()),
    {
        let r: bool = matches!(self.typ, LockType::NoLock) && self.holders.len() == 0;
        proof {
            if r {
                assert(self@.holders =~= Seq::<Seq<u8>>::empty());
            }
        }
        r
    }
}

/// Members of a sequence with one more element.
proof fn lemma_push_contains(s: Seq<Seq<u8>>, x: Seq<u8>, k: Seq<u8>)
    ensures
        s.push(x).contains(k) <==> s.contains(k) || k == x,
{
    if s.contains(k) {
        let i = s.index_of(k);
        assert(s.push(x)[i] == k);
    }
    assert(s.push(x)[s.len() as int] == x);
    if s.push(x).contains(k) && k != x {
        let i = s.push(x).index_of(k);
        assert(s[i] == k);
    }
}

/// A new element keeps a sequence free of repetitions.
proof fn lemma_push_no_duplicates(s: Seq<Seq<u8>>, x: Seq<u8>)
    requires
        s.no_duplicates(),
        !s.contains(x),
    ensures
        s.push(x).no_duplicates(),
{
}

/// A valid lock state for one leaf entry.
#[derive(Debug, PartialEq, Eq)]
pub struct EntryLockState {
    state: LockState,
}

impl View for EntryLockState {
    type V = LockView;

    closed spec fn view(&self) -> LockView {
        self.state@
    }
}

impl Clone for EntryLockState {
    fn clone(&self) -> (r: Self)
        ensures
            r@ == self@,
    {
        EntryLockState { state: self.state.clone() }
    }
}

impl Default for EntryLockState {
    fn default() -> (r: Self)
        ensures
            r@ == LockView::unlocked(),
            r.wf(),
    {
        EntryLockState { state: LockState::default() }
    }
}

impl EntryLockState {
    /// The states that this lock can have.
    pub open spec fn wf(&self) -> bool {
        &&& self@.valid()
        &&& self@.typ == LockType::NoLock || self@.typ == LockType::Read || self@.typ == LockType::Write || self@.typ == LockType::Create
    }

    /// Returns the held lock type.
    pub fn lock_type(&self) -> (r: LockType)
        ensures
            r == self@.typ,
    {
        self.state.lock_type()
    }

    /// Returns the transactions holding the lock, in ascending order.
    pub fn holders(&self) -> (r: &Vec<TxId>)
        ensures
            crate::ids::tx_views(r@) == self@.holders,
            r@.len() == self@.holders.len(),
    {
        self.state.holders()
    }

    /// Reports whether `id` holds this lock.
    pub fn contains(&self, id: &TxId) -> (r: bool)
        requires
            self.wf(),
        ensures
            r == self@.holders.contains(id@),
    {
        self.state.contains(id)
    }

    /// Creates a shared-read state held by `holder`.
    pub fn read(holder: TxId) -> (r: Self)
        ensures
            r.wf(),
            r@ == LockView::exclusive(LockType::Read, holder@),
    {
        let mut lock = EntryLockState::default();
        lock.acquire_read(holder);
        proof {
            let h = lock@.holders;
            assert(h.contains(holder@));
            lemma_ascending(h);
            assert forall|i: int| 0 <= i < h.len() implies h[i] == holder@ by {
                assert(h.contains(h[i]));
            }
            assert(h =~= seq![holder@]) by {
                if h.len() > 1 {
                    assert(h[0] == h[1]);
                }
            }
        }
        lock
    }

    /// Creates an exclusive-write state held by `holder`.
    pub fn write(holder: TxId) -> (r: Self)
        ensures
            r.wf(),
            r@ == LockView::exclusive(LockType::Write, holder@),
    {
        let mut lock = EntryLockState::default();
        lock.replace_write(holder);
        lock
    }

    /// Creates an exclusive-create state held by `holder`.
    pub fn create(holder: TxId) -> (r: Self)
        ensures
            r.wf(),
            r@ == LockView::exclusive(LockType::Create, holder@),
    {
        let mut lock = EntryLockState::default();
        lock.replace_create(holder);
        lock
    }

    /// Makes `id` one of the shared readers.
    pub fn acquire_read(&mut self, id: TxId)
        requires
            old(self).wf(),
        ensures
            final(self).wf(),
            final(self)@.typ == LockType::Read,
            forall|k: Seq<u8>|
                final(self)@.holders.contains(k) <==> old(self)@.holders.contains(k) || k == id@,
    {
        self.state.add_reader(id);
    }

    /// Replaces all holders with one exclusive writer.
    pub fn replace_write(&mut self, id: TxId)
        ensures
            final(self).wf(),
            final(self)@ == LockView::exclusive(LockType::Write, id@),
    {
        self.state.set_writer(id);
    }

    /// Replaces all holders with one exclusive creator.
    pub fn replace_create(&mut self, id: TxId)
        ensures
            final(self).wf(),
            final(self)@ == LockView::exclusive(LockType::Create, id@),
    {
        self.state.set_creator(id);
    }

    /// Removes one holder, unlocking the state when it was the last one.
    pub fn release(&mut self, id: &TxId) -> (r: bool)
        requires
            old(self).wf(),
        ensures
            final(self).wf(),
            r == old(self)@.holders.contains(id@),
            forall|k: Seq<u8>|
                final(self)@.holders.contains(k) <==> old(self)@.holders.contains(k) && k != id@,
            final(self)@.typ == if final(self)@.holders.len() == 0 {
                LockType::NoLock
            } else {
                old(self)@.typ
            },
            !r ==> final(self)@ == old(self)@,
    {
        self.state.remove(id)
    }

    /// Reports whether no transaction holds this lock.
    pub fn is_unlocked(&self) -> (r: bool)
        requires
            self.wf(),
        ensures
            r == (self@ == LockView::unlocked()),
    {
        self.state.is_empty()
    }

    /// Decodes and validates persisted lock fields.
    pub fn from_wire(lock_type: i32, locked_by: Vec<Vec<u8>>) -> (r: Result<Self, LockStateError>)
        ensures
            ({
                let holders = bytes::views(locked_by@);
                let typ = settled_type(numbered_lock_type(lock_type), holders.len());
                let fits = shape_fits(typ, holders.len()) && (typ == LockType::NoLock || typ == LockType::Read || typ == LockType::Write || typ == LockType::Create);
                &&& !holders.no_duplicates() ==> r == Err::<Self, LockStateError>(
                    LockStateError::DuplicateHolder,
                )
                &&& holders.no_duplicates() && !fits ==> r == Err::<Self, LockStateError>(
                    LockStateError::InvalidShape,
                )
                &&& holders.no_duplicates() && fits ==> r is Ok
                &&& r matches Ok(lock) ==> {
                    &&& lock.wf()
                    &&& lock@.typ == typ
                    &&& lock@.holders == arranged(holders)
                    &&& lock@.holders.len() == holders.len()
                    &&& forall|k: Seq<u8>| lock@.holders.contains(k) <==> holders.contains(k)
                }
            }),
    {
        match LockState::from_wire(lock_type, locked_by) {
            Ok(state) => match state.lock_type() {
                LockType::NoLock | LockType::Read | LockType::Write | LockType::Create => Ok(EntryLockState { state }),
                _ => Err(LockStateError::InvalidShape),
            },
            Err(error) => Err(error),
        }
    }
}

/// A lock that permits shared readers or one exclusive writer.
#[derive(Debug, PartialEq, Eq)]
pub struct SharedExclusiveLock {
    state: LockState,
}

impl View for SharedExclusiveLock {
    type V = LockView;

    closed spec fn view(&self) -> LockView {
        self.state@
    }
}

impl Clone for SharedExclusiveLock {
    fn clone(&self) -> (r: Self)
        ensures
            r@ == self@,
    {
        SharedExclusiveLock { state: self.state.clone() }
    }
}

impl Default for SharedExclusiveLock {
    fn default() -> (r: Self)
        ensures
            r@ == LockView::unlocked(),
            r.wf(),
    {
        SharedExclusiveLock { state: LockState::default() }
    }
}

impl SharedExclusiveLock {
    /// The states that this lock can have.
    pub open spec fn wf(&self) -> bool {
        &&& self@.valid()
        &&& self@.typ == LockType::NoLock || self@.typ == LockType::Read || self@.typ == LockType::Write
    }

    /// Returns the held lock type.
    pub fn lock_type(&self) -> (r: LockType)
        ensures
            r == self@.typ,
    {
        self.state.lock_type()
    }

    /// Returns the transactions holding the lock, in ascending order.
    pub fn holders(&self) -> (r: &Vec<TxId>)
        ensures
            crate::ids::tx_views(r@) == self@.holders,
            r@.len() == self@.holders.len(),
    {
        self.state.holders()
    }

    /// Reports whether `id` holds this lock.
    pub fn contains(&self, id: &TxId) -> (r: bool)
        requires
            self.wf(),
        ensures
            r == self@.holders.contains(id@),
    {
        self.state.contains(id)
    }

    /// Makes `id` one of the shared readers.
    pub fn add_reader(&mut self, id: TxId)
        requires
            old(self).wf(),
        ensures
            final(self).wf(),
            final(self)@.typ == LockType::Read,
            forall|k: Seq<u8>|
                final(self)@.holders.contains(k) <==> old(self)@.holders.contains(k) || k == id@,
    {
        self.state.add_reader(id);
    }

    /// Replaces all holders with one exclusive writer.
    pub fn set_writer(&mut self, id: TxId)
        ensures
            final(self).wf(),
            final(self)@ == LockView::exclusive(LockType::Write, id@),
    {
        self.state.set_writer(id);
    }

    /// Removes one holder, unlocking the state when it was the last one.
    pub fn remove(&mut self, id: &TxId) -> (r: bool)
        requires
            old(self).wf(),
        ensures
            final(self).wf(),
            r == old(self)@.holders.contains(id@),
            forall|k: Seq<u8>|
                final(self)@.holders.contains(k) <==> old(self)@.holders.contains(k) && k != id@,
            final(self)@.typ == if final(self)@.holders.len() == 0 {
                LockType::NoLock
            } else {
                old(self)@.typ
            },
            !r ==> final(self)@ == old(self)@,
    {
        self.state.remove(id)
    }

    /// Reports whether no transaction holds this lock.
    pub fn is_empty(&self) -> (r: bool)
        requires
            self.wf(),
        ensures
            r == (self@ == LockView::unlocked()),
    {
        self.state.is_empty()
    }

    /// Removes every holder.
    pub fn clear(&mut self)
        ensures
            final(self).wf(),
            final(self)@ == LockView::unlocked(),
    {
        self.state.clear();
    }

    /// Decodes and validates persisted lock fields.
    pub fn from_wire(lock_type: i32, locked_by: Vec<Vec<u8>>) -> (r: Result<Self, LockStateError>)
        ensures
            ({
                let holders = bytes::views(locked_by@);
                let typ = settled_type(numbered_lock_type(lock_type), holders.len());
                let fits = shape_fits(typ, holders.len()) && (typ == LockType::NoLock || typ == LockType::Read || typ == LockType::Write);
                &&& !holders.no_duplicates() ==> r == Err::<Self, LockStateError>(
                    LockStateError::DuplicateHolder,
                )
                &&& holders.no_duplicates() && !fits ==> r == Err::<Self, LockStateError>(
                    LockStateError::InvalidShape,
                )
                &&& holders.no_duplicates() && fits ==> r is Ok
                &&& r matches Ok(lock) ==> {
                    &&& lock.wf()
                    &&& lock@.typ == typ
                    &&& lock@.holders == arranged(holders)
                    &&& lock@.holders.len() == holders.len()
                    &&& forall|k: Seq<u8>| lock@.holders.contains(k) <==> holders.contains(k)
                }
            }),
    {
        match LockState::from_wire(lock_type, locked_by) {
            Ok(state) => match state.lock_type() {
                LockType::NoLock | LockType::Read | LockType::Write => Ok(SharedExclusiveLock { state }),
                _ => Err(LockStateError::InvalidShape),
            },
            Err(error) => Err(error),
        }
    }
}

/// A gate that is either open or closed by one exclusive writer.
#[derive(Debug, PartialEq, Eq)]
pub struct ExclusiveGate {
    state: LockState,
}

impl View for ExclusiveGate {
    type V = LockView;

    closed spec fn view(&self) -> LockView {
        self.state@
    }
}

impl Clone for ExclusiveGate {
    fn clone(&self) -> (r: Self)
        ensures
            r@ == self@,
    {
        ExclusiveGate { state: self.state.clone() }
    }
}

impl Default for ExclusiveGate {
    fn default() -> (r: Self)
        ensures
            r@ == LockView::unlocked(),
            r.wf(),
    {
        ExclusiveGate { state: LockState::default() }
    }
}

impl ExclusiveGate {
    /// The states that this lock can have.
    pub open spec fn wf(&self) -> bool {
        &&& self@.valid()
        &&& self@.typ == LockType::NoLock || self@.typ == LockType::Write
    }

    /// Returns the held lock type.
    pub fn lock_type(&self) -> (r: LockType)
        ensures
            r == self@.typ,
    {
        self.state.lock_type()
    }

    /// Returns the transactions holding the lock, in ascending order.
    pub fn holders(&self) -> (r: &Vec<TxId>)
        ensures
            crate::ids::tx_views(r@) == self@.holders,
            r@.len() == self@.holders.len(),
    {
        self.state.holders()
    }

    /// Reports whether `id` holds this lock.
    pub fn contains(&self, id: &TxId) -> (r: bool)
        requires
            self.wf(),
        ensures
            r == self@.holders.contains(id@),
    {
        self.state.contains(id)
    }

    /// Returns the transaction holding this gate, if closed.
    pub fn holder(&self) -> (r: Option<&TxId>)
        requires
            self.wf(),
        ensures
            r is Some <==> self@.holders.len() > 0,
            r matches Some(id) ==> self@.holders == seq![id@],
    {
        let holders = self.state.holders();
        if holders.len() == 0 {
            None
        } else {
            proof {
                assert(self@.holders =~= seq![holders@[0]@]);
            }
            Some(&holders[0])
        }
    }

    /// Replaces all holders with one exclusive writer.
    pub fn set_writer(&mut self, id: TxId)
        ensures
            final(self).wf(),
            final(self)@ == LockView::exclusive(LockType::Write, id@),
    {
        self.state.set_writer(id);
    }

    /// Removes one holder, unlocking the state when it was the last one.
    pub fn remove(&mut self, id: &TxId) -> (r: bool)
        requires
            old(self).wf(),
        ensures
            final(self).wf(),
            r == old(self)@.holders.contains(id@),
            forall|k: Seq<u8>|
                final(self)@.holders.contains(k) <==> old(self)@.holders.contains(k) && k != id@,
            final(self)@.typ == if final(self)@.holders.len() == 0 {
                LockType::NoLock
            } else {
                old(self)@.typ
            },
            !r ==> final(self)@ == old(self)@,
    {
        self.state.remove(id)
    }

    /// Reports whether no transaction holds this lock.
    pub fn is_empty(&self) -> (r: bool)
        requires
            self.wf(),
        ensures
            r == (self@ == LockView::unlocked()),
    {
        self.state.is_empty()
    }

    /// Removes every holder.
    pub fn clear(&mut self)
        ensures
            final(self).wf(),
            final(self)@ == LockView::unlocked(),
    {
        self.state.clear();
    }

    /// Decodes and validates persisted lock fields.
    pub fn from_wire(lock_type: i32, locked_by: Vec<Vec<u8>>) -> (r: Result<Self, LockStateError>)
        ensures
            ({
                let holders = bytes::views(locked_by@);
                let typ = settled_type(numbered_lock_type(lock_type), holders.len());
                let fits = shape_fits(typ, holders.len()) && (typ == LockType::NoLock || typ == LockType::Write);
                &&& !holders.no_duplicates() ==> r == Err::<Self, LockStateError>(
                    LockStateError::DuplicateHolder,
                )
                &&& holders.no_duplicates() && !fits ==> r == Err::<Self, LockStateError>(
                    LockStateError::InvalidShape,
                )
                &&& holders.no_duplicates() && fits ==> r is Ok
                &&& r matches Ok(lock) ==> {
                    &&& lock.wf()
                    &&& lock@.typ == typ
                    &&& lock@.holders == arranged(holders)
                    &&& lock@.holders.len() == holders.len()
                    &&& forall|k: Seq<u8>| lock@.holders.contains(k) <==> holders.contains(k)
                }
            }),
    {
        match LockState::from_wire(lock_type, locked_by) {
            Ok(state) => match state.lock_type() {
                LockType::NoLock | LockType::Write => Ok(ExclusiveGate { state }),
                _ => Err(LockStateError::InvalidShape),
            },
            Err(error) => Err(error),
        }
    }
}

/// Law: every lock type reads back from its number, and every other number is of
/// no known type.
pub proof fn law_lock_numbers_read_back(typ: LockType, number: i32)
    ensures
        numbered_lock_type(lock_type_number(typ)) == typ,
        lock_type_number(numbered_lock_type(number)) == if 1 <= number <= 4 {
            number
        } else {
            0
        },
{
}

/// Law: nobody holds a lock that is free, readers share theirs, and a writer's or
/// a creator's has one holder. A lock of no known type fits only when nobody holds
/// it, as a free one.
pub proof fn law_lock_shapes(number: i32, holders: Seq<Seq<u8>>)
    ensures
        ({
            let typ = numbered_lock_type(number);
            lock_of(number, holders) is Some <==> holders.no_duplicates() && match typ {
                LockType::Unknown => holders.len() == 0,
                LockType::NoLock => holders.len() == 0,
                LockType::Read => holders.len() > 0,
                LockType::Write => holders.len() == 1,
                LockType::Create => holders.len() == 1,
            }
        }),
        lock_of(number, holders) matches Some(lock) ==> {
            &&& lock.typ == LockType::NoLock <==> holders.len() == 0
            &&& holders.len() > 0 ==> lock.typ == numbered_lock_type(number)
        },
{
}

} // verus!
