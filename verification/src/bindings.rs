//! Directories of child collections: names bound to incarnations.

use vstd::prelude::*;

use crate::bytes;
use crate::error::StorageError;
use crate::ids::{CollectionId, MAX_COLLECTION_NAME_BYTES};
use crate::proto::{self, PairMessage};
use crate::sorted::{self, Keyed, Stored};
use crate::wire;

verus! {

/// A child collection's name and incarnation.
#[verifier::ext_equal]
pub struct BindingView {
    /// The name.
    pub name: Seq<u8>,
    /// The incarnation.
    pub id: Seq<u8>,
}

impl Keyed for BindingView {
    open spec fn key(&self) -> Seq<u8> {
        self.name
    }
}

/// A child collection's name and incarnation.
#[derive(Debug, PartialEq, Eq)]
pub struct Binding {
    /// The name.
    pub name: Vec<u8>,
    /// The incarnation.
    pub id: CollectionId,
}

impl View for Binding {
    type V = BindingView;

    open spec fn view(&self) -> BindingView {
        BindingView { name: self.name@, id: self.id@ }
    }
}

impl Keyed for Binding {
    open spec fn key(&self) -> Seq<u8> {
        self.name@
    }
}

impl Stored for Binding {
    type Model = BindingView;

    open spec fn model(&self) -> BindingView {
        self@
    }

    proof fn lemma_model(&self) {
        let model = self.model();
        assert(model.key() == model.name);
        assert(model.name == self.name@);
    }

    fn key_bytes(&self) -> (r: &[u8]) {
        self.name.as_slice()
    }
}

/// A name that a child collection can have.
pub open spec fn name_valid(name: Seq<u8>) -> bool {
    0 < name.len() <= MAX_COLLECTION_NAME_BYTES
}

/// What can be wrong with a persisted binding.
#[derive(Clone, Copy, Debug, PartialEq, Eq, Structural)]
pub enum BindingFault {
    /// The name is empty or too long.
    Name,
    /// The incarnation does not have its size.
    Id,
    /// The incarnation is that of the database root.
    Reserved,
    /// The name is bound twice.
    Duplicate,
}

/// The directory that persisted bindings stand for, or what is wrong with the
/// first bad one.
pub open spec fn bindings_of(messages: Seq<proto::PairMessageView>) -> Result<
    Seq<BindingView>,
    BindingFault,
>
    decreases messages.len(),
{
    if messages.len() == 0 {
        Ok(Seq::empty())
    } else {
        match bindings_of(messages.drop_last()) {
            Err(fault) => Err(fault),
            Ok(bindings) => {
                let last = messages.last();
                if !name_valid(last.key) {
                    Err(BindingFault::Name)
                } else if last.id.len() != 16 {
                    Err(BindingFault::Id)
                } else if last.id == crate::ids::root_collection() {
                    Err(BindingFault::Reserved)
                } else if sorted::holds_key(bindings, last.key) {
                    Err(BindingFault::Duplicate)
                } else {
                    Ok(sorted::put(bindings, BindingView { name: last.key, id: last.id }))
                }
            },
        }
    }
}

/// A directory that bindings can form: names in order and valid, incarnations
/// of their size and none that of the database root.
pub open spec fn directory_valid(bindings: Seq<BindingView>) -> bool {
    &&& sorted::sorted(bindings)
    &&& forall|i: int|
        0 <= i < bindings.len() ==> name_valid((#[trigger] bindings[i]).name)
            && bindings[i].id.len() == 16 && bindings[i].id != crate::ids::root_collection()
}

/// The fields of a persisted binding.
pub open spec fn binding_fields(binding: BindingView) -> Seq<wire::FieldView> {
    wire::nonempty(1, binding.name) + wire::nonempty(2, binding.id)
}

/// The bytes of a persisted binding.
pub open spec fn binding_bytes(binding: BindingView) -> Seq<u8> {
    wire::message_bytes(binding_fields(binding))
}

/// The fields of persisted bindings.
pub open spec fn bindings_part(tag: nat, bindings: Seq<BindingView>) -> Seq<wire::FieldView> {
    wire::repeated(tag, bindings.map_values(|b: BindingView| binding_bytes(b)))
}

/// Names of child collections bound to their incarnations, sorted by name.
#[derive(Debug, PartialEq, Eq)]
pub struct Bindings {
    list: Vec<Binding>,
}

impl View for Bindings {
    type V = Seq<BindingView>;

    closed spec fn view(&self) -> Seq<BindingView> {
        sorted::models(self.list@)
    }
}

impl Clone for Bindings {
    fn clone(&self) -> (r: Self)
        ensures
            r@ == self@,
    {
        let mut list: Vec<Binding> = Vec::new();
        let mut i: usize = 0;
        while i < self.list.len()
            invariant
                i <= self.list@.len(),
                list@.len() == i,
                forall|k: int| 0 <= k < i ==> (#[trigger] list@[k])@ == self.list@[k]@,
            decreases self.list@.len() - i,
        {
            list.push(
                Binding { name: bytes::copy(self.list[i].name.as_slice()), id: self.list[i].id },
            );
            i = i + 1;
        }
        let r = Bindings { list };
        proof {
            assert(r@ =~= self@);
        }
        r
    }
}

impl Default for Bindings {
    fn default() -> (r: Self)
        ensures
            r.wf(),
            r@ == Seq::<BindingView>::empty(),
    {
        let r = Bindings { list: Vec::new() };
        proof {
            assert(r@ =~= Seq::<BindingView>::empty());
        }
        r
    }
}

/// Putting a valid binding keeps a directory valid.
proof fn lemma_put_valid(bindings: Seq<BindingView>, binding: BindingView)
    requires
        directory_valid(bindings),
        name_valid(binding.name),
        binding.id.len() == 16,
        binding.id != crate::ids::root_collection(),
    ensures
        directory_valid(sorted::put(bindings, binding)),
{
    let (i, j) = sorted::lemma_place(bindings, binding.name);
    sorted::lemma_stands_at(bindings, binding.name, i, j);
    sorted::lemma_put(bindings, binding);
    let r = sorted::put(bindings, binding);
    assert forall|k: int| 0 <= k < r.len() implies name_valid((#[trigger] r[k]).name)
        && r[k].id.len() == 16 && r[k].id != crate::ids::root_collection() by {
        if k < i {
            assert(r[k] == bindings[k]);
        } else if k > i {
            assert(r[k] == bindings[k - 1 - i + j]);
        }
    }
}

/// Dropping a binding keeps a directory valid.
proof fn lemma_drop_valid(bindings: Seq<BindingView>, name: Seq<u8>)
    requires
        directory_valid(bindings),
    ensures
        directory_valid(sorted::drop(bindings, name)),
{
    let (i, j) = sorted::lemma_place(bindings, name);
    sorted::lemma_stands_at(bindings, name, i, j);
    sorted::lemma_drop(bindings, name);
    let r = sorted::drop(bindings, name);
    assert forall|k: int| 0 <= k < r.len() implies name_valid((#[trigger] r[k]).name)
        && r[k].id.len() == 16 && r[k].id != crate::ids::root_collection() by {
        if k < i {
            assert(r[k] == bindings[k]);
        } else {
            assert(r[k] == bindings[k - i + j]);
        }
    }
}

impl Bindings {
    /// The directory is one that bindings can form.
    pub open spec fn wf(&self) -> bool {
        directory_valid(self@)
    }

    /// Returns the incarnation bound to a name.
    pub fn child(&self, name: &[u8]) -> (r: Option<CollectionId>)
        requires
            self.wf(),
        ensures
            match sorted::get(self@, name@) {
                Some(binding) => r matches Some(id) && id@ == binding.id,
                None => r is None,
            },
    {
        proof {
            sorted::lemma_models(self.list@);
        }
        match sorted::locate(&self.list, name) {
            Ok(i) => {
                proof {
                    sorted::lemma_models_place(self.list@, name@, i as int, i + 1);
                    sorted::lemma_stands_at(self@, name@, i as int, i + 1);
                }
                Some(self.list[i].id)
            },
            Err(i) => {
                proof {
                    sorted::lemma_models_place(self.list@, name@, i as int, i as int);
                    sorted::lemma_stands_at(self@, name@, i as int, i as int);
                }
                None
            },
        }
    }

    /// Adds a valid binding, returning whether the name was vacant.
    pub fn add_child(&mut self, name: Vec<u8>, id: CollectionId) -> (r: Result<bool, StorageError>)
        requires
            old(self).wf(),
        ensures
            final(self).wf(),
            added(old(self)@, final(self)@, name@, id@, r),
    {
        if name.len() == 0 || name.len() > MAX_COLLECTION_NAME_BYTES {
            return Err(StorageError::other("invalid child collection name"));
        }
        if id.is_root() {
            return Err(
                StorageError::other("a child cannot use the reserved root collection ID"),
            );
        }
        proof {
            sorted::lemma_models(self.list@);
        }
        if sorted::contains(&self.list, name.as_slice()) {
            return Ok(false);
        }
        let binding = Binding { name, id };
        proof {
            CollectionId::lemma_view(id, id);
            lemma_put_valid(self@, binding@);
        }
        sorted::insert(&mut self.list, binding);
        Ok(true)
    }

    /// Removes a binding, returning its former incarnation.
    pub fn remove_child(&mut self, name: &[u8]) -> (r: Option<CollectionId>)
        requires
            old(self).wf(),
        ensures
            final(self).wf(),
            final(self)@ == sorted::drop(old(self)@, name@),
            match sorted::get(old(self)@, name@) {
                Some(binding) => r matches Some(id) && id@ == binding.id,
                None => r is None,
            },
    {
        proof {
            sorted::lemma_models(self.list@);
            sorted::lemma_models_drop(self.list@, name@);
            lemma_drop_valid(self@, name@);
        }
        match sorted::remove(&mut self.list, name) {
            Some(binding) => Some(binding.id),
            None => None,
        }
    }

    /// Returns the bindings in name order.
    pub fn list(&self) -> (r: &Vec<Binding>)
        ensures
            sorted::models(r@) == self@,
            r@.len() == self@.len(),
    {
        &self.list
    }

    /// Appends the bindings as a repeated field.
    pub fn encode_into(&self, buf: &mut Vec<u8>, tag: u32)
        requires
            tag < 0x2000_0000,
        ensures
            final(buf)@ == old(buf)@ + wire::message_bytes(bindings_part(tag as nat, self@)),
    {
        let ghost was = buf@;
        let ghost all = bindings_part(tag as nat, self@);
        let mut i: usize = 0;
        proof {
            assert(all.take(0) =~= Seq::<wire::FieldView>::empty());
            assert(was + wire::message_bytes(all.take(0)) =~= was);
        }
        while i < self.list.len()
            invariant
                i <= self.list@.len(),
                tag < 0x2000_0000,
                all == bindings_part(tag as nat, self@),
                buf@ == was + wire::message_bytes(all.take(i as int)),
            decreases self.list@.len() - i,
        {
            let binding = encode_binding(&self.list[i]);
            wire::put_bytes(buf, tag, binding.as_slice());
            proof {
                let now = all.take(i + 1);
                assert(now.drop_last() =~= all.take(i as int));
                assert(now.last() == wire::bytes_field(tag as nat, binding@));
                assert(buf@ =~= was + wire::message_bytes(now));
            }
            i = i + 1;
        }
        proof {
            assert(all.take(i as int) =~= all);
        }
    }

    /// Builds a directory from persisted bindings.
    pub fn from_messages(messages: &Vec<PairMessage>) -> (r: Result<Self, BindingFault>)
        ensures
            match bindings_of(proto::pair_message_views(messages@)) {
                Ok(bindings) => r matches Ok(found) && found@ == bindings && found.wf(),
                Err(fault) => r == Err::<Self, BindingFault>(fault),
            },
    {
        let mut bindings = Bindings::default();
        let mut i: usize = 0;
        let ghost all = proto::pair_message_views(messages@);
        proof {
            assert(all.take(0) =~= Seq::<proto::PairMessageView>::empty());
        }
        while i < messages.len()
            invariant
                i <= messages@.len(),
                all == proto::pair_message_views(messages@),
                bindings.wf(),
                bindings_of(all.take(i as int)) == Ok::<Seq<BindingView>, BindingFault>(
                    bindings@,
                ),
            decreases messages@.len() - i,
        {
            proof {
                assert(all.take(i + 1).drop_last() =~= all.take(i as int));
                assert(all.take(i + 1).last() == messages@[i as int]@);
                if bindings_of(all.take(i + 1)) is Err {
                    lemma_bindings_fail(all, i + 1);
                }
                sorted::lemma_models(bindings.list@);
            }
            let name = bytes::copy(messages[i].key.as_slice());
            if name.len() == 0 || name.len() > MAX_COLLECTION_NAME_BYTES {
                return Err(BindingFault::Name);
            }
            let id = match CollectionId::from_slice(messages[i].id.as_slice()) {
                None => {
                    return Err(BindingFault::Id);
                },
                Some(id) => id,
            };
            if id.is_root() {
                return Err(BindingFault::Reserved);
            }
            if sorted::contains(&bindings.list, name.as_slice()) {
                return Err(BindingFault::Duplicate);
            }
            let binding = Binding { name, id };
            proof {
                lemma_put_valid(bindings@, binding@);
            }
            sorted::insert(&mut bindings.list, binding);
            i = i + 1;
        }
        proof {
            assert(all.take(i as int) =~= all);
        }
        Ok(bindings)
    }
}

/// What adding a binding does to a directory.
pub open spec fn added(
    before: Seq<BindingView>,
    after: Seq<BindingView>,
    name: Seq<u8>,
    id: Seq<u8>,
    r: Result<bool, StorageError>,
) -> bool {
    if !name_valid(name) {
        &&& r matches Err(error)
        &&& error.says("invalid child collection name"@)
        &&& after == before
    } else if id == crate::ids::root_collection() {
        &&& r matches Err(error)
        &&& error.says("a child cannot use the reserved root collection ID"@)
        &&& after == before
    } else if sorted::holds_key(before, name) {
        &&& r matches Ok(vacant)
        &&& !vacant
        &&& after == before
    } else {
        &&& r matches Ok(vacant)
        &&& vacant
        &&& after == sorted::put(before, BindingView { name, id })
    }
}

/// The first bad binding decides.
proof fn lemma_bindings_fail(messages: Seq<proto::PairMessageView>, n: int)
    requires
        0 <= n <= messages.len(),
        bindings_of(messages.take(n)) is Err,
    ensures
        bindings_of(messages) == bindings_of(messages.take(n)),
    decreases messages.len(),
{
    if n == messages.len() {
        assert(messages.take(n) =~= messages);
    } else {
        assert(messages.drop_last().take(n) =~= messages.take(n));
        lemma_bindings_fail(messages.drop_last(), n);
    }
}

/// Encodes a binding.
fn encode_binding(binding: &Binding) -> (r: Vec<u8>)
    ensures
        r@ == binding_bytes(binding@),
{
    let mut buf: Vec<u8> = Vec::new();
    wire::put_nonempty(&mut buf, 1, binding.name.as_slice());
    wire::put_nonempty(&mut buf, 2, binding.id.as_bytes());
    proof {
        wire::lemma_message_concat(
            wire::nonempty(1, binding@.name),
            wire::nonempty(2, binding@.id),
        );
        assert(buf@ =~= binding_bytes(binding@));
    }
    buf
}

/// A binding as persisted.
pub open spec fn binding_to_message(binding: BindingView) -> proto::PairMessageView {
    proto::PairMessageView { key: binding.name, id: binding.id }
}

/// A binding reads back.
proof fn lemma_binding_message(binding: BindingView, depth: nat)
    requires
        binding_bytes(binding).len() <= u64::MAX,
    ensures
        wire::parse_fields(binding_bytes(binding), depth) == Some(binding_fields(binding)),
        proto::pair_message(binding_fields(binding)) == Some(binding_to_message(binding)),
{
    let fields = binding_fields(binding);
    let a = wire::nonempty(1, binding.name);
    let b = wire::nonempty(2, binding.id);
    wire::lemma_nonempty(1, binding.name);
    wire::lemma_nonempty(2, binding.id);
    wire::lemma_writable_concat(a, b);
    wire::law_written_message_is_read(fields, depth);
    wire::lemma_in_front(a, 1, wire::bytes_values(binding.name), b);
    wire::lemma_carries(b, 2, wire::bytes_values(binding.id), 1);
    wire::lemma_carries(b, 2, wire::bytes_values(binding.id), 2);
    assert(wire::occurrences(fields, 1) =~= wire::bytes_values(binding.name));
    assert(wire::occurrences(fields, 2) =~= wire::bytes_values(binding.id));
}

/// Bindings read back one after the other.
pub proof fn lemma_binding_messages(bindings: Seq<BindingView>, depth: nat)
    requires
        forall|i: int| 0 <= i < bindings.len() ==> #[trigger] binding_bytes(bindings[i]).len()
            <= u64::MAX,
    ensures
        proto::pair_messages(bindings.map_values(|b: BindingView| binding_bytes(b)), depth) == Some(
            bindings.map_values(|b: BindingView| binding_to_message(b)),
        ),
    decreases bindings.len(),
{
    let payloads = bindings.map_values(|b: BindingView| binding_bytes(b));
    let messages = bindings.map_values(|b: BindingView| binding_to_message(b));
    if bindings.len() == 0 {
        assert(messages =~= Seq::<proto::PairMessageView>::empty());
    } else {
        let rest = bindings.drop_last();
        let last = bindings.last();
        assert forall|i: int| 0 <= i < rest.len() implies #[trigger] binding_bytes(rest[i]).len()
            <= u64::MAX by {
            assert(binding_bytes(bindings[i]).len() <= u64::MAX);
        }
        lemma_binding_messages(rest, depth);
        assert(payloads.drop_last() =~= rest.map_values(|b: BindingView| binding_bytes(b)));
        assert(binding_bytes(bindings[bindings.len() - 1]).len() <= u64::MAX);
        lemma_binding_message(last, depth);
        assert(payloads.last() == binding_bytes(last));
        assert(messages =~= rest.map_values(|b: BindingView| binding_to_message(b)).push(
            binding_to_message(last),
        ));
    }
}

/// What a valid directory is persisted as stands for the directory.
pub proof fn lemma_bindings_of(bindings: Seq<BindingView>)
    requires
        directory_valid(bindings),
    ensures
        bindings_of(bindings.map_values(|b: BindingView| binding_to_message(b))) == Ok::<
            Seq<BindingView>,
            BindingFault,
        >(bindings),
    decreases bindings.len(),
{
    let messages = bindings.map_values(|b: BindingView| binding_to_message(b));
    if bindings.len() == 0 {
        assert(bindings =~= Seq::<BindingView>::empty());
    } else {
        let rest = bindings.drop_last();
        let last = bindings.last();
        let n = rest.len() as int;
        assert forall|i: int, j: int| 0 <= i < j < rest.len() implies bytes::lt(
            rest[i].key(),
            rest[j].key(),
        ) by {
            assert(bytes::lt(bindings[i].key(), bindings[j].key()));
        }
        assert forall|i: int| 0 <= i < rest.len() implies name_valid((#[trigger] rest[i]).name)
            && rest[i].id.len() == 16 && rest[i].id != crate::ids::root_collection() by {
            assert(rest[i] == bindings[i]);
        }
        lemma_bindings_of(rest);
        assert(messages.drop_last() =~= rest.map_values(|b: BindingView| binding_to_message(b)));
        assert(bindings[n] == last);
        assert(messages.last() == binding_to_message(last));
        assert(sorted::stands_at(rest, last.name, n, n)) by {
            assert forall|k: int| 0 <= k < n implies bytes::lt(
                (#[trigger] rest[k]).key(),
                last.name,
            ) by {
                assert(bytes::lt(bindings[k].key(), bindings[n].key()));
            }
        }
        sorted::lemma_stands_at(rest, last.name, n, n);
        assert(sorted::put(rest, last) =~= bindings);
        assert(last == (BindingView { name: last.name, id: last.id }));
    }
}

/// Law: a child that was added is found under its name, and no other child is
/// changed. It is added just when its name is valid and free, and its identifier
/// is not the reserved one.
pub proof fn law_added_child_is_found(
    before: Seq<BindingView>,
    after: Seq<BindingView>,
    name: Seq<u8>,
    id: Seq<u8>,
    r: Result<bool, StorageError>,
    other: Seq<u8>,
)
    requires
        sorted::sorted(before),
        added(before, after, name, id, r),
    ensures
        r == Ok::<bool, StorageError>(true) ==> {
            &&& sorted::get(after, name) == Some(BindingView { name, id })
            &&& sorted::get(before, name) is None
            &&& other != name ==> sorted::get(after, other) == sorted::get(before, other)
        },
        r == Ok::<bool, StorageError>(false) ==> after == before && sorted::get(before, name)
            is Some,
        r is Err ==> after == before,
        r is Err <==> name.len() == 0 || name.len() > MAX_COLLECTION_NAME_BYTES || id
            == bytes::zeros(16),
{
    let binding = BindingView { name, id };
    assert(binding.key() == name);
    sorted::lemma_put(before, binding);
    let (i, j) = sorted::lemma_place(before, name);
    sorted::lemma_stands_at(before, name, i, j);
}

/// Law: a directory reads as its entries: each name is bound to the identifier
/// that was read with it, and no other name is bound.
pub proof fn law_read_directory_binds_its_entries(
    messages: Seq<proto::PairMessageView>,
    name: Seq<u8>,
)
    requires
        bindings_of(messages) is Ok,
    ensures
        sorted::sorted(bindings_of(messages)->Ok_0),
        forall|i: int|
            0 <= i < messages.len() && (#[trigger] messages[i]).key == name ==> sorted::get(
                bindings_of(messages)->Ok_0,
                name,
            ) == Some(BindingView { name, id: messages[i].id }),
        sorted::holds_key(bindings_of(messages)->Ok_0, name) ==> exists|i: int|
            0 <= i < messages.len() && (#[trigger] messages[i]).key == name,
    decreases messages.len(),
{
    if messages.len() > 0 {
        let rest = messages.drop_last();
        let last = messages.last();
        law_read_directory_binds_its_entries(rest, name);
        law_read_directory_binds_its_entries(rest, last.key);
        let before = bindings_of(rest)->Ok_0;
        let binding = BindingView { name: last.key, id: last.id };
        assert(binding.key() == last.key);
        sorted::lemma_put(before, binding);
        assert(messages[messages.len() - 1] == last);
        assert forall|i: int|
            0 <= i < messages.len() && (#[trigger] messages[i]).key == name implies sorted::get(
            bindings_of(messages)->Ok_0,
            name,
        ) == Some(BindingView { name, id: messages[i].id }) by {
            if i < rest.len() {
                assert(rest[i] == messages[i]);
                if name == last.key {
                    let (a, b) = sorted::lemma_place(before, name);
                    sorted::lemma_stands_at(before, name, a, b);
                }
            }
        }
        if sorted::holds_key(bindings_of(messages)->Ok_0, name) && name != last.key {
            let i = choose|i: int| 0 <= i < rest.len() && (#[trigger] rest[i]).key == name;
            assert(messages[i].key == name);
        }
    } else {
        assert(!sorted::holds_key(Seq::<BindingView>::empty(), name));
    }
}

} // verus!
