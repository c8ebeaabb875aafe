//! Budgets bounding how much committed value data leaf entries carry inline.

use vstd::prelude::*;

use crate::bytes;
use crate::leaf::{self, EntryView, LeafEntry};
use crate::sorted;

verus! {

/// How much committed value data a leaf may carry inline.
///
/// Both budgets are admission-only: a value that misses either is published as
/// an external pointer. Values already inline stay when a budget is lowered,
/// because an inline value may be a key's only copy.
#[derive(Debug, Clone, Copy, PartialEq, Eq)]
pub struct InlinePolicy {
    /// Largest value that may be inlined at all.
    pub max_value_bytes: usize,
    /// Largest aggregate inline payload one leaf may carry.
    pub max_leaf_bytes: usize,
}

impl Default for InlinePolicy {
    fn default() -> (r: Self)
        ensures
            r.max_value_bytes == 1024,
            r.max_leaf_bytes == 65536,
    {
        InlinePolicy { max_value_bytes: 1024, max_leaf_bytes: 65536 }
    }
}

/// The inline payload of the entries with other keys.
pub open spec fn others_payload(entries: Seq<EntryView>, key: Seq<u8>) -> nat
    decreases entries.len(),
{
    if entries.len() == 0 {
        0
    } else {
        others_payload(entries.drop_last(), key) + if entries.last().key == key {
            0
        } else {
            leaf::inline_size(entries.last().current)
        }
    }
}

/// The first entries carry no more than all of them.
proof fn lemma_payload_prefix(entries: Seq<EntryView>, key: Seq<u8>, n: int)
    requires
        0 <= n <= entries.len(),
    ensures
        others_payload(entries.take(n), key) <= others_payload(entries, key),
    decreases entries.len() - n,
{
    if n < entries.len() {
        lemma_payload_prefix(entries, key, n + 1);
        assert(entries.take(n + 1).drop_last() =~= entries.take(n));
    } else {
        assert(entries.take(n) =~= entries);
    }
}

impl InlinePolicy {
    /// Returns the policy that admits nothing, so every value is published as
    /// an external pointer.
    pub fn none() -> (r: Self)
        ensures
            r.max_value_bytes == 0,
            r.max_leaf_bytes == 0,
    {
        InlinePolicy { max_value_bytes: 0, max_leaf_bytes: 0 }
    }

    /// Reports whether `value_len` bytes may be inlined for `key` in a leaf
    /// holding `leaf`. The key's own inline payload is replaced rather than
    /// added to. A zero per-value budget admits not even an empty value.
    pub fn admits(&self, leaf: &[LeafEntry], key: &[u8], value_len: usize) -> (r: bool)
        ensures
            r == (self.max_value_bytes > 0 && value_len <= self.max_value_bytes && others_payload(
                sorted::models(leaf@),
                key@,
            ) + value_len <= self.max_leaf_bytes),
    {
        if self.max_value_bytes == 0 || value_len > self.max_value_bytes || value_len
            > self.max_leaf_bytes {
            return false;
        }
        let ghost all = sorted::models(leaf@);
        let room: usize = self.max_leaf_bytes - value_len;
        let mut others: usize = 0;
        let mut i: usize = 0;
        proof {
            assert(all.take(0) =~= Seq::<EntryView>::empty());
        }
        while i < leaf.len()
            invariant
                i <= leaf@.len(),
                all == sorted::models(leaf@),
                room == self.max_leaf_bytes - value_len,
                others == others_payload(all.take(i as int), key@),
                others <= room,
            decreases leaf@.len() - i,
        {
            proof {
                assert(all.take(i + 1).drop_last() =~= all.take(i as int));
                assert(all.take(i + 1).last() == leaf@[i as int]@);
                lemma_payload_prefix(all, key@, i + 1);
            }
            if !bytes::same(leaf[i].key.as_slice(), key) {
                let more: usize = leaf[i].current.inline_len();
                if more > room - others {
                    return false;
                }
                others = others + more;
            }
            i = i + 1;
        }
        proof {
            assert(all.take(i as int) =~= all);
        }
        true
    }
}

/// Law: overwriting an inline value with one of the same size or a smaller one
/// is admitted wherever the larger one was.
pub proof fn law_smaller_values_are_admitted(
    policy: InlinePolicy,
    entries: Seq<EntryView>,
    key: Seq<u8>,
    value_len: nat,
    smaller: nat,
)
    requires
        smaller <= value_len,
        policy.max_value_bytes > 0 && value_len <= policy.max_value_bytes && others_payload(
            entries,
            key,
        ) + value_len <= policy.max_leaf_bytes,
    ensures
        policy.max_value_bytes > 0 && smaller <= policy.max_value_bytes && others_payload(
            entries,
            key,
        ) + smaller <= policy.max_leaf_bytes,
{
}

/// Law: only the inline values of other keys count against the leaf's budget: the
/// value that is replaced does not, nor does one that stands elsewhere.
pub proof fn law_other_inline_values_count(
    entries: Seq<EntryView>,
    entry: EntryView,
    key: Seq<u8>,
)
    ensures
        others_payload(Seq::empty(), key) == 0,
        others_payload(entries.push(entry), key) == others_payload(entries, key) + (
        match entry.current {
            leaf::CurrentView::Inline { value, .. } => if entry.key == key {
                0
            } else {
                value.len()
            },
            _ => 0,
        }),
{
    assert(entries.push(entry).drop_last() =~= entries);
}

} // verus!
