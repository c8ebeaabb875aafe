use glassdb_storage::ids::TxId;
use glassdb_storage::inline::InlinePolicy;
use glassdb_storage::leaf::{CurrentState, LeafEntry};

fn inline_entry(key: &[u8], len: usize) -> LeafEntry {
    LeafEntry::new(key).with_current(CurrentState::Inline {
        writer: TxId::with_priority(1, key),
        value: vec![0u8; len],
    })
}

#[test]
fn a_value_over_the_per_value_budget_is_never_admitted() {
    let policy = InlinePolicy {
        max_value_bytes: 8,
        max_leaf_bytes: 1024,
    };
    assert!(policy.admits(&[], b"k", 8));
    assert!(!policy.admits(&[], b"k", 9));
}

#[test]
fn the_leaf_budget_counts_every_other_entry() {
    let policy = InlinePolicy {
        max_value_bytes: 100,
        max_leaf_bytes: 30,
    };
    let leaf = [inline_entry(b"a", 10), inline_entry(b"b", 10)];

    assert!(policy.admits(&leaf, b"c", 10));
    assert!(!policy.admits(&leaf, b"c", 11));
}

#[test]
fn the_empty_policy_admits_nothing() {
    let policy = InlinePolicy::none();

    assert!(!policy.admits(&[], b"k", 0));
    assert!(!policy.admits(&[], b"k", 1));
}

#[test]
fn a_keys_own_inline_payload_is_replaced_not_added() {
    let policy = InlinePolicy {
        max_value_bytes: 100,
        max_leaf_bytes: 20,
    };
    let leaf = [inline_entry(b"a", 10), inline_entry(b"b", 10)];

    assert!(policy.admits(&leaf, b"b", 10));
    assert!(!policy.admits(&leaf, b"b", 11));
}

#[test]
fn smaller_values_are_admitted_too() {
    let policy = InlinePolicy::default();
    let leaf = [inline_entry(b"a", 100)];
    let mut largest = 0;
    for len in 0..5000 {
        if policy.admits(&leaf, b"k", len) {
            assert_eq!(largest + 1, len + 1);
            largest = len + 1;
        }
    }
    assert!(largest > 0);
}
