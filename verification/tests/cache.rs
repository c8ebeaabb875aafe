use glassdb_storage::cache::{replace_weight, shard_index, Cache, CacheShard, Weighable, SHARD_COUNT};

#[derive(Clone, PartialEq, Debug)]
struct TestEntry(String);

impl Weighable for TestEntry {
    fn weight(&self) -> usize {
        self.0.len()
    }

    fn size(&self) -> usize {
        self.0.len()
    }
}

#[derive(Clone, Copy, PartialEq, Debug)]
struct WeightedEntry(usize);

impl Weighable for WeightedEntry {
    fn weight(&self) -> usize {
        self.0
    }

    fn size(&self) -> usize {
        self.0
    }
}

fn e(s: &str) -> TestEntry {
    TestEntry(s.to_string())
}

// The behavior tests drive a single shard directly.
#[test]
fn get_set() {
    let mut c = CacheShard::new(100);
    assert_eq!(c.size(), 0);
    c.set("a", e("foo"));
    assert_eq!(c.get("a"), Some(e("foo")));
    assert_eq!(c.size(), 3);
    c.set("a", e("barbaz"));
    assert_eq!(c.get("a"), Some(e("barbaz")));
    assert_eq!(c.size(), 6);
}

#[test]
fn delete() {
    let mut c = CacheShard::new(100);
    c.set("k1", e("k1"));
    c.set("k2", e("k2"));
    assert_eq!(c.size(), 4);
    c.delete("k1");
    assert_eq!(c.get("k1"), None);
    assert!(c.get("k2").is_some());
    assert_eq!(c.size(), 2);
}

#[test]
fn update_existing() {
    let mut c = CacheShard::new(100);
    c.set("a", e("foo"));
    assert_eq!(c.size(), 3);
    c.update("a", |_| Some(e("barbaz")));
    assert_eq!(c.get("a"), Some(e("barbaz")));
    assert_eq!(c.size(), 6);
    c.update("a", |_| Some(e("x")));
    assert_eq!(c.get("a"), Some(e("x")));
    assert_eq!(c.size(), 1);
}

#[test]
fn update_new() {
    let mut c = CacheShard::new(100);
    c.update("a", |old: Option<TestEntry>| {
        assert!(old.is_none());
        Some(e("bar"))
    });
    assert_eq!(c.get("a"), Some(e("bar")));
    assert_eq!(c.size(), 3);
}

#[test]
fn update_delete() {
    let mut c = CacheShard::new(100);
    c.set("a", e("foo"));
    c.update("a", |_| None);
    assert_eq!(c.get("a"), None);
    assert_eq!(c.size(), 0);
}

#[test]
fn update_nope() {
    let mut c: CacheShard<TestEntry> = CacheShard::new(100);
    c.update("a", |old: Option<TestEntry>| {
        assert!(old.is_none());
        None
    });
    assert_eq!(c.size(), 0);
}

#[test]
fn update_with_result_updates_and_returns() {
    let mut c = CacheShard::new(100);
    c.set("a", e("before"));

    let previous = c.update_with_result("a", |old| (Some(e("after")), old));

    assert_eq!(previous, Some(e("before")));
    assert_eq!(c.get("a"), Some(e("after")));
}

#[test]
fn evicts_lru() {
    // Budget for two 3-byte entries.
    let mut c = CacheShard::new(6);
    c.set("a", e("aaa"));
    c.set("b", e("bbb"));
    assert_eq!(c.size(), 6);
    // Adding a third entry evicts the least recently used ("a").
    c.set("c", e("ccc"));
    assert_eq!(c.get("a"), None);
    assert!(c.get("b").is_some());
    assert!(c.get("c").is_some());
    assert_eq!(c.size(), 6);
}

#[test]
fn never_evicts_sole_entry() {
    // A single entry larger than the budget is kept (bounded overshoot).
    let mut c = CacheShard::new(2);
    c.set("a", e("aaaa"));
    assert_eq!(c.get("a"), Some(e("aaaa")));
    assert_eq!(c.size(), 4);
}

#[test]
fn accounts_for_usize_max_weight() {
    let mut c = CacheShard::new(usize::MAX);

    c.set("a", WeightedEntry(usize::MAX));
    assert_eq!(c.get("a"), Some(WeightedEntry(usize::MAX)));
    assert_eq!(c.size(), usize::MAX);

    c.set("a", WeightedEntry(1));
    assert_eq!(c.size(), 1);
    c.delete("a");
    assert_eq!(c.size(), 0);
}

#[test]
fn multi_entry_overflow_recomputes_remaining_weight() {
    let mut c = CacheShard::new(usize::MAX);
    c.set("oldest", WeightedEntry(usize::MAX - 2));
    c.set("middle", WeightedEntry(1));

    c.set("newest", WeightedEntry(2));

    assert_eq!(c.get("oldest"), None);
    assert_eq!(c.get("middle"), Some(WeightedEntry(1)));
    assert_eq!(c.get("newest"), Some(WeightedEntry(2)));
    assert_eq!(c.size(), 3);
}

#[test]
fn overflow_keeps_evicting_until_remaining_weight_fits() {
    let mut c = CacheShard::new(usize::MAX);
    c.set("oldest", WeightedEntry(1));
    c.set("middle", WeightedEntry(usize::MAX - 1));

    c.set("newest", WeightedEntry(2));

    assert_eq!(c.get("oldest"), None);
    assert_eq!(c.get("middle"), None);
    assert_eq!(c.get("newest"), Some(WeightedEntry(2)));
    assert_eq!(c.size(), 2);
}

// Returns `count` distinct keys that hash to the given shard.
fn keys_for_shard(target: usize, n: usize, count: usize) -> Vec<String> {
    let mut res = Vec::new();
    let mut i = 0;
    while res.len() < count {
        let k = format!("k{i}");
        if shard_index(k.as_bytes(), n) == target {
            res.push(k);
        }
        i += 1;
    }
    res
}

#[test]
fn sharded() {
    let n = SHARD_COUNT;
    // Per-shard budget of exactly 6 bytes.
    let mut c = Cache::new(6 * n);

    // Two distinct keys in shard 0 and one in shard 1.
    let s0 = keys_for_shard(0, n, 2);
    let s1 = keys_for_shard(1, n, 1);

    // Routing across shards and size summation.
    c.set(&s0[0], e("aaa")); // 3 bytes in shard 0
    c.set(&s1[0], e("bbb")); // 3 bytes in shard 1
    assert_eq!(c.size(), 6);

    // Overflowing shard 0 only evicts within shard 0; shard 1 is untouched.
    c.set(&s0[1], e("cccc")); // 4 bytes pushes shard 0 to 7 > 6
    assert_eq!(
        c.get(&s0[0]),
        None,
        "least recently used entry in shard 0 should be evicted"
    );
    assert!(c.get(&s0[1]).is_some());
    assert!(
        c.get(&s1[0]).is_some(),
        "entry in shard 1 must be unaffected by shard 0 eviction"
    );
}

#[test]
fn a_hit_makes_an_entry_the_most_recent() {
    let mut c = CacheShard::new(6);
    c.set("a", e("aaa"));
    c.set("b", e("bbb"));
    assert!(c.get("a").is_some());
    c.set("c", e("ccc"));
    assert_eq!(c.get("b"), None);
    assert_eq!(c.get("a"), Some(e("aaa")));
}

#[test]
fn an_overwritten_entry_becomes_the_most_recent() {
    let mut c = CacheShard::new(6);
    c.set("a", e("aaa"));
    c.set("b", e("bbb"));
    c.set("a", e("xxx"));
    c.set("c", e("ccc"));
    assert_eq!(c.get("b"), None);
    assert_eq!(c.get("a"), Some(e("xxx")));
}

#[test]
fn replacing_a_weight_reports_overflow() {
    let fits = replace_weight(10, 4, 3);
    assert_eq!(fits.size, 9);
    assert!(!fits.overflowed);
    let over = replace_weight(usize::MAX, 1, 3);
    assert!(over.overflowed);
}

#[test]
fn keys_hash_like_fnv_1a() {
    // 32-bit and 64-bit reference values of the empty and one-byte inputs.
    assert_eq!(shard_index(b"", 1000), (0xcbf2_9ce4_8422_2325u64 % 1000) as usize);
    assert_eq!(shard_index(b"a", 1000), (0xaf63_dc4c_8601_ec8cu64 % 1000) as usize);
}
