//! Byte strings: lexicographic order, equality, copying and padding.

use vstd::prelude::*;

verus! {

/// The byte strings agree before `n`, and at `n` the first one ends or holds
/// the smaller byte.
pub open spec fn lt_at(a: Seq<u8>, b: Seq<u8>, n: int) -> bool {
    &&& 0 <= n <= a.len()
    &&& n < b.len()
    &&& forall|i: int| 0 <= i < n ==> a[i] == b[i]
    &&& n < a.len() ==> a[n] < b[n]
}

/// Lexicographic order on byte strings.
#[verifier::opaque]
pub open spec fn lt(a: Seq<u8>, b: Seq<u8>) -> bool {
    exists|n: int| lt_at(a, b, n)
}

/// Lexicographic order or equality.
pub open spec fn le(a: Seq<u8>, b: Seq<u8>) -> bool {
    a == b || lt(a, b)
}

/// No byte string precedes itself.
pub proof fn lemma_lt_irreflexive(a: Seq<u8>)
    ensures
        !lt(a, a),
{
    reveal(lt);
    if lt(a, a) {
        let n = choose|n: int| lt_at(a, a, n);
        assert(lt_at(a, a, n));
    }
}

/// Lexicographic order is transitive.
pub proof fn lemma_lt_transitive(a: Seq<u8>, b: Seq<u8>, c: Seq<u8>)
    requires
        lt(a, b),
        lt(b, c),
    ensures
        lt(a, c),
{
    reveal(lt);
    let n = choose|n: int| lt_at(a, b, n);
    let m = choose|m: int| lt_at(b, c, m);
    assert(lt_at(a, b, n) && lt_at(b, c, m));
    let k = if n <= m { n } else { m };
    assert forall|i: int| 0 <= i < k implies a[i] == c[i] by {
        assert(a[i] == b[i]);
        assert(b[i] == c[i]);
    }
    assert(lt_at(a, c, k));
}

/// Two byte strings cannot precede each other.
pub proof fn lemma_lt_asymmetric(a: Seq<u8>, b: Seq<u8>)
    requires
        lt(a, b),
    ensures
        !lt(b, a),
        a != b,
{
    if lt(b, a) {
        lemma_lt_transitive(a, b, a);
    }
    lemma_lt_irreflexive(a);
}

/// `lt` followed by `le` is `lt`.
pub proof fn lemma_lt_le_transitive(a: Seq<u8>, b: Seq<u8>, c: Seq<u8>)
    requires
        lt(a, b),
        le(b, c),
    ensures
        lt(a, c),
{
    if b != c {
        lemma_lt_transitive(a, b, c);
    }
}

/// Not exceeding, then preceding, is preceding.
pub proof fn lemma_le_lt_transitive(a: Seq<u8>, b: Seq<u8>, c: Seq<u8>)
    requires
        le(a, b),
        lt(b, c),
    ensures
        lt(a, c),
{
    if a != b {
        lemma_lt_transitive(a, b, c);
    }
}

/// Nothing precedes the empty byte string, which precedes everything else.
pub proof fn lemma_empty_is_least(a: Seq<u8>)
    ensures
        le(Seq::<u8>::empty(), a),
        !lt(a, Seq::<u8>::empty()),
{
    reveal(lt);
    if a.len() == 0 {
        assert(a =~= Seq::<u8>::empty());
    } else {
        assert(lt_at(Seq::<u8>::empty(), a, 0));
    }
}

/// How one byte string compares with another.
#[derive(Clone, Copy, Debug, PartialEq, Eq, Structural)]
pub enum Side {
    /// The first one precedes the second.
    Before,
    /// They are equal.
    Same,
    /// The second one precedes the first.
    After,
}

/// Compares two byte strings lexicographically.
pub fn side(a: &[u8], b: &[u8]) -> (r: Side)
    ensures
        r == Side::Before <==> lt(a@, b@),
        r == Side::Same <==> a@ == b@,
        r == Side::After <==> lt(b@, a@),
{
    proof {
        reveal(lt);
    }
    let mut i: usize = 0;
    while i < a.len() && i < b.len()
        invariant
            i <= a@.len(),
            i <= b@.len(),
            forall|j: int| 0 <= j < i ==> a@[j] == b@[j],
        decreases a@.len() - i,
    {
        if a[i] < b[i] {
            proof {
                assert(lt_at(a@, b@, i as int));
                reveal(lt);
                lemma_lt_asymmetric(a@, b@);
            }
            return Side::Before;
        }
        if b[i] < a[i] {
            proof {
                assert(lt_at(b@, a@, i as int));
                reveal(lt);
                lemma_lt_asymmetric(b@, a@);
            }
            return Side::After;
        }
        i = i + 1;
    }
    if a.len() < b.len() {
        proof {
            assert(lt_at(a@, b@, i as int));
            lemma_lt_asymmetric(a@, b@);
        }
        Side::Before
    } else if b.len() < a.len() {
        proof {
            assert(lt_at(b@, a@, i as int));
            lemma_lt_asymmetric(b@, a@);
        }
        Side::After
    } else {
        proof {
            assert(a@ =~= b@);
            lemma_lt_irreflexive(a@);
        }
        Side::Same
    }
}

/// Any two byte strings are equal or ordered one way.
pub proof fn lemma_total(a: Seq<u8>, b: Seq<u8>)
    ensures
        lt(a, b) || a == b || lt(b, a),
    decreases a.len(),
{
    reveal(lt);
    if a.len() == 0 {
        lemma_empty_is_least(b);
        assert(a =~= Seq::<u8>::empty());
    } else if b.len() == 0 {
        lemma_empty_is_least(a);
        assert(b =~= Seq::<u8>::empty());
    } else if a[0] < b[0] {
        assert(lt_at(a, b, 0));
    } else if b[0] < a[0] {
        assert(lt_at(b, a, 0));
    } else {
        let x = a.skip(1);
        let y = b.skip(1);
        lemma_total(x, y);
        if lt(x, y) {
            let n = choose|n: int| lt_at(x, y, n);
            assert(lt_at(x, y, n));
            assert forall|i: int| 0 <= i < n + 1 implies a[i] == b[i] by {
                if i > 0 {
                    assert(x[i - 1] == y[i - 1]);
                }
            }
            assert(lt_at(a, b, n + 1));
        } else if lt(y, x) {
            let n = choose|n: int| lt_at(y, x, n);
            assert(lt_at(y, x, n));
            assert forall|i: int| 0 <= i < n + 1 implies b[i] == a[i] by {
                if i > 0 {
                    assert(y[i - 1] == x[i - 1]);
                }
            }
            assert(lt_at(b, a, n + 1));
        } else {
            assert(a =~= seq![a[0]] + x);
            assert(b =~= seq![b[0]] + y);
        }
    }
}

/// Reports whether two byte strings are equal.
pub fn same(a: &[u8], b: &[u8]) -> (r: bool)
    ensures
        r == (a@ == b@),
{
    if a.len() != b.len() {
        return false;
    }
    let mut i: usize = 0;
    while i < a.len()
        invariant
            i <= a@.len(),
            a@.len() == b@.len(),
            forall|j: int| 0 <= j < i ==> a@[j] == b@[j],
        decreases a@.len() - i,
    {
        if a[i] != b[i] {
            return false;
        }
        i = i + 1;
    }
    proof {
        assert(a@ =~= b@);
    }
    true
}

/// Reports whether `a` precedes `b`.
pub fn precedes(a: &[u8], b: &[u8]) -> (r: bool)
    ensures
        r == lt(a@, b@),
{
    matches!(side(a, b), Side::Before)
}

/// Copies a byte string.
pub fn copy(a: &[u8]) -> (r: Vec<u8>)
    ensures
        r@ == a@,
{
    vstd::slice::slice_to_vec(a)
}

/// Appends `tail` to `buf`.
pub fn append(buf: &mut Vec<u8>, tail: &[u8])
    ensures
        final(buf)@ == old(buf)@ + tail@,
{
    let ghost before = buf@;
    buf.extend_from_slice(tail);
    proof {
        assert(buf@ =~= before + tail@);
    }
}

/// A run of zero bytes.
pub open spec fn zeros(n: int) -> Seq<u8> {
    Seq::new(if n > 0 { n as nat } else { 0 }, |i: int| 0u8)
}

/// `content` followed by zero bytes up to `n` bytes in all.
pub open spec fn padded(content: Seq<u8>, n: int) -> Seq<u8> {
    content + zeros(n - content.len())
}

/// Pads `buf` with zero bytes to `n` bytes.
pub fn pad(buf: &mut Vec<u8>, n: usize)
    requires
        old(buf)@.len() <= n,
    ensures
        final(buf)@ == padded(old(buf)@, n as int),
        final(buf)@.len() == n,
{
    let ghost before = buf@;
    buf.resize(n, 0);
    proof {
        assert(buf@ =~= padded(before, n as int));
    }
}

/// The little-endian encoding of `x` in four bytes.
#[verifier::opaque]
pub open spec fn le32(x: u32) -> Seq<u8> {
    seq![
        (x % 256) as u8,
        (x / 256 % 256) as u8,
        (x / 256 / 256 % 256) as u8,
        (x / 256 / 256 / 256 % 256) as u8,
    ]
}

/// The number that four little-endian bytes stand for.
#[verifier::opaque]
pub open spec fn le32_value(s: Seq<u8>) -> u32 {
    (s[0] + 256 * (s[1] + 256 * (s[2] + 256 * s[3]))) as u32
}

/// The little-endian encoding of `x` in eight bytes.
#[verifier::opaque]
pub open spec fn le64(x: u64) -> Seq<u8> {
    seq![
        (x % 256) as u8,
        (x / 256 % 256) as u8,
        (x / 256 / 256 % 256) as u8,
        (x / 256 / 256 / 256 % 256) as u8,
        (x / 256 / 256 / 256 / 256 % 256) as u8,
        (x / 256 / 256 / 256 / 256 / 256 % 256) as u8,
        (x / 256 / 256 / 256 / 256 / 256 / 256 % 256) as u8,
        (x / 256 / 256 / 256 / 256 / 256 / 256 / 256 % 256) as u8,
    ]
}

/// The number that eight little-endian bytes stand for.
#[verifier::opaque]
pub open spec fn le64_value(s: Seq<u8>) -> u64 {
    (s[0] + 256 * (s[1] + 256 * (s[2] + 256 * (s[3] + 256 * (s[4] + 256 * (s[5] + 256 * (s[6] + 256
        * s[7]))))))) as u64
}

/// Four-byte encodings decode to what was encoded.
pub proof fn lemma_le32()
    ensures
        forall|x: u32| #[trigger] le32(x).len() == 4 && le32_value(le32(x)) == x,
{
    reveal(le32);
    reveal(le32_value);
    assert forall|x: u32| #[trigger] le32(x).len() == 4 && le32_value(le32(x)) == x by {
        let q1 = x / 256;
        let q2 = q1 / 256;
        let q3 = q2 / 256;
        assert(x == x % 256 + 256 * q1);
        assert(q1 == q1 % 256 + 256 * q2);
        assert(q2 == q2 % 256 + 256 * q3);
        assert(q3 < 256);
    }
}

/// Eight-byte encodings decode to what was encoded.
pub proof fn lemma_le64()
    ensures
        forall|x: u64| #[trigger] le64(x).len() == 8 && le64_value(le64(x)) == x,
        forall|s: Seq<u8>|
            (forall|i: int| 0 <= i < 8 ==> s[i] == 0) ==> #[trigger] le64_value(s) == 0,
{
    reveal(le64);
    reveal(le64_value);
    assert forall|x: u64| #[trigger] le64(x).len() == 8 && le64_value(le64(x)) == x by {
        let q1 = x / 256;
        let q2 = q1 / 256;
        let q3 = q2 / 256;
        let q4 = q3 / 256;
        let q5 = q4 / 256;
        let q6 = q5 / 256;
        let q7 = q6 / 256;
        assert(x == x % 256 + 256 * q1);
        assert(q1 == q1 % 256 + 256 * q2);
        assert(q2 == q2 % 256 + 256 * q3);
        assert(q3 == q3 % 256 + 256 * q4);
        assert(q4 == q4 % 256 + 256 * q5);
        assert(q5 == q5 % 256 + 256 * q6);
        assert(q6 == q6 % 256 + 256 * q7);
        assert(q7 < 256);
    }
}

/// Encodes `x` in four little-endian bytes.
pub fn to_le32(x: u32) -> (r: Vec<u8>)
    ensures
        r@ == le32(x),
{
    let mut r: Vec<u8> = Vec::new();
    r.push((x % 256) as u8);
    r.push((x / 256 % 256) as u8);
    r.push((x / 256 / 256 % 256) as u8);
    r.push((x / 256 / 256 / 256 % 256) as u8);
    proof {
        reveal(le32);
        assert(r@ =~= le32(x));
    }
    r
}

/// Encodes `x` in eight little-endian bytes.
pub fn to_le64(x: u64) -> (r: Vec<u8>)
    ensures
        r@ == le64(x),
{
    let mut r: Vec<u8> = Vec::new();
    r.push((x % 256) as u8);
    r.push((x / 256 % 256) as u8);
    r.push((x / 256 / 256 % 256) as u8);
    r.push((x / 256 / 256 / 256 % 256) as u8);
    r.push((x / 256 / 256 / 256 / 256 % 256) as u8);
    r.push((x / 256 / 256 / 256 / 256 / 256 % 256) as u8);
    r.push((x / 256 / 256 / 256 / 256 / 256 / 256 % 256) as u8);
    r.push((x / 256 / 256 / 256 / 256 / 256 / 256 / 256 % 256) as u8);
    proof {
        reveal(le64);
        assert(r@ =~= le64(x));
    }
    r
}

/// Decodes four little-endian bytes.
pub fn from_le32(s: &[u8]) -> (r: u32)
    requires
        s@.len() == 4,
    ensures
        r == le32_value(s@),
{
    proof {
        reveal(le32_value);
    }
    s[0] as u32 + 256 * (s[1] as u32 + 256 * (s[2] as u32 + 256 * s[3] as u32))
}

/// Decodes eight little-endian bytes.
pub fn from_le64(s: &[u8]) -> (r: u64)
    requires
        s@.len() == 8,
    ensures
        r == le64_value(s@),
{
    proof {
        reveal(le64_value);
    }
    s[0] as u64 + 256 * (s[1] as u64 + 256 * (s[2] as u64 + 256 * (s[3] as u64 + 256 * (s[4] as u64
        + 256 * (s[5] as u64 + 256 * (s[6] as u64 + 256 * s[7] as u64))))))
}

/// What several byte vectors hold.
pub open spec fn views(list: Seq<Vec<u8>>) -> Seq<Seq<u8>> {
    list.map_values(|b: Vec<u8>| b@)
}

/// Law: byte strings are ordered by their first difference; one that goes on where
/// another ends comes behind it.
pub proof fn law_first_difference_decides(common: Seq<u8>, x: u8, y: u8, a: Seq<u8>, b: Seq<u8>)
    ensures
        x < y ==> lt(common + seq![x] + a, common + seq![y] + b),
        lt(common, common + seq![x] + a),
{
    reveal(lt);
    let n = common.len() as int;
    if x < y {
        assert(lt_at(common + seq![x] + a, common + seq![y] + b, n));
    }
    assert(lt_at(common, common + seq![x] + a, n));
}

/// Law: numbers are written with their lowest byte first.
pub proof fn law_lowest_byte_is_first(x: u64, y: u32)
    ensures
        le64(x).len() == 8,
        le64(x)[0] == x % 256,
        le64(x)[1] == x / 256 % 256,
        le64(x)[7] == x / 0x0100_0000_0000_0000,
        le32(y).len() == 4,
        le32(y)[0] == y % 256,
        le32(y)[1] == y / 256 % 256,
        le32(y)[3] == y / 0x0100_0000,
{
    reveal(le64);
    reveal(le32);
}

} // verus!
