//! Keys as numbers: the two-bit groups that select a child at each depth of
//! the trie, the big-endian magnitude of a key, and the distance between two
//! keys on the circle of all keys of one width.
use vstd::prelude::*;

verus! {

/// The `slot`-th two-bit group of a byte, counted from the most significant end.
pub open spec fn byte_nibble(byte: u8, slot: int) -> int {
    if slot == 0 {
        byte as int / 64
    } else if slot == 1 {
        (byte as int / 16) % 4
    } else if slot == 2 {
        (byte as int / 4) % 4
    } else {
        byte as int % 4
    }
}

/// The two-bit group that a key contributes at trie depth `depth`.
pub open spec fn nibble(key: Seq<u8>, depth: int) -> int
    recommends
        0 <= depth < 4 * key.len(),
{
    byte_nibble(key[depth / 4], depth % 4)
}

/// Child slot selected by `key` at trie depth `depth`.
pub fn get_index<const N: usize>(key: [u8; N], depth: usize) -> (index: usize)
    requires
        depth / 4 < N,
    ensures
        index == nibble(key@, depth as int),
        index < 4,
{
    let byte: u8 = key[depth / 4];
    let slot: usize = depth % 4;
    assert((byte >> 6u8) & 3u8 == byte / 64u8) by (bit_vector);
    assert((byte >> 4u8) & 3u8 == (byte / 16u8) % 4u8) by (bit_vector);
    assert((byte >> 2u8) & 3u8 == (byte / 4u8) % 4u8) by (bit_vector);
    assert(byte & 3u8 == byte % 4u8) by (bit_vector);
    let group: u8 = if slot == 0 {
        (byte >> 6u8) & 3u8
    } else if slot == 1 {
        (byte >> 4u8) & 3u8
    } else if slot == 2 {
        (byte >> 2u8) & 3u8
    } else {
        byte & 3u8
    };
    group as usize
}

/// Byte-wise equality of two keys.
pub fn key_eq<const N: usize>(a: &[u8; N], b: &[u8; N]) -> (same: bool)
    ensures
        same == (a@ == b@),
{
    let mut i: usize = 0;
    while i < N
        invariant
            i <= N,
            forall|j: int| 0 <= j < i ==> a@[j] == b@[j],
        decreases N - i,
    {
        if a[i] != b[i] {
            return false;
        }
        i += 1;
    }
    assert(a@ =~= b@);
    true
}

/// Number of distinct keys of `len` bytes: 256 to the power `len`.
pub open spec fn key_space(len: nat) -> nat
    decreases len,
{
    if len == 0 {
        1
    } else {
        256 * key_space((len - 1) as nat)
    }
}

/// Big-endian magnitude of the bytes of `key` from position `from` on.
pub open spec fn value_from(key: Seq<u8>, from: int) -> nat
    decreases key.len() - from,
{
    if from < 0 || from >= key.len() {
        0
    } else {
        key[from] as nat * key_space((key.len() - 1 - from) as nat) + value_from(key, from + 1)
    }
}

/// A key read as an unsigned big-endian integer.
pub open spec fn key_value(key: Seq<u8>) -> nat {
    value_from(key, 0)
}

/// Two keys agree on their first `depth` two-bit groups.
pub open spec fn agree(a: Seq<u8>, b: Seq<u8>, depth: int) -> bool {
    forall|j: int| 0 <= j < depth ==> nibble(a, j) == nibble(b, j)
}

/// Number of leading two-bit groups that `a` and `b` share, counted from `from`
/// on the assumption that they agree before it.
pub open spec fn shared_from(a: Seq<u8>, b: Seq<u8>, from: int) -> int
    decreases 4 * a.len() - from,
{
    if from < 0 || from >= 4 * a.len() || nibble(a, from) != nibble(b, from) {
        from
    } else {
        shared_from(a, b, from + 1)
    }
}

/// Length, in two-bit groups, of the longest common prefix of two keys.
pub open spec fn shared_prefix(a: Seq<u8>, b: Seq<u8>) -> int {
    shared_from(a, b, 0)
}

/// The part of a key from `from` on is smaller than the space of its length.
pub proof fn lemma_value_from_bound(key: Seq<u8>, from: int)
    requires
        0 <= from <= key.len(),
    ensures
        value_from(key, from) < key_space((key.len() - from) as nat),
    decreases key.len() - from,
{
    if from < key.len() {
        lemma_value_from_bound(key, from + 1);
        let p = key_space((key.len() - 1 - from) as nat);
        assert(key_space((key.len() - from) as nat) == 256 * p);
        assert(key[from] as nat * p <= 255 * p) by (nonlinear_arith)
            requires
                key[from] as nat <= 255,
        ;
    }
}

pub proof fn lemma_key_value_bound(key: Seq<u8>)
    ensures
        key_value(key) < key_space(key.len()),
{
    lemma_value_from_bound(key, 0);
}

/// Only the bytes from `from` on matter to `value_from`.
pub proof fn lemma_value_from_same_tail(a: Seq<u8>, b: Seq<u8>, from: int)
    requires
        a.len() == b.len(),
        0 <= from,
        forall|j: int| from <= j < a.len() ==> a[j] == b[j],
    ensures
        value_from(a, from) == value_from(b, from),
    decreases a.len() - from,
{
    if from < a.len() {
        lemma_value_from_same_tail(a, b, from + 1);
    }
}

/// Keys that agree up to byte `at` and differ there are ordered by that byte.
pub proof fn lemma_first_byte_decides(a: Seq<u8>, b: Seq<u8>, from: int, at: int)
    requires
        a.len() == b.len(),
        0 <= from <= at < a.len(),
        forall|j: int| from <= j < at ==> a[j] == b[j],
        a[at] < b[at],
    ensures
        value_from(a, from) < value_from(b, from),
    decreases at - from,
{
    let p = key_space((a.len() - 1 - from) as nat);
    if from == at {
        lemma_value_from_bound(a, from + 1);
        assert(a[at] as nat * p + p <= b[at] as nat * p) by (nonlinear_arith)
            requires
                a[at] as nat + 1 <= b[at] as nat,
        ;
    } else {
        lemma_first_byte_decides(a, b, from + 1, at);
    }
}

/// A byte is made of its four two-bit groups.
pub proof fn lemma_byte_from_nibbles(byte: u8)
    ensures
        byte as int == 64 * byte_nibble(byte, 0) + 16 * byte_nibble(byte, 1) + 4 * byte_nibble(
            byte,
            2,
        ) + byte_nibble(byte, 3),
        forall|slot: int| 0 <= #[trigger] byte_nibble(byte, slot) < 4,
{
}

/// Keys that agree on `depth` two-bit groups have the same bytes before byte `depth / 4`.
pub proof fn lemma_agree_bytes(a: Seq<u8>, b: Seq<u8>, depth: int)
    requires
        a.len() == b.len(),
        0 <= depth <= 4 * a.len(),
        agree(a, b, depth),
    ensures
        forall|j: int| 0 <= j < depth / 4 ==> a[j] == b[j],
{
    assert forall|j: int| 0 <= j < depth / 4 implies a[j] == b[j] by {
        lemma_byte_from_nibbles(a[j]);
        lemma_byte_from_nibbles(b[j]);
        assert(nibble(a, 4 * j) == nibble(b, 4 * j));
        assert(nibble(a, 4 * j + 1) == nibble(b, 4 * j + 1));
        assert(nibble(a, 4 * j + 2) == nibble(b, 4 * j + 2));
        assert(nibble(a, 4 * j + 3) == nibble(b, 4 * j + 3));
    }
}

/// Keys of one length that agree on every two-bit group are equal.
pub proof fn lemma_agree_all_equal(a: Seq<u8>, b: Seq<u8>)
    requires
        a.len() == b.len(),
        agree(a, b, 4 * (a.len() as int)),
    ensures
        a == b,
{
    lemma_agree_bytes(a, b, 4 * (a.len() as int));
    assert(a =~= b);
}

/// The first two-bit group in which two keys differ decides their order.
pub proof fn lemma_nibble_decides(a: Seq<u8>, b: Seq<u8>, depth: int)
    requires
        a.len() == b.len(),
        0 <= depth < 4 * a.len(),
        agree(a, b, depth),
        nibble(a, depth) < nibble(b, depth),
    ensures
        key_value(a) < key_value(b),
{
    let at = depth / 4;
    lemma_agree_bytes(a, b, depth);
    lemma_byte_from_nibbles(a[at]);
    lemma_byte_from_nibbles(b[at]);
    assert forall|slot: int| 0 <= slot < depth % 4 implies byte_nibble(a[at], slot) == byte_nibble(
        b[at],
        slot,
    ) by {
        assert(nibble(a, 4 * at + slot) == nibble(b, 4 * at + slot));
    }
    assert(byte_nibble(a[at], depth % 4) < byte_nibble(b[at], depth % 4));
    assert(a[at] < b[at]);
    lemma_first_byte_decides(a, b, 0, at);
}

/// Distance between two keys of one length on the circle of all keys of that
/// length: the shorter of the two ways round.
pub open spec fn cyclic_distance(a: Seq<u8>, b: Seq<u8>) -> nat {
    let space = key_space(a.len()) as int;
    let apart = if key_value(a) >= key_value(b) {
        key_value(a) - key_value(b)
    } else {
        key_value(b) - key_value(a)
    };
    if apart <= space - apart {
        apart as nat
    } else {
        (space - apart) as nat
    }
}

/// `a` minus `b` on the circle of all keys of their length.
pub open spec fn wrapping_difference(a: Seq<u8>, b: Seq<u8>) -> nat {
    if key_value(a) >= key_value(b) {
        (key_value(a) - key_value(b)) as nat
    } else {
        (key_space(a.len()) + key_value(a) - key_value(b)) as nat
    }
}

/// A run of zero bytes has magnitude zero.
pub proof fn lemma_value_from_zeros(key: Seq<u8>, from: int)
    requires
        0 <= from,
        forall|j: int| from <= j < key.len() ==> key[j] == 0,
    ensures
        value_from(key, from) == 0,
    decreases key.len() - from,
{
    if from < key.len() {
        lemma_value_from_zeros(key, from + 1);
    }
}

/// Whether `a` is smaller than `b` as a big-endian number.
pub fn key_lt<const N: usize>(a: &[u8; N], b: &[u8; N]) -> (smaller: bool)
    ensures
        smaller == (key_value(a@) < key_value(b@)),
{
    let mut i: usize = 0;
    while i < N
        invariant
            i <= N,
            forall|j: int| 0 <= j < i ==> a@[j] == b@[j],
        decreases N - i,
    {
        if a[i] < b[i] {
            proof {
                lemma_first_byte_decides(a@, b@, 0, i as int);
            }
            return true;
        }
        if a[i] > b[i] {
            proof {
                lemma_first_byte_decides(b@, a@, 0, i as int);
            }
            return false;
        }
        i += 1;
    }
    assert(a@ =~= b@);
    false
}

/// Byte-wise subtraction with borrow, from the last byte to the first.
pub fn subtract_with_borrow<const N: usize>(a: &[u8; N], b: &[u8; N]) -> (difference: [u8; N])
    ensures
        key_value(difference@) == wrapping_difference(a@, b@),
{
    let mut result: [u8; N] = [0u8;N];
    let mut borrow: u8 = 0;
    let mut i: usize = N;
    while i > 0
        invariant
            i <= N,
            borrow <= 1,
            value_from(result@, i as int) + value_from(b@, i as int) == value_from(a@, i as int)
                + borrow * key_space((N - i) as nat),
        decreases i,
    {
        i -= 1;
        let ghost earlier = result@;
        let ghost lent = borrow as int;
        let byte: u8;
        if a[i] > b[i] {
            byte = a[i] - b[i] - borrow;
            borrow = 0;
        } else if a[i] == b[i] {
            if borrow == 1 {
                byte = u8::MAX;
            } else {
                byte = 0;
            }
        } else {
            byte = u8::MAX - (b[i] - a[i]) + 1 - borrow;
            borrow = 1;
        }
        result[i] = byte;
        proof {
            let unit = key_space((N - 1 - i) as nat) as int;
            lemma_value_from_same_tail(earlier, result@, i + 1);
            assert(key_space((N - i) as nat) == 256 * unit);
            let head_a = a@[i as int] as int;
            let head_b = b@[i as int] as int;
            let rest_r = value_from(result@, i + 1) as int;
            let rest_a = value_from(a@, i + 1) as int;
            let rest_b = value_from(b@, i + 1) as int;
            let now = borrow as int;
            assert(byte + head_b + lent == head_a + 256 * now);
            assert(rest_r + rest_b == rest_a + lent * unit);
            assert(byte * unit + rest_r + (head_b * unit + rest_b) == head_a * unit + rest_a + now
                * (256 * unit)) by (nonlinear_arith)
                requires
                    byte + head_b + lent == head_a + 256 * now,
                    rest_r + rest_b == rest_a + lent * unit,
            ;
        }
    }
    proof {
        lemma_key_value_bound(result@);
        lemma_key_value_bound(a@);
        lemma_key_value_bound(b@);
        let space = key_space(N as nat) as int;
        assert(borrow * space == if borrow == 1 { space } else { 0 }) by (nonlinear_arith)
            requires
                borrow == 0 || borrow == 1,
        ;
    }
    result
}

/// The key that stands for half of the circle: `0x80` followed by zero bytes.
pub fn half_point<const N: usize>() -> (half: [u8; N])
    ensures
        2 * key_value(half@) == (if N == 0 {
            0
        } else {
            key_space(N as nat) as int
        }),
{
    let mut half: [u8; N] = [0u8;N];
    if N > 0 {
        half[0] = 128;
        proof {
            lemma_value_from_zeros(half@, 1);
            assert(key_space(N as nat) == 256 * key_space((N - 1) as nat));
        }
    } else {
        assert(value_from(half@, 0) == 0);
    }
    half
}

/// The cyclic distance between two keys, as a key.
pub fn get_abs_diff<const N: usize>(item_1: [u8; N], item_2: [u8; N]) -> (distance: [u8; N])
    ensures
        key_value(distance@) == cyclic_distance(item_1@, item_2@),
{
    let difference = subtract_with_borrow(&item_1, &item_2);
    let half = half_point::<N>();
    proof {
        lemma_key_value_bound(item_1@);
        lemma_key_value_bound(item_2@);
        assert(key_space(0) == 1);
    }
    if key_lt(&half, &difference) {
        subtract_with_borrow(&item_2, &item_1)
    } else {
        difference
    }
}

/// What `shared_from` counts: the keys agree from `from` up to the result,
/// and differ there unless the keys end.
pub proof fn lemma_shared_from(a: Seq<u8>, b: Seq<u8>, from: int)
    requires
        0 <= from <= 4 * a.len(),
    ensures
        from <= shared_from(a, b, from) <= 4 * a.len(),
        forall|j: int| from <= j < shared_from(a, b, from) ==> nibble(a, j) == nibble(b, j),
        shared_from(a, b, from) < 4 * a.len() ==> nibble(a, shared_from(a, b, from)) != nibble(
            b,
            shared_from(a, b, from),
        ),
    decreases 4 * a.len() - from,
{
    if from < 4 * a.len() && nibble(a, from) == nibble(b, from) {
        lemma_shared_from(a, b, from + 1);
    }
}

/// Keys that agree on `depth` groups share a prefix of at least that length.
pub proof fn lemma_shared_at_least(a: Seq<u8>, b: Seq<u8>, depth: int)
    requires
        0 <= depth <= 4 * a.len(),
        agree(a, b, depth),
    ensures
        shared_prefix(a, b) >= depth,
{
    lemma_shared_from(a, b, 0);
}

/// Keys that agree on `depth` groups and differ in the next share exactly `depth`.
pub proof fn lemma_shared_exact(a: Seq<u8>, b: Seq<u8>, depth: int)
    requires
        0 <= depth < 4 * a.len(),
        agree(a, b, depth),
        nibble(a, depth) != nibble(b, depth),
    ensures
        shared_prefix(a, b) == depth,
{
    lemma_shared_from(a, b, 0);
}

/// Keys agree as far as their shared prefix reaches, which is the whole key
/// only for equal keys.
pub proof fn lemma_shared_prefix(a: Seq<u8>, b: Seq<u8>)
    requires
        a.len() == b.len(),
    ensures
        0 <= shared_prefix(a, b) <= 4 * a.len(),
        agree(a, b, shared_prefix(a, b)),
        shared_prefix(a, b) == 4 * a.len() <==> a == b,
{
    lemma_shared_from(a, b, 0);
    if shared_prefix(a, b) == 4 * a.len() {
        lemma_agree_all_equal(a, b);
    }
    if a == b {
        lemma_shared_at_least(a, b, 4 * (a.len() as int));
    }
}

/// Different keys of one length have different magnitudes.
pub proof fn lemma_value_injective(a: Seq<u8>, b: Seq<u8>)
    requires
        a.len() == b.len(),
        key_value(a) == key_value(b),
    ensures
        a == b,
{
    if a != b {
        lemma_shared_prefix(a, b);
        lemma_shared_from(a, b, 0);
        let depth = shared_prefix(a, b);
        lemma_byte_from_nibbles(a[depth / 4]);
        lemma_byte_from_nibbles(b[depth / 4]);
        if nibble(a, depth) < nibble(b, depth) {
            lemma_nibble_decides(a, b, depth);
        } else {
            assert(agree(b, a, depth));
            lemma_nibble_decides(b, a, depth);
        }
    }
}

} // verus!
