//! CRC-32 as IEEE 802.3 defines it, and the corruption that it detects.
use vstd::prelude::*;

verus! {

/// One step of the division by the polynomial, with the bits in reversed order.
pub open spec fn crc_bit(state: u32) -> u32 {
    if state & 1 == 1 {
        (state >> 1) ^ 0xedb8_8320
    } else {
        state >> 1
    }
}

/// The eight steps for a byte.
pub open spec fn crc_eight(state: u32) -> u32 {
    crc_bit(crc_bit(crc_bit(crc_bit(crc_bit(crc_bit(crc_bit(crc_bit(state))))))))
}

/// The state of the division behind the given bytes. It starts with all bits set.
pub open spec fn crc_state(data: Seq<u8>) -> u32
    decreases data.len(),
{
    if data.len() == 0 {
        0xffff_ffff
    } else {
        crc_eight(crc_state(data.drop_last()) ^ (data.last() as u32))
    }
}

/// The CRC-32 checksum of the given bytes: the final state with all bits flipped.
#[verifier::opaque]
pub open spec fn crc32_of(data: Seq<u8>) -> u32 {
    crc_state(data) ^ 0xffff_ffff
}

/// `crc32fast::hash`: the CRC-32 (IEEE) checksum of `data`.
#[verifier::external_body]
pub(crate) fn crc32(data: &[u8]) -> (checksum: u32)
    ensures
        checksum == crc32_of(data@),
{
    crc32fast::hash(data)
}

proof fn lemma_bit_linear(a: u32, b: u32)
    by (bit_vector)
    ensures
        crc_bit(a) ^ crc_bit(b) == crc_bit(a ^ b),
{
}

proof fn lemma_bit_injective(a: u32, b: u32)
    by (bit_vector)
    requires
        crc_bit(a) == crc_bit(b),
    ensures
        a == b,
{
}

spec fn crc_bits(state: u32, n: nat) -> u32
    decreases n,
{
    if n == 0 {
        state
    } else {
        crc_bit(crc_bits(state, (n - 1) as nat))
    }
}

proof fn lemma_bits_linear(a: u32, b: u32, n: nat)
    ensures
        crc_bits(a, n) ^ crc_bits(b, n) == crc_bits(a ^ b, n),
    decreases n,
{
    if n > 0 {
        lemma_bits_linear(a, b, (n - 1) as nat);
        lemma_bit_linear(crc_bits(a, (n - 1) as nat), crc_bits(b, (n - 1) as nat));
    }
}

proof fn lemma_bits_injective(a: u32, b: u32, n: nat)
    requires
        crc_bits(a, n) == crc_bits(b, n),
    ensures
        a == b,
    decreases n,
{
    if n > 0 {
        lemma_bit_injective(crc_bits(a, (n - 1) as nat), crc_bits(b, (n - 1) as nat));
        lemma_bits_injective(a, b, (n - 1) as nat);
    }
}

proof fn lemma_eight(state: u32)
    ensures
        crc_eight(state) == crc_bits(state, 8),
{
    reveal_with_fuel(crc_bits, 9);
}

/// The steps for a byte keep the difference of two states apart from their sum.
proof fn lemma_eight_linear(a: u32, b: u32)
    ensures
        crc_eight(a) ^ crc_eight(b) == crc_eight(a ^ b),
{
    lemma_eight(a);
    lemma_eight(b);
    lemma_eight(a ^ b);
    lemma_bits_linear(a, b, 8);
}

proof fn lemma_eight_injective(a: u32, b: u32)
    requires
        crc_eight(a) == crc_eight(b),
    ensures
        a == b,
{
    lemma_eight(a);
    lemma_eight(b);
    lemma_bits_injective(a, b, 8);
}

proof fn lemma_eight_of_shifted(a: u32)
    by (bit_vector)
    requires
        a < 0x100_0000,
    ensures
        crc_eight(a << 8) == a,
{
}

/// A state that leads to a small one is that one, shifted.
proof fn lemma_eight_small(a: u32, b: u32)
    requires
        crc_eight(a) == b,
        b < 0x100_0000,
    ensures
        a == b << 8,
{
    lemma_eight_of_shifted(b);
    lemma_eight_injective(a, b << 8);
}

/// Different states stay different when the same bytes follow.
proof fn lemma_states_stay_apart(a: Seq<u8>, b: Seq<u8>, end: int)
    requires
        a.len() == b.len(),
        0 <= end <= a.len(),
        crc_state(a.take(end)) != crc_state(b.take(end)),
        forall|i: int| end <= i < a.len() ==> a[i] == b[i],
    ensures
        crc_state(a) != crc_state(b),
    decreases a.len() - end,
{
    if end == a.len() {
        assert(a.take(end) =~= a);
        assert(b.take(end) =~= b);
    } else {
        let sa = crc_state(a.take(end));
        let sb = crc_state(b.take(end));
        let byte = a[end] as u32;
        assert(a.take(end + 1).drop_last() =~= a.take(end));
        assert(b.take(end + 1).drop_last() =~= b.take(end));
        if crc_eight(sa ^ byte) == crc_eight(sb ^ byte) {
            lemma_eight_injective(sa ^ byte, sb ^ byte);
            assert(sa ^ byte == sb ^ byte ==> sa == sb) by (bit_vector);
        }
        lemma_states_stay_apart(a, b, end + 1);
    }
}

/// Two byte sequences of the same length that differ in one byte have different checksums.
pub proof fn law_changed_byte_changes_checksum(data: Seq<u8>, i: int, byte: u8)
    requires
        0 <= i < data.len(),
        byte != data[i],
    ensures
        crc32_of(data.update(i, byte)) != crc32_of(data),
{
    reveal(crc32_of);
    let changed = data.update(i, byte);
    let state = crc_state(data.take(i));
    let x = data[i] as u32;
    let y = byte as u32;
    assert(data.take(i + 1).drop_last() =~= data.take(i));
    assert(changed.take(i + 1).drop_last() =~= data.take(i));
    if crc_eight(state ^ x) == crc_eight(state ^ y) {
        lemma_eight_injective(state ^ x, state ^ y);
        assert(state ^ x == state ^ y ==> x == y) by (bit_vector);
    }
    lemma_states_stay_apart(changed, data, i + 1);
    let a = crc_state(changed);
    let b = crc_state(data);
    assert(a ^ 0xffff_ffff == b ^ 0xffff_ffff ==> a == b) by (bit_vector);
}

/// Four bytes, not all zero, never lead from nothing to nothing.
proof fn lemma_four_bytes(e0: u32, e1: u32, e2: u32, e3: u32)
    requires
        e0 < 256,
        e1 < 256,
        e2 < 256,
        e3 < 256,
        crc_eight(crc_eight(crc_eight(crc_eight(e0) ^ e1) ^ e2) ^ e3) == 0,
    ensures
        e0 == 0 && e1 == 0 && e2 == 0 && e3 == 0,
{
    let x1 = crc_eight(e0);
    let x2 = crc_eight(x1 ^ e1);
    let x3 = crc_eight(x2 ^ e2);
    lemma_eight_small(x3 ^ e3, 0);
    assert(x3 ^ e3 == 0u32 << 8 ==> x3 == e3) by (bit_vector);
    lemma_eight_small(x2 ^ e2, e3);
    assert(x2 ^ e2 == e3 << 8 ==> x2 == (e3 << 8) ^ e2) by (bit_vector);
    assert(e2 < 256 && e3 < 256 ==> (e3 << 8) ^ e2 < 0x1_0000) by (bit_vector);
    lemma_eight_small(x1 ^ e1, x2);
    assert(x1 ^ e1 == x2 << 8 ==> x1 == (x2 << 8) ^ e1) by (bit_vector);
    assert(e1 < 256 && x2 < 0x1_0000 ==> (x2 << 8) ^ e1 < 0x100_0000) by (bit_vector);
    lemma_eight_small(e0, x1);
    assert(e0 == 0 && e1 == 0 && e2 == 0 && e3 == 0) by (bit_vector)
        requires
            e0 < 256,
            e1 < 256,
            e2 < 256,
            e3 < 256,
            x2 == (e3 << 8) ^ e2,
            x1 == (x2 << 8) ^ e1,
            e0 == x1 << 8,
    ;
}

/// How the difference of two states changes with a byte.
proof fn lemma_difference(a: Seq<u8>, b: Seq<u8>, i: int)
    requires
        0 <= i < a.len(),
        i < b.len(),
    ensures
        crc_state(a.take(i + 1)) ^ crc_state(b.take(i + 1)) == crc_eight(
            (crc_state(a.take(i)) ^ crc_state(b.take(i))) ^ ((a[i] as u32) ^ (b[i] as u32)),
        ),
{
    let sa = crc_state(a.take(i));
    let sb = crc_state(b.take(i));
    let x = a[i] as u32;
    let y = b[i] as u32;
    assert(a.take(i + 1).drop_last() =~= a.take(i));
    assert(b.take(i + 1).drop_last() =~= b.take(i));
    lemma_eight_linear(sa ^ x, sb ^ y);
    assert((sa ^ x) ^ (sb ^ y) == (sa ^ sb) ^ (x ^ y)) by (bit_vector);
}

/// Two byte sequences of the same length that differ, and only within four consecutive bytes, have
/// different checksums.
pub proof fn law_burst_changes_checksum(a: Seq<u8>, b: Seq<u8>, i: int)
    requires
        a.len() == b.len(),
        0 <= i <= a.len() - 4,
        forall|j: int| 0 <= j < a.len() && !(i <= j < i + 4) ==> a[j] == b[j],
        a != b,
    ensures
        crc32_of(a) != crc32_of(b),
{
    reveal(crc32_of);
    let start = crc_state(a.take(i));
    assert(a.take(i) =~= b.take(i));
    let e0 = (a[i] as u32) ^ (b[i] as u32);
    let e1 = (a[i + 1] as u32) ^ (b[i + 1] as u32);
    let e2 = (a[i + 2] as u32) ^ (b[i + 2] as u32);
    let e3 = (a[i + 3] as u32) ^ (b[i + 3] as u32);
    lemma_xor_bytes(a[i], b[i]);
    lemma_xor_bytes(a[i + 1], b[i + 1]);
    lemma_xor_bytes(a[i + 2], b[i + 2]);
    lemma_xor_bytes(a[i + 3], b[i + 3]);
    lemma_difference(a, b, i);
    lemma_difference(a, b, i + 1);
    lemma_difference(a, b, i + 2);
    lemma_difference(a, b, i + 3);
    assert((start ^ start) ^ e0 == e0) by (bit_vector);
    let sa = crc_state(a.take(i + 4));
    let sb = crc_state(b.take(i + 4));
    if sa == sb {
        assert(sa ^ sa == 0) by (bit_vector);
        lemma_four_bytes(e0, e1, e2, e3);
        assert(a =~= b);
    }
    lemma_states_stay_apart(a, b, i + 4);
    let fa = crc_state(a);
    let fb = crc_state(b);
    assert(fa ^ 0xffff_ffff == fb ^ 0xffff_ffff ==> fa == fb) by (bit_vector);
}

proof fn lemma_xor_bytes(a: u8, b: u8)
    ensures
        (a as u32) ^ (b as u32) < 256,
        (a as u32) ^ (b as u32) == 0 ==> a == b,
{
    let x = a as u32;
    let y = b as u32;
    assert(x < 256 && y < 256 ==> x ^ y < 256) by (bit_vector);
    assert(x ^ y == 0 ==> x == y) by (bit_vector);
}

} // verus!
