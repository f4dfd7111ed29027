//! Little-endian encoding of unsigned integers.
use vstd::prelude::*;

verus! {

/// The number that a little-endian byte sequence stands for.
pub open spec fn le_value(bytes: Seq<u8>) -> nat
    decreases bytes.len(),
{
    if bytes.len() == 0 {
        0
    } else {
        bytes[0] as nat + 256 * le_value(bytes.skip(1))
    }
}

/// The `width` low-order bytes of `value`, the lowest first.
pub open spec fn le_bytes(value: nat, width: nat) -> Seq<u8>
    decreases width,
{
    if width == 0 {
        Seq::empty()
    } else {
        seq![(value % 256) as u8] + le_bytes(value / 256, (width - 1) as nat)
    }
}

/// The number of values that `width` bytes can hold.
pub open spec fn le_bound(width: nat) -> nat
    decreases width,
{
    if width == 0 {
        1
    } else {
        256 * le_bound((width - 1) as nat)
    }
}

pub proof fn lemma_le_bytes_len(value: nat, width: nat)
    ensures
        le_bytes(value, width).len() == width,
    decreases width,
{
    if width > 0 {
        lemma_le_bytes_len(value / 256, (width - 1) as nat);
    }
}

/// Reading back the bytes of a number that fits gives the number.
pub proof fn lemma_le_value_of_bytes(value: nat, width: nat)
    requires
        value < le_bound(width),
    ensures
        le_value(le_bytes(value, width)) == value,
    decreases width,
{
    if width > 0 {
        let rest = le_bytes(value / 256, (width - 1) as nat);
        lemma_le_value_of_bytes(value / 256, (width - 1) as nat);
        assert(le_bytes(value, width).skip(1) =~= rest);
    }
}

/// Writing out the number that some bytes stand for gives the bytes.
pub proof fn lemma_le_bytes_of_value(bytes: Seq<u8>)
    ensures
        le_bytes(le_value(bytes), bytes.len()) == bytes,
        le_value(bytes) < le_bound(bytes.len()),
    decreases bytes.len(),
{
    if bytes.len() > 0 {
        lemma_le_bytes_of_value(bytes.skip(1));
        let low = bytes[0] as nat;
        let high = le_value(bytes.skip(1));
        assert((low + 256 * high) % 256 == low && (low + 256 * high) / 256 == high);
        assert(seq![bytes[0]] + bytes.skip(1) =~= bytes);
        assert(bytes.skip(1).len() == (bytes.len() - 1) as nat);
    }
}

pub proof fn lemma_le_bounds()
    ensures
        le_bound(4) == 0x1_0000_0000,
        le_bound(8) == 0x1_0000_0000_0000_0000,
{
    reveal_with_fuel(le_bound, 9);
}

/// Appends `width` little-endian bytes of `value` to `out`.
pub fn put_le(out: &mut Vec<u8>, value: u64, width: usize)
    ensures
        final(out)@ == old(out)@ + le_bytes(value as nat, width as nat),
{
    let mut rest: u64 = value;
    let mut left: usize = width;
    while left > 0
        invariant
            left <= width,
            out@ + le_bytes(rest as nat, left as nat) == old(out)@ + le_bytes(
                value as nat,
                width as nat,
            ),
        decreases left,
    {
        let ghost before = out@;
        let ghost tail = le_bytes((rest / 256) as nat, (left - 1) as nat);
        out.push((rest % 256) as u8);
        proof {
            assert(le_bytes(rest as nat, left as nat) == seq![(rest % 256) as u8] + tail);
            assert(out@ + tail =~= before + (seq![(rest % 256) as u8] + tail));
        }
        rest = rest / 256;
        left = left - 1;
    }
    proof {
        assert(out@ + le_bytes(rest as nat, 0) =~= out@);
    }
}

/// Reads the little-endian number in `bytes[start..start + width]`.
pub fn get_le(bytes: &[u8], start: usize, width: usize) -> (value: u64)
    requires
        start + width <= bytes@.len(),
        width <= 8,
    ensures
        value == le_value(bytes@.subrange(start as int, start + width)),
{
    let mut value: u64 = 0;
    let mut left: usize = width;
    let end: usize = bytes.len();
    proof {
        assert(bytes@.subrange(start + width, start + width) =~= Seq::<u8>::empty());
    }
    while left > 0
        invariant
            left <= width <= 8,
            start + width <= bytes@.len() == end,
            value == le_value(bytes@.subrange(start + left, start + width)),
        decreases left,
    {
        let ghost tail = bytes@.subrange(start + left, start + width);
        let ghost whole = bytes@.subrange(start + left - 1, start + width);
        proof {
            lemma_le_bytes_of_value(tail);
            lemma_le_bound_monotonic(tail.len(), 7);
            reveal_with_fuel(le_bound, 8);
            assert(whole.skip(1) =~= tail);
        }
        left = left - 1;
        value = value * 256 + bytes[start + left] as u64;
    }
    value
}

proof fn lemma_le_bound_monotonic(a: nat, b: nat)
    requires
        a <= b,
    ensures
        0 < le_bound(a) <= le_bound(b),
    decreases b,
{
    if a < b {
        lemma_le_bound_monotonic(a, (b - 1) as nat);
    } else if a > 0 {
        lemma_le_bound_monotonic((a - 1) as nat, (b - 1) as nat);
    }
}

} // verus!
