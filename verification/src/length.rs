//! Lengths and counts on the wire: big-endian, in as few bytes as hold the
//! number, and in one byte at least.

use vstd::arithmetic::power::pow;
use vstd::prelude::*;

verus! {

/// The least number of bytes that hold `x`, and 1 for zero.
pub open spec fn byte_width(x: nat) -> nat
    decreases x,
{
    if x < 256 {
        1
    } else {
        1 + byte_width(x / 256)
    }
}

/// The lowest `width` bytes of `x`, the most significant first.
pub open spec fn be_bytes(x: nat, width: nat) -> Seq<u8>
    decreases width,
{
    if width == 0 {
        Seq::empty()
    } else {
        be_bytes(x / 256, (width - 1) as nat).push((x % 256) as u8)
    }
}

/// The number that `bytes` spell, the most significant first.
pub open spec fn be_value(bytes: Seq<u8>) -> nat
    decreases bytes.len(),
{
    if bytes.len() == 0 {
        0
    } else {
        be_value(bytes.drop_last()) * 256 + bytes.last() as nat
    }
}

/// The bytes that carry the length or count `x` on the wire.
pub open spec fn length_field(x: nat) -> Seq<u8> {
    be_bytes(x, byte_width(x))
}

/// The width of a number brackets it between two powers of 256: the number
/// lies below `256^width` and, where the width is above one, not below
/// `256^(width - 1)`.
pub proof fn lemma_byte_width_is_least(x: nat)
    ensures
        byte_width(x) >= 1,
        x < pow(256, byte_width(x)),
        byte_width(x) > 1 ==> pow(256, (byte_width(x) - 1) as nat) <= x,
    decreases x,
{
    reveal(pow);
    if x >= 256 {
        let w = byte_width(x / 256);
        lemma_byte_width_is_least(x / 256);
        assert(pow(256, w + 1) == 256 * pow(256, w));
        if w > 1 {
            assert(pow(256, w) == 256 * pow(256, (w - 1) as nat));
        } else {
            assert(pow(256, 1) == 256 * pow(256, 0));
        }
    } else {
        assert(pow(256, 1) == 256 * pow(256, 0));
    }
}

/// No fewer bytes hold the number: every width that holds it is at least its
/// width.
pub proof fn lemma_byte_width_minimal(x: nat, width: nat)
    requires
        width >= 1,
        x < pow(256, width),
    ensures
        byte_width(x) <= width,
{
    lemma_byte_width_is_least(x);
    if byte_width(x) > width {
        vstd::arithmetic::power::lemma_pow_increases(256, width, (byte_width(x) - 1) as nat);
    }
}

/// A number of 64 bits is at most eight bytes wide.
pub proof fn lemma_byte_width_u64(x: u64)
    ensures
        1 <= byte_width(x as nat) <= 8,
{
    reveal_with_fuel(byte_width, 9);
}

/// `width` bytes spell a number below `256^width`.
pub proof fn lemma_be_value_bound(bytes: Seq<u8>)
    ensures
        be_value(bytes) < pow(256, bytes.len()),
    decreases bytes.len(),
{
    reveal(pow);
    if bytes.len() > 0 {
        lemma_be_value_bound(bytes.drop_last());
        assert(pow(256, bytes.len()) == 256 * pow(256, (bytes.len() - 1) as nat));
    }
}

/// The bytes of a number have the width asked for.
pub proof fn lemma_be_bytes_len(x: nat, width: nat)
    ensures
        be_bytes(x, width).len() == width,
    decreases width,
{
    if width > 0 {
        lemma_be_bytes_len(x / 256, (width - 1) as nat);
    }
}

/// Reading the bytes of a number gives the number back, if the width was
/// enough for it.
pub proof fn lemma_be_round_trip(x: nat, width: nat)
    requires
        x < pow(256, width),
    ensures
        be_value(be_bytes(x, width)) == x,
    decreases width,
{
    reveal(pow);
    if width > 0 {
        let rest = be_bytes(x / 256, (width - 1) as nat);
        assert(pow(256, width) == 256 * pow(256, (width - 1) as nat));
        lemma_be_round_trip(x / 256, (width - 1) as nat);
        assert(be_bytes(x, width).drop_last() =~= rest);
    }
}

/// A length field reads back as the length it was written for.
pub proof fn lemma_length_field_round_trip(x: nat)
    ensures
        length_field(x).len() == byte_width(x),
        be_value(length_field(x)) == x,
{
    lemma_byte_width_is_least(x);
    lemma_be_bytes_len(x, byte_width(x));
    lemma_be_round_trip(x, byte_width(x));
}

/// The number of bytes chosen to write the length or count `x`: the least
/// that hold it, from 1 to 8.
pub fn number_of_bytes(x: u64) -> (n: u8)
    ensures
        n == byte_width(x as nat),
        1 <= n <= 8,
        x < pow(256, n as nat),
        n > 1 ==> pow(256, (n - 1) as nat) <= x,
{
    let mut n: u8 = 1;
    let mut y: u64 = x;
    let ghost mut room: nat = 7;
    proof {
        reveal_with_fuel(pow, 9);
        assert(pow(256, 8) == 0x1_0000_0000_0000_0000);
    }
    while y >= 256
        invariant
            n + room == 8,
            y < pow(256, room + 1),
            byte_width(x as nat) == byte_width(y as nat) + n - 1,
        decreases y,
    {
        proof {
            reveal(pow);
            assert(pow(256, room + 1) == 256 * pow(256, room));
            if room == 0 {
                assert(pow(256, 0) == 1);
            } else {
                room = (room - 1) as nat;
            }
        }
        y = y / 256;
        n = n + 1;
    }
    proof {
        lemma_byte_width_is_least(x as nat);
    }
    n
}

/// Writes the length or count `x` as its length field.
pub fn encode_length(x: u64) -> (out: Vec<u8>)
    ensures
        out@ == length_field(x as nat),
        out@.len() == byte_width(x as nat),
        1 <= out@.len() <= 8,
{
    let width = number_of_bytes(x);
    let mut out: Vec<u8> = Vec::new();
    let mut y: u64 = x;
    let mut k: u8 = 0;
    while k < width
        invariant
            k <= width,
            out@.len() == k,
            be_bytes(x as nat, width as nat) == be_bytes(y as nat, (width - k) as nat) + out@,
        decreases width - k,
    {
        let ghost before = out@;
        out.insert(0, (y % 256) as u8);
        proof {
            let high = be_bytes((y / 256) as nat, (width - k - 1) as nat);
            assert(be_bytes(y as nat, (width - k) as nat) == high.push((y % 256) as u8));
            assert(high.push((y % 256) as u8) + before =~= high + out@);
        }
        y = y / 256;
        k = k + 1;
    }
    assert(be_bytes(y as nat, 0) + out@ =~= out@);
    out
}

/// Reads a length field of up to eight bytes.
pub fn decode_length(bytes: &[u8]) -> (x: u64)
    requires
        bytes@.len() <= 8,
    ensures
        x == be_value(bytes@),
{
    let mut x: u64 = 0;
    let mut k: usize = 0;
    proof {
        reveal_with_fuel(pow, 9);
        assert(pow(256, 8) == 0x1_0000_0000_0000_0000);
        assert(pow(256, 0) == 1);
        assert(bytes@.take(0) =~= Seq::<u8>::empty());
    }
    while k < bytes.len()
        invariant
            k <= bytes@.len() <= 8,
            x == be_value(bytes@.take(k as int)),
            x < pow(256, k as nat),
            pow(256, 8) == 0x1_0000_0000_0000_0000,
        decreases bytes@.len() - k,
    {
        proof {
            let next = bytes@.take(k + 1);
            assert(next.drop_last() =~= bytes@.take(k as int));
            assert(next.last() == bytes@[k as int]);
            lemma_be_value_bound(next);
            vstd::arithmetic::power::lemma_pow_increases(256, (k + 1) as nat, 8);
        }
        x = x * 256 + bytes[k] as u64;
        k = k + 1;
    }
    assert(bytes@.take(k as int) =~= bytes@);
    x
}

} // verus!
