//! Little-endian integers, as every fixed-width field of an archive is stored.

use vstd::prelude::*;

verus! {

/// The `width` low bytes of `value`, least significant first.
pub open spec fn le_bytes(value: nat, width: nat) -> Seq<u8>
    decreases width,
{
    if width == 0 {
        Seq::empty()
    } else {
        seq![(value % 256) as u8] + le_bytes(value / 256, (width - 1) as nat)
    }
}

/// The number that `bytes` spell, least significant byte first.
pub open spec fn le_value(bytes: Seq<u8>) -> nat
    decreases bytes.len(),
{
    if bytes.len() == 0 {
        0
    } else {
        bytes[0] as nat + 256 * le_value(bytes.drop_first())
    }
}

/// The first number that does not fit in `width` bytes.
pub open spec fn le_limit(width: nat) -> nat
    decreases width,
{
    if width == 0 {
        1
    } else {
        256 * le_limit((width - 1) as nat)
    }
}

/// A signed number as the unsigned number with the same 64 bits.
pub open spec fn i64_bits(value: i64) -> nat {
    if value >= 0 {
        value as nat
    } else {
        (value + 0x1_0000_0000_0000_0000) as nat
    }
}

/// The signed number whose 64 bits are those of `bits`.
pub open spec fn i64_from_bits(bits: nat) -> i64 {
    if bits < 0x8000_0000_0000_0000 {
        bits as i64
    } else {
        (bits - 0x1_0000_0000_0000_0000) as i64
    }
}

/// An encoded number occupies exactly the width it was given.
pub proof fn lemma_le_bytes_len(value: nat, width: nat)
    ensures
        le_bytes(value, width).len() == width,
    decreases width,
{
    if width > 0 {
        lemma_le_bytes_len(value / 256, (width - 1) as nat);
    }
}

/// Decoding an encoded number gives the number back, as long as it fits.
pub proof fn lemma_le_value_of_bytes(value: nat, width: nat)
    requires
        value < le_limit(width),
    ensures
        le_value(le_bytes(value, width)) == value,
    decreases width,
{
    if width > 0 {
        let rest = le_bytes(value / 256, (width - 1) as nat);
        lemma_le_value_of_bytes(value / 256, (width - 1) as nat);
        assert(le_bytes(value, width).drop_first() =~= rest);
    }
}

/// Every byte string is the encoding of the number that it spells.
pub proof fn lemma_le_bytes_of_value(bytes: Seq<u8>)
    ensures
        le_bytes(le_value(bytes), bytes.len()) == bytes,
        le_value(bytes) < le_limit(bytes.len()),
    decreases bytes.len(),
{
    if bytes.len() > 0 {
        let rest = bytes.drop_first();
        lemma_le_bytes_of_value(rest);
        let value = le_value(bytes);
        assert(value % 256 == bytes[0] as nat);
        assert(value / 256 == le_value(rest));
        assert(le_bytes(value, bytes.len()) =~= seq![bytes[0]] + rest);
        assert(seq![bytes[0]] + rest =~= bytes);
    } else {
        assert(le_bytes(0, 0) =~= bytes);
    }
}

/// The limits of the four widths that the format uses.
pub proof fn lemma_le_limits()
    ensures
        le_limit(1) == 0x100,
        le_limit(2) == 0x1_0000,
        le_limit(4) == 0x1_0000_0000,
        le_limit(8) == 0x1_0000_0000_0000_0000,
{
    reveal_with_fuel(le_limit, 9);
}

/// The 64-bit pattern of a signed number determines the number.
pub proof fn lemma_i64_bits(value: i64)
    ensures
        i64_bits(value) < 0x1_0000_0000_0000_0000,
        i64_from_bits(i64_bits(value)) == value,
{
}

/// Appends the `width` low bytes of `value`, least significant first.
fn put_le(out: &mut Vec<u8>, value: u64, width: usize)
    ensures
        final(out)@ == old(out)@ + le_bytes(value as nat, width as nat),
{
    let mut rest: u64 = value;
    let mut done: usize = 0;
    let ghost before = out@;
    assert(out@ =~= before + Seq::empty());
    while done < width
        invariant
            done <= width,
            out@ + le_bytes(rest as nat, (width - done) as nat) == before + le_bytes(
                value as nat,
                width as nat,
            ),
        decreases width - done,
    {
        let ghost tail = le_bytes((rest / 256) as nat, (width - done - 1) as nat);
        let byte: u8 = (rest % 256) as u8;
        proof {
            assert(le_bytes(rest as nat, (width - done) as nat) == seq![byte] + tail);
            assert(out@ + (seq![byte] + tail) =~= out@.push(byte) + tail);
        }
        out.push(byte);
        rest = rest / 256;
        done = done + 1;
    }
    assert(out@ + le_bytes(rest as nat, 0) =~= out@);
}

/// The number that the `width` bytes from `start` on spell.
fn get_le(data: &[u8], start: usize, width: usize) -> (value: u64)
    requires
        start + width <= data@.len(),
        width <= 8,
    ensures
        value == le_value(data@.subrange(start as int, start + width)),
{
    assert(data.len() == data@.len());
    let end: usize = start + width;
    let mut value: u64 = 0;
    let mut at: usize = end;
    let ghost part = data@.subrange(start as int, end as int);
    assert(part.subrange(part.len() as int, part.len() as int) =~= Seq::empty());
    while start < at
        invariant
            start <= at <= end <= data@.len(),
            end - start <= 8,
            part == data@.subrange(start as int, end as int),
            value == le_value(part.subrange(at - start, part.len() as int)),
        decreases at - start,
    {
        let ghost seen = part.subrange(at - start, part.len() as int);
        let ghost grown = part.subrange(at - start - 1, part.len() as int);
        proof {
            assert(grown.drop_first() =~= seen);
            assert(grown[0] == data@[at - 1]);
            lemma_le_bytes_of_value(seen);
            lemma_le_limit_monotone(seen.len(), 7);
            assert(le_limit(7) == 0x100_0000_0000_0000) by {
                reveal_with_fuel(le_limit, 8);
            }
        }
        at = at - 1;
        value = value * 256 + data[at] as u64;
    }
    assert(part.subrange(0, part.len() as int) =~= part);
    value
}

proof fn lemma_le_limit_monotone(small: nat, large: nat)
    requires
        small <= large,
    ensures
        le_limit(small) <= le_limit(large),
    decreases large,
{
    if small < large {
        lemma_le_limit_monotone(small, (large - 1) as nat);
    }
}

/// Appends a 16-bit number.
pub fn put_u16(out: &mut Vec<u8>, value: u16)
    ensures
        final(out)@ == old(out)@ + le_bytes(value as nat, 2),
{
    put_le(out, value as u64, 2);
}

/// Appends a 32-bit number.
pub fn put_u32(out: &mut Vec<u8>, value: u32)
    ensures
        final(out)@ == old(out)@ + le_bytes(value as nat, 4),
{
    put_le(out, value as u64, 4);
}

/// Appends a 64-bit number.
pub fn put_u64(out: &mut Vec<u8>, value: u64)
    ensures
        final(out)@ == old(out)@ + le_bytes(value as nat, 8),
{
    put_le(out, value, 8);
}

/// Appends a signed 64-bit number in two's complement.
pub fn put_i64(out: &mut Vec<u8>, value: i64)
    ensures
        final(out)@ == old(out)@ + le_bytes(i64_bits(value), 8),
{
    let bits: u64 = #[verifier::truncate] (value as u64);
    proof {
        assert(value >= 0 ==> bits == value) by (bit_vector)
            requires
                bits == value as u64,
        ;
        assert(value < 0 ==> bits == value + 0x1_0000_0000_0000_0000) by (bit_vector)
            requires
                bits == value as u64,
        ;
    }
    put_le(out, bits, 8);
}

/// Reads a 16-bit number at `at`.
pub fn get_u16(data: &[u8], at: usize) -> (value: u16)
    requires
        at + 2 <= data@.len(),
    ensures
        value == le_value(data@.subrange(at as int, at + 2)),
{
    proof {
        lemma_le_bytes_of_value(data@.subrange(at as int, at + 2));
        lemma_le_limits();
    }
    get_le(data, at, 2) as u16
}

/// Reads a 32-bit number at `at`.
pub fn get_u32(data: &[u8], at: usize) -> (value: u32)
    requires
        at + 4 <= data@.len(),
    ensures
        value == le_value(data@.subrange(at as int, at + 4)),
{
    proof {
        lemma_le_bytes_of_value(data@.subrange(at as int, at + 4));
        lemma_le_limits();
    }
    get_le(data, at, 4) as u32
}

/// Reads a 64-bit number at `at`.
pub fn get_u64(data: &[u8], at: usize) -> (value: u64)
    requires
        at + 8 <= data@.len(),
    ensures
        value == le_value(data@.subrange(at as int, at + 8)),
{
    get_le(data, at, 8)
}

/// Reads a signed 64-bit number in two's complement at `at`.
pub fn get_i64(data: &[u8], at: usize) -> (value: i64)
    requires
        at + 8 <= data@.len(),
    ensures
        value == i64_from_bits(le_value(data@.subrange(at as int, at + 8))),
{
    let bits: u64 = get_le(data, at, 8);
    let value: i64 = #[verifier::truncate] (bits as i64);
    proof {
        assert(bits < 0x8000_0000_0000_0000 ==> value == bits) by (bit_vector)
            requires
                value == bits as i64,
        ;
        assert(bits >= 0x8000_0000_0000_0000 ==> value == bits - 0x1_0000_0000_0000_0000)
            by (bit_vector)
            requires
                value == bits as i64,
        ;
    }
    value
}

/// A 16-bit number is stored as two bytes, the low one first, and read from
/// them.
pub proof fn law_u16_is_little_endian(value: u16, data: &[u8], at: usize, got: u16)
    requires
        call_ensures(get_u16, (data, at), got),
        at + 2 <= data@.len(),
    ensures
        got == data@[at as int] + 0x100 * data@[at + 1],
        forall|out: &mut Vec<u8>| #[trigger]
            call_ensures(put_u16, (out, value), ()) ==> {
                &&& final(out)@ == out@ + seq![(value % 0x100) as u8, (value / 0x100) as u8]
            },
{
    let part = data@.subrange(at as int, at + 2);
    lemma_value_of_two(part);
    lemma_two_bytes(value as nat);
}

/// A 32-bit number is stored as two 16-bit halves, the low one first.
pub proof fn law_u32_is_little_endian(value: u32, data: &[u8], at: usize, got: u32)
    requires
        call_ensures(get_u32, (data, at), got),
        at + 4 <= data@.len(),
    ensures
        got == data@[at as int] + 0x100 * data@[at + 1] + 0x1_0000 * data@[at + 2] + 0x100_0000
            * data@[at + 3],
        forall|out: &mut Vec<u8>| #[trigger]
            call_ensures(put_u32, (out, value), ()) ==> {
                &&& final(out)@ == out@ + seq![
                    (value % 0x100) as u8,
                    (value / 0x100 % 0x100) as u8,
                    (value / 0x1_0000 % 0x100) as u8,
                    (value / 0x100_0000) as u8,
                ]
            },
{
    let part = data@.subrange(at as int, at + 4);
    lemma_value_of_four(part);
    lemma_four_bytes(value as nat);
}

/// A 64-bit number is stored as its eight bytes, the low ones first.
pub proof fn law_u64_is_little_endian(value: u64, data: &[u8], at: usize, got: u64)
    requires
        call_ensures(get_u64, (data, at), got),
        at + 8 <= data@.len(),
    ensures
        got == data@[at as int] + 0x100 * data@[at + 1] + 0x1_0000 * data@[at + 2] + 0x100_0000
            * data@[at + 3] + 0x1_0000_0000 * (data@[at + 4] + 0x100 * data@[at + 5] + 0x1_0000
            * data@[at + 6] + 0x100_0000 * data@[at + 7]),
        forall|out: &mut Vec<u8>| #[trigger]
            call_ensures(put_u64, (out, value), ()) ==> {
                &&& final(out)@ == out@ + eight_bytes(value as nat)
            },
{
    lemma_value_of_eight(data@.subrange(at as int, at + 8));
    lemma_eight_bytes(value as nat);
}

/// A signed 64-bit number is stored as the unsigned one that differs from it by
/// nothing, or by two to the 64th.
pub proof fn law_i64_is_twos_complement(value: i64, data: &[u8], at: usize, got: i64, raw: u64)
    requires
        call_ensures(get_i64, (data, at), got),
        call_ensures(get_u64, (data, at), raw),
        at + 8 <= data@.len(),
    ensures
        got == raw || got == raw - 0x1_0000_0000_0000_0000,
        forall|out: &mut Vec<u8>| #[trigger]
            call_ensures(put_i64, (out, value), ()) ==> {
                &&& final(out)@ == out@ + eight_bytes(
                    if value >= 0 {
                        value as nat
                    } else {
                        (value + 0x1_0000_0000_0000_0000) as nat
                    },
                )
            },
{
    lemma_eight_bytes(i64_bits(value));
    lemma_le_bytes_of_value(data@.subrange(at as int, at + 8));
    lemma_le_limits();
}

/// The eight low bytes of a number, the lowest first.
pub open spec fn eight_bytes(value: nat) -> Seq<u8> {
    seq![
        (value % 0x100) as u8,
        (value / 0x100 % 0x100) as u8,
        (value / 0x1_0000 % 0x100) as u8,
        (value / 0x100_0000 % 0x100) as u8,
        (value / 0x1_0000_0000 % 0x100) as u8,
        (value / 0x100_0000_0000 % 0x100) as u8,
        (value / 0x1_0000_0000_0000 % 0x100) as u8,
        (value / 0x100_0000_0000_0000 % 0x100) as u8,
    ]
}

/// The two low bytes of a number.
pub(crate) proof fn lemma_two_bytes(value: nat)
    ensures
        le_bytes(value, 2) == seq![(value % 0x100) as u8, (value / 0x100 % 0x100) as u8],
{
    reveal_with_fuel(le_bytes, 3);
    assert(le_bytes(value, 2) =~= seq![(value % 0x100) as u8, (value / 0x100 % 0x100) as u8]);
}

/// The four low bytes of a number.
pub(crate) proof fn lemma_four_bytes(value: nat)
    ensures
        le_bytes(value, 4) == seq![
            (value % 0x100) as u8,
            (value / 0x100 % 0x100) as u8,
            (value / 0x1_0000 % 0x100) as u8,
            (value / 0x100_0000 % 0x100) as u8,
        ],
{
    reveal_with_fuel(le_bytes, 5);
    assert(value / 0x100 / 0x100 == value / 0x1_0000);
    assert(value / 0x1_0000 / 0x100 == value / 0x100_0000);
    assert(le_bytes(value, 4) =~= seq![
        (value % 0x100) as u8,
        (value / 0x100 % 0x100) as u8,
        (value / 0x1_0000 % 0x100) as u8,
        (value / 0x100_0000 % 0x100) as u8,
    ]);
}

/// The eight low bytes of a number.
pub(crate) proof fn lemma_eight_bytes(value: nat)
    ensures
        le_bytes(value, 8) == eight_bytes(value),
{
    let high = value / 0x1_0000_0000;
    reveal_with_fuel(le_bytes, 9);
    assert(value / 0x100 / 0x100 == value / 0x1_0000);
    assert(value / 0x1_0000 / 0x100 == value / 0x100_0000);
    assert(value / 0x100_0000 / 0x100 == value / 0x1_0000_0000);
    assert(value / 0x1_0000_0000 / 0x100 == value / 0x100_0000_0000);
    assert(value / 0x100_0000_0000 / 0x100 == value / 0x1_0000_0000_0000);
    assert(value / 0x1_0000_0000_0000 / 0x100 == value / 0x100_0000_0000_0000);
    assert(le_bytes(value, 8) =~= eight_bytes(value));
}

/// The number that two bytes spell.
pub(crate) proof fn lemma_value_of_two(b: Seq<u8>)
    requires
        b.len() == 2,
    ensures
        le_value(b) == b[0] + 0x100 * b[1],
{
    reveal_with_fuel(le_value, 3);
}

/// The number that four bytes spell.
pub(crate) proof fn lemma_value_of_four(b: Seq<u8>)
    requires
        b.len() == 4,
    ensures
        le_value(b) == b[0] + 0x100 * b[1] + 0x1_0000 * b[2] + 0x100_0000 * b[3],
{
    reveal_with_fuel(le_value, 5);
    let c = b.drop_first();
    let d = c.drop_first();
    let e = d.drop_first();
    assert(e.drop_first().len() == 0);
    assert(le_value(e) == b[3]);
    assert(le_value(d) == b[2] + 0x100 * b[3]);
}

/// The number that eight bytes spell.
pub(crate) proof fn lemma_value_of_eight(b: Seq<u8>)
    requires
        b.len() == 8,
    ensures
        le_value(b) == b[0] + 0x100 * b[1] + 0x1_0000 * b[2] + 0x100_0000 * b[3] + 0x1_0000_0000
            * (b[4] + 0x100 * b[5] + 0x1_0000 * b[6] + 0x100_0000 * b[7]),
{
    let high = b.skip(4);
    lemma_value_of_four(high);
    reveal_with_fuel(le_value, 5);
    let c = b.drop_first();
    let d = c.drop_first();
    let e = d.drop_first();
    assert(e.drop_first() =~= high);
    assert(le_value(e) == b[3] + 0x100 * le_value(high));
    assert(le_value(d) == b[2] + 0x100 * le_value(e));
    assert(le_value(c) == b[1] + 0x100 * le_value(d));
    assert(le_value(b) == b[0] + 0x100 * le_value(c));
}

} // verus!
