//! Unsigned integers as fixed-width byte strings, most or least significant
//! byte first.

use vstd::prelude::*;

verus! {

/// 256 to the power `width`: the number of values that `width` bytes hold.
pub open spec fn radix(width: nat) -> nat
    decreases width,
{
    if width == 0 {
        1
    } else {
        256 * radix((width - 1) as nat)
    }
}

/// The number that `bytes` spell, most significant byte first.
pub open spec fn be_value(bytes: Seq<u8>) -> nat
    decreases bytes.len(),
{
    if bytes.len() == 0 {
        0
    } else {
        be_value(bytes.drop_last()) * 256 + bytes.last() as nat
    }
}

/// The low `width` bytes of `value`, most significant byte first.
pub open spec fn be_bytes(value: nat, width: nat) -> Seq<u8>
    decreases width,
{
    if width == 0 {
        Seq::empty()
    } else {
        be_bytes(value / 256, (width - 1) as nat).push((value % 256) as u8)
    }
}

/// The number that `bytes` spell, least significant byte first.
pub open spec fn le_value(bytes: Seq<u8>) -> nat
    decreases bytes.len(),
{
    if bytes.len() == 0 {
        0
    } else {
        bytes.first() as nat + 256 * le_value(bytes.drop_first())
    }
}

/// The low `width` bytes of `value`, least significant byte first.
pub open spec fn le_bytes(value: nat, width: nat) -> Seq<u8>
    decreases width,
{
    if width == 0 {
        Seq::empty()
    } else {
        seq![(value % 256) as u8] + le_bytes(value / 256, (width - 1) as nat)
    }
}

/// Four bytes hold the values below 2^32, eight those below 2^64 and
/// sixteen those below 2^128.
pub proof fn lemma_radix_values()
    ensures
        radix(4) == 0x1_0000_0000,
        radix(8) == 0x1_0000_0000_0000_0000,
        radix(16) == 0x1_0000_0000_0000_0000_0000_0000_0000_0000,
{
    reveal_with_fuel(radix, 17);
}

/// More bytes hold more values.
pub proof fn lemma_radix_grows(narrow: nat, wide: nat)
    requires
        narrow <= wide,
    ensures
        0 < radix(narrow) <= radix(wide),
    decreases wide,
{
    if wide == 0 {
    } else if narrow == wide {
        lemma_radix_grows((narrow - 1) as nat, (wide - 1) as nat);
    } else {
        lemma_radix_grows(narrow, (wide - 1) as nat);
    }
}

/// `be_bytes` writes exactly `width` bytes.
pub proof fn lemma_be_bytes_len(value: nat, width: nat)
    ensures
        be_bytes(value, width).len() == width,
    decreases width,
{
    if width > 0 {
        lemma_be_bytes_len(value / 256, (width - 1) as nat);
    }
}

/// A byte string spells a number that its width can hold.
pub proof fn lemma_be_value_bound(bytes: Seq<u8>)
    ensures
        be_value(bytes) < radix(bytes.len()),
    decreases bytes.len(),
{
    if bytes.len() > 0 {
        lemma_be_value_bound(bytes.drop_last());
    }
}

/// Reading what was written gives the value back, as far as it fitted.
pub proof fn lemma_be_value_of_bytes(value: nat, width: nat)
    ensures
        be_value(be_bytes(value, width)) == value % radix(width),
    decreases width,
{
    if width > 0 {
        let rest = (width - 1) as nat;
        lemma_be_value_of_bytes(value / 256, rest);
        lemma_be_bytes_len(value / 256, rest);
        lemma_radix_grows(0, rest);
        assert(be_bytes(value, width).drop_last() =~= be_bytes(value / 256, rest));
        lemma_split_low_byte(value, radix(rest));
    }
}

/// Writing what was read gives the bytes back.
pub proof fn lemma_be_bytes_of_value(bytes: Seq<u8>)
    ensures
        be_bytes(be_value(bytes), bytes.len()) == bytes,
    decreases bytes.len(),
{
    if bytes.len() > 0 {
        lemma_be_bytes_of_value(bytes.drop_last());
        assert(be_bytes(be_value(bytes), bytes.len()) =~= bytes);
    } else {
        assert(be_bytes(be_value(bytes), bytes.len()) =~= bytes);
    }
}

/// `le_bytes` writes exactly `width` bytes.
pub proof fn lemma_le_bytes_len(value: nat, width: nat)
    ensures
        le_bytes(value, width).len() == width,
    decreases width,
{
    if width > 0 {
        lemma_le_bytes_len(value / 256, (width - 1) as nat);
    }
}

/// A byte string spells a number that its width can hold.
pub proof fn lemma_le_value_bound(bytes: Seq<u8>)
    ensures
        le_value(bytes) < radix(bytes.len()),
    decreases bytes.len(),
{
    if bytes.len() > 0 {
        lemma_le_value_bound(bytes.drop_first());
    }
}

/// Reading what was written gives the value back, as far as it fitted.
pub proof fn lemma_le_value_of_bytes(value: nat, width: nat)
    ensures
        le_value(le_bytes(value, width)) == value % radix(width),
    decreases width,
{
    if width > 0 {
        let rest = (width - 1) as nat;
        lemma_le_value_of_bytes(value / 256, rest);
        lemma_le_bytes_len(value / 256, rest);
        lemma_radix_grows(0, rest);
        assert(le_bytes(value, width).drop_first() =~= le_bytes(value / 256, rest));
        lemma_split_low_byte(value, radix(rest));
    }
}

/// Writing what was read gives the bytes back.
pub proof fn lemma_le_bytes_of_value(bytes: Seq<u8>)
    ensures
        le_bytes(le_value(bytes), bytes.len()) == bytes,
    decreases bytes.len(),
{
    if bytes.len() > 0 {
        lemma_le_bytes_of_value(bytes.drop_first());
        assert(le_bytes(le_value(bytes), bytes.len()) =~= bytes);
    } else {
        assert(le_bytes(le_value(bytes), bytes.len()) =~= bytes);
    }
}

/// Taking a number modulo `256 * m` is taking its low byte, and the rest of
/// it modulo `m`.
proof fn lemma_split_low_byte(value: nat, m: nat)
    requires
        m > 0,
    ensures
        (value / 256) % m * 256 + value % 256 == value % (256 * m),
{
    let q = value / 256;
    let r = value % 256;
    let qq = q / m;
    let qr = q % m;
    assert(q == m * qq + qr) by (nonlinear_arith)
        requires
            qq == q / m,
            qr == q % m,
            m > 0,
    ;
    assert(value == (256 * m) * qq + (qr * 256 + r)) by (nonlinear_arith)
        requires
            value == 256 * q + r,
            q == m * qq + qr,
    ;
    assert(0 <= qr * 256 + r < 256 * m) by (nonlinear_arith)
        requires
            0 <= qr < m,
            0 <= r < 256,
    ;
    vstd::arithmetic::div_mod::lemma_fundamental_div_mod_converse(
        value as int,
        (256 * m) as int,
        qq as int,
        (qr * 256 + r) as int,
    );
}

/// Writes the low `width` bytes of `value`, most significant byte first.
pub fn write_be(value: u128, width: usize) -> (bytes: Vec<u8>)
    requires
        width <= 16,
    ensures
        bytes@ == be_bytes(value as nat, width as nat),
    decreases width,
{
    if width == 0 {
        Vec::new()
    } else {
        let mut bytes = write_be(value / 256, width - 1);
        bytes.push((value % 256) as u8);
        bytes
    }
}

/// Reads a number of up to sixteen bytes, most significant byte first.
pub fn read_be(bytes: &[u8]) -> (value: u128)
    requires
        bytes@.len() <= 16,
    ensures
        value == be_value(bytes@),
{
    let mut value: u128 = 0;
    let mut i: usize = 0;
    while i < bytes.len()
        invariant
            i <= bytes@.len() <= 16,
            value == be_value(bytes@.take(i as int)),
        decreases bytes@.len() - i,
    {
        proof {
            let before = bytes@.take(i as int);
            let after = bytes@.take(i + 1);
            assert(after.drop_last() =~= before);
            lemma_be_value_bound(before);
            lemma_radix_grows(i as nat, 15);
            lemma_radix_values();
            reveal_with_fuel(radix, 2);
            assert(radix(16) == 256 * radix(15));
        }
        value = value * 256 + bytes[i] as u128;
        i += 1;
    }
    assert(bytes@.take(i as int) =~= bytes@);
    value
}

/// Writes the low `width` bytes of `value`, least significant byte first.
pub fn write_le(value: u128, width: usize) -> (bytes: Vec<u8>)
    requires
        width <= 16,
    ensures
        bytes@ == le_bytes(value as nat, width as nat),
{
    let mut bytes: Vec<u8> = Vec::new();
    let mut rest: u128 = value;
    let mut i: usize = 0;
    while i < width
        invariant
            i <= width,
            bytes@ + le_bytes(rest as nat, (width - i) as nat) == le_bytes(
                value as nat,
                width as nat,
            ),
        decreases width - i,
    {
        proof {
            let tail = le_bytes(rest as nat / 256, (width - i - 1) as nat);
            assert(bytes@.push((rest % 256) as u8) + tail =~= bytes@ + (seq![(rest % 256) as u8]
                + tail));
        }
        bytes.push((rest % 256) as u8);
        rest = rest / 256;
        i += 1;
    }
    assert(bytes@ + le_bytes(rest as nat, 0) =~= bytes@);
    bytes
}

/// Reads a number of up to sixteen bytes, least significant byte first.
pub fn read_le(bytes: &[u8]) -> (value: u128)
    requires
        bytes@.len() <= 16,
    ensures
        value == le_value(bytes@),
{
    let mut value: u128 = 0;
    let mut i: usize = bytes.len();
    while i > 0
        invariant
            i <= bytes@.len() <= 16,
            value == le_value(bytes@.skip(i as int)),
        decreases i,
    {
        proof {
            let before = bytes@.skip(i as int);
            let after = bytes@.skip(i - 1);
            assert(after.drop_first() =~= before);
            lemma_le_value_bound(before);
            lemma_radix_grows(before.len(), 15);
            lemma_radix_values();
            reveal_with_fuel(radix, 2);
            assert(radix(16) == 256 * radix(15));
        }
        i -= 1;
        value = bytes[i] as u128 + 256 * value;
    }
    assert(bytes@.skip(0) =~= bytes@);
    value
}

} // verus!
