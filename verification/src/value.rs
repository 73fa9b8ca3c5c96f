//! Raw field integers: big-endian reconstruction and two's-complement folding.

use vstd::arithmetic::power2::{lemma2_to64, lemma_pow2_adds, lemma_pow2_pos, pow2};
use vstd::prelude::*;
use vstd::slice::slice_to_vec;

verus! {

/// The unsigned integer that `bytes` spell out most-significant byte first.
pub open spec fn be_value(bytes: Seq<u8>) -> nat
    decreases bytes.len(),
{
    if bytes.len() == 0 {
        0
    } else {
        be_value(bytes.drop_last()) * 256 + bytes.last() as nat
    }
}

/// `2^(8 * width)`: the number of distinct values a field of `width` bytes can hold.
pub open spec fn edge(width: nat) -> nat {
    pow2(8 * width)
}

/// The integer a field's payload stands for.
///
/// An unsigned field is its big-endian value. A signed field is read as
/// two's complement over all of its bits: a big-endian value above the
/// largest positive one, `edge / 2 - 1`, is folded down by `edge`.
pub open spec fn raw_value(bytes: Seq<u8>, signed: bool) -> int {
    let value = be_value(bytes) as int;
    let edge = edge(bytes.len()) as int;
    if signed && value > edge / 2 - 1 {
        value - edge
    } else {
        value
    }
}

/// What a [`Scaled`] reading stands for: the exact quotient
/// `numerator / divisor`, read from a field of `width` bytes.
pub struct ScaledView {
    pub numerator: int,
    pub divisor: nat,
    pub width: nat,
}

/// The reading that a field's payload comes to under a given signedness and
/// divisor.
pub open spec fn scaled_of(bytes: Seq<u8>, signed: bool, divisor: nat) -> ScaledView {
    ScaledView { numerator: raw_value(bytes, signed), divisor, width: bytes.len() }
}

/// A fixed-point reading, kept exact.
///
/// The raw integer is held as a sign and a big-endian magnitude that is as
/// wide as the field it was read from, so a field of any width is held
/// without loss. The reading's value is that integer over `divisor`.
#[derive(Debug, PartialEq, Eq)]
pub struct Scaled {
    /// Whether the raw integer is below zero.
    pub negative: bool,
    /// Absolute value of the raw integer, most-significant byte first.
    pub magnitude: Vec<u8>,
    /// The scaling factor the raw integer is to be divided by.
    pub divisor: u32,
}

impl View for Scaled {
    type V = ScaledView;

    open spec fn view(&self) -> ScaledView {
        ScaledView {
            numerator: if self.negative {
                -(be_value(self.magnitude@) as int)
            } else {
                be_value(self.magnitude@) as int
            },
            divisor: self.divisor as nat,
            width: self.magnitude@.len(),
        }
    }
}

impl Scaled {
    /// The raw integer as a machine integer, or `None` where it is too large
    /// or too small for one.
    pub fn to_i128(&self) -> (raw: Option<i128>)
        ensures
            match raw {
                Some(number) => number == self@.numerator,
                None => self@.numerator < i128::MIN || self@.numerator > i128::MAX,
            },
    {
        let mut folded: u128 = 0;
        let mut i: usize = 0;
        while i < self.magnitude.len()
            invariant
                i <= self.magnitude@.len(),
                folded == be_value(self.magnitude@.take(i as int)),
            decreases self.magnitude@.len() - i,
        {
            proof {
                assert(self.magnitude@.take(i as int + 1).drop_last() == self.magnitude@.take(
                    i as int,
                ));
                lemma_be_value_prefix(self.magnitude@, i as int + 1);
            }
            if folded > 0x00FF_FFFF_FFFF_FFFF_FFFF_FFFF_FFFF_FFFF {
                return None;
            }
            folded = folded * 256 + self.magnitude[i] as u128;
            i += 1;
        }
        proof {
            assert(self.magnitude@.take(i as int) == self.magnitude@);
        }
        if self.negative {
            if folded < 0x8000_0000_0000_0000_0000_0000_0000_0000 {
                Some(-(folded as i128))
            } else if folded == 0x8000_0000_0000_0000_0000_0000_0000_0000 {
                Some(i128::MIN)
            } else {
                None
            }
        } else {
            if folded < 0x8000_0000_0000_0000_0000_0000_0000_0000 {
                Some(folded as i128)
            } else {
                None
            }
        }
    }
}

/// One more byte of width multiplies the edge by 256.
pub proof fn lemma_edge_step(width: nat)
    ensures
        edge(0) == 1,
        edge(width + 1) == 256 * edge(width),
        edge(width) > 0,
{
    lemma2_to64();
    lemma_pow2_adds(8 * width, 8);
    lemma_pow2_pos(8 * width);
    assert(8 * (width + 1) == 8 * width + 8);
    assert(pow2(8 * width) * 256 == 256 * pow2(8 * width)) by (nonlinear_arith);
}

/// A big-endian value of `n` bytes lies below `edge(n)`.
pub proof fn lemma_be_value_below_edge(bytes: Seq<u8>)
    ensures
        be_value(bytes) < edge(bytes.len()),
    decreases bytes.len(),
{
    if bytes.len() == 0 {
        lemma_edge_step(0);
    } else {
        let front = bytes.drop_last();
        lemma_be_value_below_edge(front);
        lemma_edge_step(front.len());
    }
}

/// The first byte is the most significant one: it alone fixes the value up
/// to one unit of `edge(n - 1)`.
pub proof fn lemma_be_value_leading_byte(bytes: Seq<u8>)
    requires
        bytes.len() > 0,
    ensures
        bytes[0] * edge((bytes.len() - 1) as nat) <= be_value(bytes),
        be_value(bytes) < (bytes[0] + 1) * edge((bytes.len() - 1) as nat),
    decreases bytes.len(),
{
    let front = bytes.drop_last();
    assert(be_value(bytes) == be_value(front) * 256 + bytes.last());
    if bytes.len() == 1 {
        lemma_edge_step(0);
        assert(be_value(front) == 0);
    } else {
        lemma_be_value_leading_byte(front);
        let below = edge((front.len() - 1) as nat) as int;
        lemma_edge_step((front.len() - 1) as nat);
        let lead = bytes[0] as int;
        assert(front[0] == bytes[0]);
        assert(lead * (256 * below) == (lead * below) * 256) by (nonlinear_arith);
        assert((lead + 1) * (256 * below) == ((lead + 1) * below) * 256) by (nonlinear_arith);
    }
}

/// A field's big-endian value exceeds the largest positive signed value
/// exactly when the top bit of its first byte is set.
pub proof fn lemma_sign_bit(bytes: Seq<u8>)
    requires
        bytes.len() > 0,
    ensures
        (be_value(bytes) as int > edge(bytes.len()) as int / 2 - 1) <==> bytes[0] >= 0x80,
{
    let below = edge((bytes.len() - 1) as nat) as int;
    let lead = bytes[0] as int;
    lemma_be_value_leading_byte(bytes);
    lemma_edge_step((bytes.len() - 1) as nat);
    assert(edge(bytes.len()) as int / 2 == 128 * below);
    if lead >= 0x80 {
        assert(lead * below >= 128 * below) by (nonlinear_arith)
            requires
                lead >= 128,
                below > 0,
        ;
    } else {
        assert((lead + 1) * below <= 128 * below) by (nonlinear_arith)
            requires
                lead + 1 <= 128,
                below > 0,
        ;
    }
}

/// A single byte spells out itself.
pub proof fn lemma_be_value_of_one_byte(bytes: Seq<u8>)
    requires
        bytes.len() == 1,
    ensures
        be_value(bytes) == bytes[0],
{
    reveal_with_fuel(be_value, 2);
}

/// Big-endian values are positional: the bytes before any cut weigh
/// `edge` of the number of bytes behind it.
pub proof fn lemma_be_value_split(bytes: Seq<u8>, cut: int)
    requires
        0 <= cut <= bytes.len(),
    ensures
        be_value(bytes) == be_value(bytes.take(cut)) * edge((bytes.len() - cut) as nat) + be_value(
            bytes.skip(cut),
        ),
    decreases bytes.len(),
{
    if cut == bytes.len() {
        lemma_edge_step(0);
        assert(bytes.take(cut) == bytes);
        assert(bytes.skip(cut).len() == 0);
    } else {
        let front = bytes.drop_last();
        let high = be_value(bytes.take(cut)) as int;
        let below = edge((front.len() - cut) as nat) as int;
        lemma_be_value_split(front, cut);
        lemma_edge_step((front.len() - cut) as nat);
        assert(front.take(cut) == bytes.take(cut));
        assert(front.skip(cut) == bytes.skip(cut).drop_last());
        assert(bytes.skip(cut).last() == bytes.last());
        assert(high * (256 * below) == (high * below) * 256) by (nonlinear_arith);
    }
}

/// Leading bytes alone never spell out more than the whole sequence does.
pub proof fn lemma_be_value_prefix(bytes: Seq<u8>, cut: int)
    requires
        0 <= cut <= bytes.len(),
    ensures
        be_value(bytes.take(cut)) <= be_value(bytes),
{
    let high = be_value(bytes.take(cut)) as int;
    let weight = edge((bytes.len() - cut) as nat) as int;
    lemma_be_value_split(bytes, cut);
    lemma_edge_step((bytes.len() - cut) as nat);
    assert(high <= high * weight) by (nonlinear_arith)
        requires
            high >= 0,
            weight >= 1,
    ;
}

/// An unsigned field never reads below zero, whatever its bytes and its
/// divisor.
pub proof fn lemma_unsigned_is_never_negative(bytes: Seq<u8>, divisor: nat)
    ensures
        scaled_of(bytes, false, divisor).numerator >= 0,
{
}

/// An unsigned field reads as the plain big-endian number: its first byte
/// weighs `edge` of the remaining width, and the rest is read the same way.
pub proof fn lemma_unsigned_is_big_endian(bytes: Seq<u8>)
    requires
        bytes.len() > 0,
    ensures
        raw_value(bytes, false) == bytes[0] * edge((bytes.len() - 1) as nat) + raw_value(
            bytes.skip(1),
            false,
        ),
{
    lemma_be_value_split(bytes, 1);
    lemma_be_value_of_one_byte(bytes.take(1));
}

/// A two-byte unsigned field reads as `256 * high + low` over its divisor:
/// the bytes `01 00` are 256.
pub proof fn lemma_two_byte_unsigned(high: u8, low: u8, divisor: nat)
    ensures
        scaled_of(seq![high, low], false, divisor) == (ScaledView {
            numerator: 256 * high + low,
            divisor,
            width: 2,
        }),
{
    lemma_be_value_of_one_byte(seq![high, low].drop_last());
}

/// A one-byte signed field reads, over its divisor, as the byte itself up to
/// `0x7F` and as the byte less 256 from `0x80` on: `0x7F` is 127, `0x80` is
/// -128 and `0xFF` is -1.
pub proof fn lemma_single_byte_signed(byte: u8, divisor: nat)
    ensures
        scaled_of(seq![byte], true, divisor) == (ScaledView {
            numerator: if byte >= 0x80 {
                byte - 256
            } else {
                byte as int
            },
            divisor,
            width: 1,
        }),
{
    let bytes = seq![byte];
    lemma_be_value_of_one_byte(bytes);
    lemma_edge_step(0);
    lemma_sign_bit(bytes);
}

/// The magnitude of a negative two's-complement field: `edge - value`,
/// written over as many bytes as the field has.
///
/// Every byte before the last non-zero one is inverted, that one is negated,
/// and the zero bytes behind it stay zero.
fn folded_magnitude(stream: &[u8]) -> (magnitude: Vec<u8>)
    requires
        stream@.len() > 0,
        stream@[0] >= 0x80,
    ensures
        magnitude@.len() == stream@.len(),
        be_value(magnitude@) + be_value(stream@) == edge(stream@.len()),
{
    let n = stream.len();
    let mut pivot: usize = n - 1;
    while stream[pivot] == 0
        invariant
            n == stream@.len(),
            pivot < n,
            stream@[0] >= 0x80,
            forall|j: int| pivot < j < n ==> stream@[j] == 0,
        decreases pivot,
    {
        pivot -= 1;
    }
    let mut magnitude: Vec<u8> = Vec::with_capacity(n);
    let mut i: usize = 0;
    proof {
        lemma_edge_step(0);
        assert(stream@.take(0).len() == 0);
    }
    while i < n
        invariant
            n == stream@.len(),
            i <= n,
            pivot < n,
            stream@[pivot as int] != 0,
            forall|j: int| pivot < j < n ==> stream@[j] == 0,
            magnitude@.len() == i,
            i <= pivot ==> be_value(magnitude@) + be_value(stream@.take(i as int)) + 1 == edge(
                i as nat,
            ),
            i > pivot ==> be_value(magnitude@) + be_value(stream@.take(i as int)) == edge(i as nat),
        decreases n - i,
    {
        let byte = stream[i];
        let folded: u8 = if i < pivot {
            255 - byte
        } else if i == pivot {
            (255 - byte) + 1
        } else {
            0
        };
        proof {
            let seen = stream@.take(i as int + 1);
            assert(seen.drop_last() == stream@.take(i as int));
            assert(seen.last() == byte);
            assert(magnitude@.push(folded).drop_last() == magnitude@);
            lemma_edge_step(i as nat);
        }
        magnitude.push(folded);
        i += 1;
    }
    proof {
        assert(stream@.take(n as int) == stream@);
    }
    magnitude
}

/// Converts a field's payload to its scaled reading.
///
/// The bytes are folded most-significant first into an unsigned integer; for
/// a signed field that integer is then read as two's complement over the
/// field's full width. The result keeps that integer exactly, beside the
/// divisor it is to be divided by.
pub fn array_to_decimal(stream: &[u8], is_signed: bool, divisor: u32) -> (result: Scaled)
    requires
        stream@.len() > 0,
        divisor > 0,
    ensures
        result@ == scaled_of(stream@, is_signed, divisor as nat),
        result.negative <==> raw_value(stream@, is_signed) < 0,
        !is_signed ==> result@.numerator >= 0,
{
    proof {
        lemma_sign_bit(stream@);
        lemma_be_value_below_edge(stream@);
    }
    if is_signed && stream[0] >= 0x80 {
        Scaled { negative: true, magnitude: folded_magnitude(stream), divisor }
    } else {
        Scaled { negative: false, magnitude: slice_to_vec(stream), divisor }
    }
}

} // verus!
