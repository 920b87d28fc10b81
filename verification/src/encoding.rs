//! One channel value as bus bytes.
//!
//! Each bit of the value becomes a symbol of four bus bits. Four symbols fill
//! a 16-bit word, the first of them in the top four bits, and a word goes out
//! low byte first. A channel value is two words: the one of its upper four
//! bits, then the one of its lower four bits.

use vstd::prelude::*;

verus! {

/// The four bus bits that stand for a zero: one high, three low.
pub const ZERO: u16 = 0b1000;

/// The four bus bits that stand for a one: two high, two low.
pub const ONE: u16 = 0b1100;

/// The symbol of one bit.
pub open spec fn symbol(bit: bool) -> u16 {
    if bit {
        ONE
    } else {
        ZERO
    }
}

/// The bit that `s` stands for, if `s` is a symbol.
pub open spec fn symbol_bit(s: u16) -> Option<bool> {
    if s == ZERO {
        Some(false)
    } else if s == ONE {
        Some(true)
    } else {
        None
    }
}

/// Whether bit `i` of `value` is set; bit 0 is the most significant.
pub open spec fn bit(value: u8, i: u8) -> bool {
    value & (0x80u8 >> i) != 0
}

/// The word of the symbols of four bits, that of `a` in the top four bits
/// and that of `d` in the bottom four.
pub open spec fn word(a: bool, b: bool, c: bool, d: bool) -> u16 {
    symbol(a) << 12 | symbol(b) << 8 | symbol(c) << 4 | symbol(d)
}

/// The word of the four most significant bits of `value`.
pub open spec fn upper_word(value: u8) -> u16 {
    word(bit(value, 0), bit(value, 1), bit(value, 2), bit(value, 3))
}

/// The word of the four least significant bits of `value`.
pub open spec fn lower_word(value: u8) -> u16 {
    word(bit(value, 4), bit(value, 5), bit(value, 6), bit(value, 7))
}

/// The low byte of a word.
pub open spec fn low(w: u16) -> u8 {
    (w & 0xff) as u8
}

/// The high byte of a word.
pub open spec fn high(w: u16) -> u8 {
    (w >> 8) as u8
}

/// The two bus bytes of a word, in the order in which they go out.
pub open spec fn word_bytes(w: u16) -> Seq<u8> {
    seq![low(w), high(w)]
}

/// The four bus bytes of a channel value, in the order in which they go out.
pub open spec fn encode(value: u8) -> Seq<u8> {
    word_bytes(upper_word(value)) + word_bytes(lower_word(value))
}

/// The word whose low byte is `lo` and whose high byte is `hi`.
pub open spec fn join(lo: u8, hi: u8) -> u16 {
    (hi as u16) << 8 | (lo as u16)
}

/// The number below 16 whose four bits are `a`, `b`, `c` and `d`, `a` the
/// most significant.
pub open spec fn quad(a: bool, b: bool, c: bool, d: bool) -> u8 {
    (if a { 8u8 } else { 0u8 }) | (if b { 4u8 } else { 0u8 }) | (if c { 2u8 } else { 0u8 }) | (if d {
        1u8
    } else {
        0u8
    })
}

/// The four bits that the symbols of `w` stand for, as a number below 16, if
/// all four are symbols.
pub open spec fn decode_word(w: u16) -> Option<u8> {
    match (
        symbol_bit((w >> 12) & 0xf),
        symbol_bit((w >> 8) & 0xf),
        symbol_bit((w >> 4) & 0xf),
        symbol_bit(w & 0xf),
    ) {
        (Some(a), Some(b), Some(c), Some(d)) => Some(quad(a, b, c, d)),
        _ => None,
    }
}

/// The channel value that four bus bytes stand for, if they are two words of
/// symbols: the first word gives its upper four bits, the second its lower.
pub open spec fn decode(bytes: Seq<u8>) -> Option<u8> {
    if bytes.len() != 4 {
        None
    } else {
        match (decode_word(join(bytes[0], bytes[1])), decode_word(join(bytes[2], bytes[3]))) {
            (Some(upper), Some(lower)) => Some(upper << 4 | lower),
            _ => None,
        }
    }
}

/// The first `done` symbols of the upper word of `value`, at the low end of
/// a word.
spec fn partial(value: u8, done: u8) -> u16 {
    upper_word(value) >> ((4 - done) * 4) as u16
}

/// Encodes the four most significant bits of `value` as one word.
///
/// The bits are taken from the top of the value, one after another, and
/// each pushes its symbol into the word from below.
pub fn encode_upper(value: u8) -> (w: u16)
    ensures
        w == upper_word(value),
{
    let mut data: u8 = value;
    let mut w: u16 = 0;
    let mut i: u8 = 0;
    assert(value << 0u8 == value) by (bit_vector);
    assert(partial(value, 0) == 0) by (bit_vector);
    while i < 4
        invariant
            i <= 4,
            data == value << i,
            w == partial(value, i),
        decreases 4 - i,
    {
        let s: u16 = if (data & 0b1000_0000) == 0b1000_0000 {
            ONE
        } else {
            ZERO
        };
        assert(s | (w << 4) == partial(value, (i + 1) as u8)) by (bit_vector)
            requires
                i < 4,
                data == value << i,
                w == partial(value, i),
                s == symbol((data & 0b1000_0000u8) == 0b1000_0000u8),
        ;
        assert(data << 1 == value << ((i + 1) as u8)) by (bit_vector)
            requires
                i < 4,
                data == value << i,
        ;
        w = s | (w << 4);
        data = data << 1;
        i = i + 1;
    }
    assert(partial(value, 4) == upper_word(value)) by (bit_vector);
    w
}

/// Moving a value up by four bits makes its lower four bits its upper four.
pub proof fn lemma_lower_word(value: u8)
    ensures
        upper_word(value << 4) == lower_word(value),
{
    assert(upper_word(value << 4) == lower_word(value)) by (bit_vector);
}

/// A word of symbols is read back as the bits it was made of.
pub proof fn lemma_decode_word(a: bool, b: bool, c: bool, d: bool)
    ensures
        decode_word(word(a, b, c, d)) == Some(quad(a, b, c, d)),
{
    let w = word(a, b, c, d);
    assert((w >> 12) & 0xf == symbol(a)) by (bit_vector)
        requires
            w == word(a, b, c, d),
    ;
    assert((w >> 8) & 0xf == symbol(b)) by (bit_vector)
        requires
            w == word(a, b, c, d),
    ;
    assert((w >> 4) & 0xf == symbol(c)) by (bit_vector)
        requires
            w == word(a, b, c, d),
    ;
    assert(w & 0xf == symbol(d)) by (bit_vector)
        requires
            w == word(a, b, c, d),
    ;
}

/// A channel value always makes four bus bytes, and those four bytes, read
/// as symbols in the order of the value's bits, give the value back.
pub proof fn lemma_encode_round_trip(value: u8)
    ensures
        encode(value).len() == 4,
        decode(encode(value)) == Some(value),
{
    let upper = upper_word(value);
    let lower = lower_word(value);
    assert(join(low(upper), high(upper)) == upper) by (bit_vector);
    assert(join(low(lower), high(lower)) == lower) by (bit_vector);
    lemma_decode_word(bit(value, 0), bit(value, 1), bit(value, 2), bit(value, 3));
    lemma_decode_word(bit(value, 4), bit(value, 5), bit(value, 6), bit(value, 7));
    assert(quad(bit(value, 0), bit(value, 1), bit(value, 2), bit(value, 3)) << 4 | quad(
        bit(value, 4),
        bit(value, 5),
        bit(value, 6),
        bit(value, 7),
    ) == value) by (bit_vector);
}

} // verus!
