//! A toy single-round substitution-permutation cipher on bit sequences.
//!
//! A message is a sequence of single bits (0/1 values). `encode` runs a
//! fixed nonlinear substitution over every 4-bit group (the S-block) and
//! then XORs every 8-bit group with a byte derived from the key (the
//! P-block); `decode` runs the two stages in the opposite order, using the
//! inverse substitution table. Text enters and leaves the bit domain
//! through the conversion helpers.

use vstd::prelude::*;

pub mod bits;
pub mod codec;
pub mod pblock;
pub mod sblock;

pub use codec::bits_to_ascii_string;
pub use codec::bits_to_bits_string;
pub use codec::string_to_bits;

use crate::bits::is_bit_seq;
use crate::codec::ascii_chars;
use crate::codec::lemma_conversion_round_trip;
use crate::codec::lemma_string_bits_is_bit_seq;
use crate::codec::lemma_string_bits_len;
use crate::codec::single_byte_char;
use crate::codec::string_bits;
use crate::pblock::key_mask;
use crate::pblock::lemma_p_block_concat;
use crate::pblock::lemma_p_block_involution;
use crate::pblock::lemma_p_group_len;
use crate::pblock::lemma_p_group_two_keys;
use crate::pblock::p_block_encryption;
use crate::pblock::p_block_spec;
use crate::pblock::p_group;
use crate::sblock::lemma_s_block_concat;
use crate::sblock::lemma_s_block_injective_8;
use crate::sblock::lemma_s_block_is_bit_seq;
use crate::sblock::lemma_s_block_len;
use crate::sblock::lemma_s_block_round_trip;
use crate::sblock::s_block_encryption;
use crate::sblock::s_block_spec;
use crate::sblock::STable;

verus! {

/// What `encode` produces: the substitution stage over every aligned 4-bit
/// group, then the keyed mask over every 8-bit group.
pub open spec fn encode_spec(s: Seq<u8>, key: u128) -> Seq<u8> {
    p_block_spec(s_block_spec(s, STable::Encode), key)
}

/// What `decode` produces: the keyed mask undone first, then the inverse
/// substitution.
pub open spec fn decode_spec(s: Seq<u8>, key: u128) -> Seq<u8> {
    s_block_spec(p_block_spec(s, key), STable::Decode)
}

/// Encodes a bit sequence with `key`: confusion (S-block) first, then
/// keyed diffusion (P-block). Trailing bits that do not fill a 4-bit group
/// are dropped by the S-block stage and cannot be recovered.
pub fn encode(bits: &Vec<u8>, key: u128) -> (r: Vec<u8>)
    ensures
        r@ == encode_spec(bits@, key),
{
    p_block_encryption(&s_block_encryption(bits, STable::Encode), key)
}

/// Decodes a bit sequence with `key`: the keyed mask is its own inverse,
/// and the inverse substitution table undoes the forward one.
pub fn decode(bits: &Vec<u8>, key: u128) -> (r: Vec<u8>)
    ensures
        r@ == decode_spec(bits@, key),
{
    s_block_encryption(&p_block_encryption(bits, key), STable::Decode)
}

/// The round-trip law: a well-formed bit sequence of whole bytes encodes
/// and decodes back to itself under any key.
pub proof fn lemma_round_trip(bits: Seq<u8>, key: u128)
    requires
        is_bit_seq(bits),
        bits.len() % 8 == 0,
    ensures
        decode_spec(encode_spec(bits, key), key) == bits,
{
    let e = s_block_spec(bits, STable::Encode);
    assert(bits.len() % 4 == 0) by {
        let q = bits.len() / 8;
        assert(bits.len() == 8 * q);
        assert((8 * q) % 4 == 0) by (nonlinear_arith);
    }
    lemma_s_block_is_bit_seq(bits, STable::Encode);
    lemma_p_block_involution(e, key);
    lemma_s_block_round_trip(bits);
}

/// The whole pipeline on text: a text of single-byte characters, turned
/// into bits, encoded and decoded under one key, reads back as the same
/// text.
pub proof fn lemma_text_round_trip(text: Seq<char>, key: u128)
    requires
        forall|i: int| 0 <= i < text.len() ==> single_byte_char(#[trigger] text[i]),
    ensures
        ascii_chars(decode_spec(encode_spec(string_bits(text), key), key)) == text,
{
    lemma_string_bits_is_bit_seq(text);
    lemma_string_bits_len(text);
    assert(string_bits(text).len() % 8 == 0) by {
        assert((8 * text.len()) % 8 == 0) by (nonlinear_arith);
    }
    lemma_round_trip(string_bits(text), key);
    lemma_conversion_round_trip(text);
}

/// The key-sensitivity law: decoding a non-empty whole-byte message with a
/// key whose mask byte differs from the encoding key's never restores the
/// message — already its first byte comes out changed.
pub proof fn lemma_key_sensitivity(bits: Seq<u8>, k1: u128, k2: u128)
    requires
        is_bit_seq(bits),
        bits.len() % 8 == 0,
        bits.len() > 0,
        k1 % 256 != k2 % 256,
    ensures
        decode_spec(encode_spec(bits, k1), k2) != bits,
{
    let g = bits.take(8);
    let rest = bits.skip(8);
    assert(is_bit_seq(g));
    assert(is_bit_seq(rest));
    assert(bits =~= g + rest);
    lemma_s_block_concat(g, rest, STable::Encode);
    let eg = s_block_spec(g, STable::Encode);
    let erest = s_block_spec(rest, STable::Encode);
    lemma_s_block_len(g, STable::Encode);
    lemma_s_block_is_bit_seq(g, STable::Encode);
    lemma_p_block_concat(eg, erest, k1);
    let h1 = p_group(eg, k1);
    let prest1 = p_block_spec(erest, k1);
    assert(encode_spec(bits, k1) == h1 + prest1);
    lemma_p_group_len(eg, k1);
    lemma_p_block_concat(h1, prest1, k2);
    let h = p_group(h1, k2);
    let prest2 = p_block_spec(prest1, k2);
    assert(p_block_spec(encode_spec(bits, k1), k2) == h + prest2);
    assert(key_mask(k1) != key_mask(k2));
    lemma_p_group_two_keys(eg, k1, k2);
    lemma_s_block_concat(h, prest2, STable::Decode);
    let dh = s_block_spec(h, STable::Decode);
    let drest = s_block_spec(prest2, STable::Decode);
    assert(decode_spec(encode_spec(bits, k1), k2) == dh + drest);
    lemma_s_block_round_trip(g);
    lemma_s_block_injective_8(h, eg, STable::Decode);
    assert(dh != g);
    if decode_spec(encode_spec(bits, k1), k2) == bits {
        lemma_s_block_len(h, STable::Decode);
        assert((dh + drest).take(8) =~= dh);
        assert(dh == g);
    }
}

} // verus!
