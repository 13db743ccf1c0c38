//! The P-block stage: every 8-bit group is XORed with a mask byte derived
//! from the key. A trailing group shorter than 8 bits is still processed
//! and keeps its width, so the stage never changes the length of the
//! sequence and is its own inverse under the same key.

use crate::bits::bits_to_nat;
use crate::bits::bits_to_number;
use crate::bits::is_bit_seq;
use crate::bits::lemma_bits_nat_round_trip;
use crate::bits::lemma_bits_to_nat_bound;
use crate::bits::lemma_nat_bits_round_trip;
use crate::bits::lemma_nat_to_bits_is_bit_seq;
use crate::bits::lemma_nat_to_bits_len;
use crate::bits::nat_to_bits;
use crate::bits::number_to_bits;
use vstd::arithmetic::power2::lemma2_to64;
use vstd::arithmetic::power2::lemma_pow2_strictly_increases;
use vstd::prelude::*;

verus! {

/// The mask byte a key contributes: only the low eight bits of the key
/// carry information, everything above them is ignored.
pub open spec fn key_mask(key: u128) -> u8 {
    (key % 256) as u8
}

/// Element-wise XOR of two bit sequences of equal length.
pub open spec fn xor_bits(a: Seq<u8>, b: Seq<u8>) -> Seq<u8>
    recommends
        a.len() == b.len(),
{
    Seq::new(a.len(), |i: int| a[i] ^ b[i])
}

proof fn lemma_u8_xor_cancel(x: u8, y: u8)
    by (bit_vector)
    ensures
        (x ^ y) ^ y == x,
{
}

proof fn lemma_u8_xor_two_masks(x: u8, y: u8, z: u8)
    by (bit_vector)
    requires
        x <= 1,
        y <= 1,
        z <= 1,
        y != z,
    ensures
        (x ^ y) ^ z != x,
{
}

proof fn lemma_u8_xor_halves(x: u8, y: u8)
    by (bit_vector)
    ensures
        (x ^ y) / 2 == (x / 2) ^ (y / 2),
        (x ^ y) % 2 == (x % 2) ^ (y % 2),
{
}

/// Expanding the XOR of two bytes is the element-wise XOR of their
/// expansions.
proof fn lemma_nat_to_bits_xor(a: u8, b: u8, width: nat)
    ensures
        nat_to_bits((a ^ b) as nat, width) == xor_bits(
            nat_to_bits(a as nat, width),
            nat_to_bits(b as nat, width),
        ),
    decreases width,
{
    if width == 0 {
        assert(nat_to_bits((a ^ b) as nat, 0) =~= xor_bits(
            nat_to_bits(a as nat, 0),
            nat_to_bits(b as nat, 0),
        ));
    } else {
        lemma_nat_to_bits_xor(a / 2, b / 2, (width - 1) as nat);
        lemma_u8_xor_halves(a, b);
        lemma_nat_to_bits_len(a as nat / 2, (width - 1) as nat);
        lemma_nat_to_bits_len(b as nat / 2, (width - 1) as nat);
        assert(nat_to_bits((a ^ b) as nat, width) =~= xor_bits(
            nat_to_bits(a as nat, width),
            nat_to_bits(b as nat, width),
        ));
    }
}

/// What the stage does to one group of up to 8 bits: the group's value is
/// XORed with the mask byte and expanded back to the group's own width.
pub open spec fn p_group(g: Seq<u8>, key: u128) -> Seq<u8> {
    nat_to_bits(((bits_to_nat(g) as u8) ^ key_mask(key)) as nat, g.len())
}

/// What the P-block stage produces: every 8-bit group is masked, and a
/// trailing group shorter than 8 bits is masked at its own width.
pub open spec fn p_block_spec(s: Seq<u8>, key: u128) -> Seq<u8>
    decreases s.len(),
{
    if s.len() == 0 {
        Seq::empty()
    } else if s.len() <= 8 {
        p_group(s, key)
    } else {
        p_group(s.take(8), key) + p_block_spec(s.skip(8), key)
    }
}

pub proof fn lemma_p_group_len(g: Seq<u8>, key: u128)
    ensures
        p_group(g, key).len() == g.len(),
{
    lemma_nat_to_bits_len(((bits_to_nat(g) as u8) ^ key_mask(key)) as nat, g.len());
}

/// On a well-formed group the stage is exactly an element-wise XOR with
/// the expanded mask byte.
proof fn lemma_p_group_as_xor(g: Seq<u8>, key: u128)
    requires
        is_bit_seq(g),
        g.len() <= 8,
    ensures
        p_group(g, key) == xor_bits(g, nat_to_bits(key_mask(key) as nat, g.len())),
{
    lemma_bits_to_nat_bound(g);
    lemma2_to64();
    if g.len() < 8 {
        lemma_pow2_strictly_increases(g.len(), 8);
    }
    let x = bits_to_nat(g) as u8;
    assert(x as nat == bits_to_nat(g));
    lemma_nat_to_bits_xor(x, key_mask(key), g.len());
    lemma_bits_nat_round_trip(g);
}

/// Masking one well-formed group twice with the same key restores it.
proof fn lemma_p_group_involution(g: Seq<u8>, key: u128)
    requires
        is_bit_seq(g),
        g.len() <= 8,
    ensures
        p_group(p_group(g, key), key) == g,
{
    let w = g.len();
    let h = p_group(g, key);
    lemma_p_group_len(g, key);
    lemma_nat_to_bits_is_bit_seq(((bits_to_nat(g) as u8) ^ key_mask(key)) as nat, w);
    lemma_p_group_as_xor(g, key);
    lemma_p_group_as_xor(h, key);
    let mask = nat_to_bits(key_mask(key) as nat, w);
    lemma_nat_to_bits_len(key_mask(key) as nat, w);
    assert forall|i: int| 0 <= i < w implies xor_bits(h, mask)[i] == g[i] by {
        lemma_u8_xor_cancel(g[i], mask[i]);
    }
    assert(xor_bits(h, mask) =~= g);
}

/// Masking a whole well-formed byte group with two keys whose mask bytes
/// differ cannot restore the group: some bit of the group is flipped by
/// exactly one of the two masks.
pub proof fn lemma_p_group_two_keys(g: Seq<u8>, k1: u128, k2: u128)
    requires
        is_bit_seq(g),
        g.len() == 8,
        key_mask(k1) != key_mask(k2),
    ensures
        p_group(p_group(g, k1), k2) != g,
        is_bit_seq(p_group(p_group(g, k1), k2)),
        p_group(p_group(g, k1), k2).len() == 8,
{
    let h1 = p_group(g, k1);
    lemma_p_group_len(g, k1);
    lemma_nat_to_bits_is_bit_seq(((bits_to_nat(g) as u8) ^ key_mask(k1)) as nat, g.len());
    let h = p_group(h1, k2);
    lemma_p_group_len(h1, k2);
    lemma_nat_to_bits_is_bit_seq(((bits_to_nat(h1) as u8) ^ key_mask(k2)) as nat, h1.len());
    lemma_p_group_as_xor(g, k1);
    lemma_p_group_as_xor(h1, k2);
    let m1 = nat_to_bits(key_mask(k1) as nat, 8);
    let m2 = nat_to_bits(key_mask(k2) as nat, 8);
    lemma_nat_to_bits_len(key_mask(k1) as nat, 8);
    lemma_nat_to_bits_len(key_mask(k2) as nat, 8);
    lemma_nat_to_bits_is_bit_seq(key_mask(k1) as nat, 8);
    lemma_nat_to_bits_is_bit_seq(key_mask(k2) as nat, 8);
    assert(m1 != m2) by {
        lemma2_to64();
        lemma_nat_bits_round_trip(key_mask(k1) as nat, 8);
        lemma_nat_bits_round_trip(key_mask(k2) as nat, 8);
    }
    assert(exists|j: int| 0 <= j < 8 && m1[j] != m2[j]) by {
        if forall|j: int| 0 <= j < 8 ==> m1[j] == m2[j] {
            assert(m1 =~= m2);
        }
    }
    let j = choose|j: int| 0 <= j < 8 && m1[j] != m2[j];
    assert(h[j] == (g[j] ^ m1[j]) ^ m2[j]);
    lemma_u8_xor_two_masks(g[j], m1[j], m2[j]);
    assert(h[j] != g[j]);
}

pub proof fn lemma_p_block_len(s: Seq<u8>, key: u128)
    ensures
        p_block_spec(s, key).len() == s.len(),
    decreases s.len(),
{
    if s.len() == 0 {
    } else if s.len() <= 8 {
        lemma_p_group_len(s, key);
    } else {
        lemma_p_group_len(s.take(8), key);
        lemma_p_block_len(s.skip(8), key);
    }
}

pub proof fn lemma_p_block_is_bit_seq(s: Seq<u8>, key: u128)
    ensures
        is_bit_seq(p_block_spec(s, key)),
    decreases s.len(),
{
    if s.len() == 0 {
    } else if s.len() <= 8 {
        lemma_nat_to_bits_is_bit_seq(((bits_to_nat(s) as u8) ^ key_mask(key)) as nat, s.len());
    } else {
        lemma_nat_to_bits_is_bit_seq(
            ((bits_to_nat(s.take(8)) as u8) ^ key_mask(key)) as nat,
            s.take(8).len(),
        );
        lemma_p_block_is_bit_seq(s.skip(8), key);
        lemma_p_group_len(s.take(8), key);
    }
}

/// The stage distributes over a concatenation whose left part is aligned
/// to whole 8-bit groups.
pub proof fn lemma_p_block_concat(a: Seq<u8>, b: Seq<u8>, key: u128)
    requires
        a.len() % 8 == 0,
    ensures
        p_block_spec(a + b, key) == p_block_spec(a, key) + p_block_spec(b, key),
    decreases a.len(),
{
    if a.len() == 0 {
        assert(a + b =~= b);
        assert(p_block_spec(a, key) + p_block_spec(b, key) =~= p_block_spec(b, key));
    } else if b.len() == 0 {
        assert(a + b =~= a);
        assert(p_block_spec(a, key) + p_block_spec(b, key) =~= p_block_spec(a, key));
    } else {
        assert(a.len() >= 8);
        assert((a + b).len() > 8);
        assert((a + b).take(8) =~= a.take(8));
        assert((a + b).skip(8) =~= a.skip(8) + b);
        lemma_p_block_concat(a.skip(8), b, key);
        if a.len() == 8 {
            assert(a.take(8) =~= a);
            assert(a.skip(8) =~= Seq::<u8>::empty());
            assert(a.skip(8) + b =~= b);
            assert(p_block_spec(a + b, key) =~= p_block_spec(a, key) + p_block_spec(b, key));
        } else {
            assert(p_block_spec(a + b, key) =~= p_block_spec(a, key) + p_block_spec(b, key));
        }
    }
}

/// The P-block involution: masking any well-formed bit sequence twice
/// with the same key restores it exactly, whatever its length.
pub proof fn lemma_p_block_involution(s: Seq<u8>, key: u128)
    requires
        is_bit_seq(s),
    ensures
        p_block_spec(p_block_spec(s, key), key) == s,
    decreases s.len(),
{
    if s.len() == 0 {
    } else if s.len() <= 8 {
        lemma_p_group_len(s, key);
        lemma_nat_to_bits_is_bit_seq(((bits_to_nat(s) as u8) ^ key_mask(key)) as nat, s.len());
        lemma_p_group_involution(s, key);
    } else {
        let g = s.take(8);
        let rest = s.skip(8);
        assert(is_bit_seq(g));
        assert(is_bit_seq(rest));
        let pg = p_group(g, key);
        let pr = p_block_spec(rest, key);
        lemma_p_group_len(g, key);
        lemma_nat_to_bits_is_bit_seq(((bits_to_nat(g) as u8) ^ key_mask(key)) as nat, g.len());
        lemma_p_block_concat(pg, pr, key);
        assert(p_block_spec(s, key) == pg + pr);
        lemma_p_group_involution(g, key);
        lemma_p_block_involution(rest, key);
        assert(pg.len() == 8 && pg.len() <= 8);
        assert(p_block_spec(pg, key) == p_group(pg, key));
        assert(p_group(pg, key) + p_block_spec(pr, key) =~= s);
    }
}

/// Masks every group of up to 8 bits of `bits` with the key's mask byte; a
/// trailing group keeps its own width, so nothing is dropped.
pub fn p_block_encryption(bits: &Vec<u8>, key: u128) -> (r: Vec<u8>)
    ensures
        r@ == p_block_spec(bits@, key),
{
    let mut p_bits: Vec<u8> = Vec::new();
    let n = bits.len();
    let mut i: usize = 0;
    while i < n
        invariant
            n == bits@.len(),
            i <= n,
            i % 8 == 0 || i == n,
            p_bits@ == p_block_spec(bits@.take(i as int), key),
        decreases n - i,
    {
        let w = if n - i >= 8 { 8 } else { n - i };
        let mut chunk: Vec<u8> = Vec::new();
        let mut j = i;
        while j < i + w
            invariant
                i + w <= n,
                i <= j <= i + w,
                n == bits@.len(),
                chunk@ == bits@.subrange(i as int, j as int),
            decreases i + w - j,
        {
            chunk.push(bits[j]);
            proof {
                assert(chunk@ =~= bits@.subrange(i as int, j + 1));
            }
            j = j + 1;
        }
        let num = bits_to_number(&chunk);
        let entropy = (key % 256) as u8;
        let mut p_bit = number_to_bits(num ^ entropy, w);
        proof {
            let g = bits@.subrange(i as int, (i + w) as int);
            assert(chunk@ == g);
            assert(num == bits_to_nat(g) as u8) by {
                assert(num as nat == bits_to_nat(g));
            }
            assert(entropy == key_mask(key));
            assert(p_bit@ == p_group(g, key));
            lemma_p_block_concat(bits@.take(i as int), g, key);
            assert(bits@.take(i as int) + g =~= bits@.take((i + w) as int));
            assert(p_block_spec(g, key) == p_group(g, key));
        }
        p_bits.append(&mut p_bit);
        i = i + w;
    }
    proof {
        assert(bits@.take(i as int) =~= bits@);
    }
    p_bits
}

} // verus!
