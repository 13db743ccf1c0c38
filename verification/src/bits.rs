//! Bit-level building blocks: the numeric value of a short bit sequence and
//! the big-endian expansion of a value back into bits.

use vstd::arithmetic::power2::lemma2_to64;
use vstd::arithmetic::power2::lemma_pow2_strictly_increases;
use vstd::arithmetic::power2::lemma_pow2_unfold;
use vstd::arithmetic::power2::pow2;
use vstd::prelude::*;

verus! {

/// A well-formed bit sequence holds only the values 0 and 1.
pub open spec fn is_bit_seq(s: Seq<u8>) -> bool {
    forall|i: int| 0 <= i < s.len() ==> s[i] == 0 || s[i] == 1
}

/// The value one element contributes: only its low bit counts, so stray
/// high bits are tolerated and silently masked off.
pub open spec fn bit_val(b: u8) -> nat {
    (b % 2) as nat
}

/// Big-endian numeric value of a bit sequence: the first element is the
/// most significant bit.
pub open spec fn bits_to_nat(s: Seq<u8>) -> nat
    decreases s.len(),
{
    if s.len() == 0 {
        0
    } else {
        2 * bits_to_nat(s.drop_last()) + bit_val(s.last())
    }
}

/// The low `width` bits of `n`, most significant first; bits of `n` at or
/// above position `width` are dropped.
pub open spec fn nat_to_bits(n: nat, width: nat) -> Seq<u8>
    decreases width,
{
    if width == 0 {
        Seq::empty()
    } else {
        nat_to_bits(n / 2, (width - 1) as nat).push((n % 2) as u8)
    }
}

pub proof fn lemma_nat_to_bits_len(n: nat, width: nat)
    ensures
        nat_to_bits(n, width).len() == width,
    decreases width,
{
    if width > 0 {
        lemma_nat_to_bits_len(n / 2, (width - 1) as nat);
    }
}

pub proof fn lemma_nat_to_bits_is_bit_seq(n: nat, width: nat)
    ensures
        is_bit_seq(nat_to_bits(n, width)),
    decreases width,
{
    if width > 0 {
        lemma_nat_to_bits_is_bit_seq(n / 2, (width - 1) as nat);
    }
}

pub proof fn lemma_bits_to_nat_bound(s: Seq<u8>)
    ensures
        bits_to_nat(s) < pow2(s.len()),
    decreases s.len(),
{
    if s.len() == 0 {
        lemma2_to64();
    } else {
        lemma_bits_to_nat_bound(s.drop_last());
        lemma_pow2_unfold(s.len());
    }
}

/// Expanding a value to `width` bits and reading it back recovers the value,
/// as long as the value fits in the width.
pub proof fn lemma_nat_bits_round_trip(n: nat, width: nat)
    requires
        n < pow2(width),
    ensures
        bits_to_nat(nat_to_bits(n, width)) == n,
    decreases width,
{
    if width == 0 {
        lemma2_to64();
    } else {
        lemma_pow2_unfold(width);
        lemma_nat_bits_round_trip(n / 2, (width - 1) as nat);
        let prefix = nat_to_bits(n / 2, (width - 1) as nat);
        let whole = prefix.push((n % 2) as u8);
        assert(whole.drop_last() =~= prefix);
        assert(whole.last() == (n % 2) as u8);
    }
}

/// Reading a well-formed bit sequence as a value and expanding it again at
/// the same width recovers the sequence.
pub proof fn lemma_bits_nat_round_trip(s: Seq<u8>)
    requires
        is_bit_seq(s),
    ensures
        nat_to_bits(bits_to_nat(s), s.len()) == s,
    decreases s.len(),
{
    if s.len() == 0 {
        assert(nat_to_bits(0, 0) =~= s);
    } else {
        let prefix = s.drop_last();
        assert(is_bit_seq(prefix));
        lemma_bits_nat_round_trip(prefix);
        let n = bits_to_nat(s);
        assert(n == 2 * bits_to_nat(prefix) + bit_val(s.last()));
        assert(bit_val(s.last()) == s.last());
        assert(n / 2 == bits_to_nat(prefix));
        assert((n % 2) as u8 == s.last());
        assert(nat_to_bits(n, s.len()) =~= s);
    }
}

/// The value of a concatenation: the left part is shifted past the right part.
pub proof fn lemma_bits_to_nat_concat(a: Seq<u8>, b: Seq<u8>)
    ensures
        bits_to_nat(a + b) == bits_to_nat(a) * pow2(b.len()) + bits_to_nat(b),
    decreases b.len(),
{
    if b.len() == 0 {
        lemma2_to64();
        assert(a + b =~= a);
    } else {
        lemma_bits_to_nat_concat(a, b.drop_last());
        lemma_pow2_unfold(b.len());
        assert((a + b).drop_last() =~= a + b.drop_last());
        assert((a + b).last() == b.last());
        assert(bits_to_nat(a) * pow2(b.len()) == 2 * (bits_to_nat(a) * pow2((b.len() - 1) as nat)))
            by (nonlinear_arith)
            requires pow2(b.len()) == 2 * pow2((b.len() - 1) as nat);
    }
}

/// Folds an ordered sequence of up to 8 bits into a number, most
/// significant bit first. Only the low bit of each element counts.
pub fn bits_to_number(bits: &Vec<u8>) -> (r: u8)
    requires
        bits@.len() <= 8,
    ensures
        r as nat == bits_to_nat(bits@),
{
    let mut result: u8 = 0;
    let n = bits.len();
    for i in 0..n
        invariant
            n == bits@.len() <= 8,
            result as nat == bits_to_nat(bits@.take(i as int)),
    {
        proof {
            lemma_bits_to_nat_bound(bits@.take(i as int));
            if (i as nat) < 7 {
                lemma_pow2_strictly_increases(i as nat, 7);
            }
            lemma2_to64();
            assert(bits@.take(i + 1).drop_last() =~= bits@.take(i as int));
            assert(bits@.take(i + 1).last() == bits@[i as int]);
        }
        result = 2 * result + bits[i] % 2;
    }
    proof {
        assert(bits@.take(n as int) =~= bits@);
    }
    result
}

/// Produces exactly `num_bits` bits representing `number` in big-endian
/// order; high bits of `number` that do not fit are dropped.
pub fn number_to_bits(number: u8, num_bits: usize) -> (r: Vec<u8>)
    ensures
        r@ == nat_to_bits(number as nat, num_bits as nat),
    decreases num_bits,
{
    if num_bits == 0 {
        Vec::new()
    } else {
        let mut r = number_to_bits(number / 2, num_bits - 1);
        r.push(number % 2);
        r
    }
}

} // verus!
