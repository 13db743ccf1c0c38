//! The S-block stage: a fixed nonlinear substitution applied to every
//! aligned 4-bit group. One table serves the forward direction, a second,
//! independently written table serves the inverse direction, and the two
//! are proved to be exact functional inverses of each other.

use crate::bits::bits_to_nat;
use crate::bits::bits_to_number;
use crate::bits::is_bit_seq;
use crate::bits::lemma_bits_nat_round_trip;
use crate::bits::lemma_bits_to_nat_bound;
use crate::bits::lemma_bits_to_nat_concat;
use crate::bits::lemma_nat_bits_round_trip;
use crate::bits::lemma_nat_to_bits_is_bit_seq;
use crate::bits::lemma_nat_to_bits_len;
use crate::bits::nat_to_bits;
use crate::bits::number_to_bits;
use vstd::arithmetic::power2::lemma2_to64;
use vstd::arithmetic::power2::pow2;
use vstd::prelude::*;

verus! {

/// Which of the two fixed substitution tables a pass applies.
#[derive(Clone, Copy)]
pub enum STable {
    Encode,
    Decode,
}

/// The forward substitution table, flattened: a 4-bit value `v` is looked
/// up by its high two bits (row) and low two bits (column).
pub open spec fn s_encode_val(v: nat) -> nat {
    if v == 0 { 10 } else if v == 1 { 4 } else if v == 2 { 3 } else if v == 3 { 12 }
    else if v == 4 { 6 } else if v == 5 { 9 } else if v == 6 { 1 } else if v == 7 { 15 }
    else if v == 8 { 14 } else if v == 9 { 2 } else if v == 10 { 13 } else if v == 11 { 7 }
    else if v == 12 { 0 } else if v == 13 { 8 } else if v == 14 { 5 } else { 11 }
}

/// The inverse substitution table, flattened the same way.
pub open spec fn s_decode_val(v: nat) -> nat {
    if v == 0 { 12 } else if v == 1 { 6 } else if v == 2 { 9 } else if v == 3 { 2 }
    else if v == 4 { 1 } else if v == 5 { 14 } else if v == 6 { 4 } else if v == 7 { 11 }
    else if v == 8 { 13 } else if v == 9 { 5 } else if v == 10 { 0 } else if v == 11 { 15 }
    else if v == 12 { 3 } else if v == 13 { 10 } else if v == 14 { 8 } else { 7 }
}

pub open spec fn s_lookup(table: STable, v: nat) -> nat {
    match table {
        STable::Encode => s_encode_val(v),
        STable::Decode => s_decode_val(v),
    }
}

pub proof fn lemma_s_lookup_bound(table: STable, v: nat)
    ensures
        s_lookup(table, v) < 16,
{
}

/// Applying the forward table and then the inverse table returns every
/// 4-bit value unchanged.
pub proof fn lemma_s_table_inverse(v: nat)
    requires
        v < 16,
    ensures
        s_decode_val(s_encode_val(v)) == v,
{
}

/// The two tables are inverses in the other order as well, so each is a
/// permutation of the 4-bit values.
pub proof fn lemma_s_table_inverse_rev(v: nat)
    requires
        v < 16,
    ensures
        s_encode_val(s_decode_val(v)) == v,
{
}

/// Each table maps distinct 4-bit values to distinct 4-bit values: both
/// are permutations, being inverses of one another.
pub proof fn lemma_s_lookup_injective(table: STable, v: nat, w: nat)
    requires
        v < 16,
        w < 16,
        s_lookup(table, v) == s_lookup(table, w),
    ensures
        v == w,
{
    match table {
        STable::Encode => {
            lemma_s_table_inverse(v);
            lemma_s_table_inverse(w);
        },
        STable::Decode => {
            lemma_s_table_inverse_rev(v);
            lemma_s_table_inverse_rev(w);
        },
    }
}

/// What the S-block stage produces: each aligned 4-bit group is read as a
/// value, substituted through the table, and expanded back to 4 bits; a
/// trailing group shorter than 4 bits is dropped.
pub open spec fn s_block_spec(s: Seq<u8>, table: STable) -> Seq<u8>
    decreases s.len(),
{
    if s.len() < 4 {
        Seq::empty()
    } else {
        nat_to_bits(s_lookup(table, bits_to_nat(s.take(4))), 4) + s_block_spec(s.skip(4), table)
    }
}

pub proof fn lemma_s_block_len(s: Seq<u8>, table: STable)
    ensures
        s_block_spec(s, table).len() == 4 * (s.len() / 4),
    decreases s.len(),
{
    if s.len() >= 4 {
        lemma_s_block_len(s.skip(4), table);
        lemma_nat_to_bits_len(s_lookup(table, bits_to_nat(s.take(4))), 4);
    }
}

pub proof fn lemma_s_block_is_bit_seq(s: Seq<u8>, table: STable)
    ensures
        is_bit_seq(s_block_spec(s, table)),
    decreases s.len(),
{
    if s.len() >= 4 {
        lemma_s_block_is_bit_seq(s.skip(4), table);
        let v = s_lookup(table, bits_to_nat(s.take(4)));
        lemma_nat_to_bits_is_bit_seq(v, 4);
        lemma_nat_to_bits_len(v, 4);
    }
}

/// The stage distributes over a concatenation whose left part is aligned
/// to whole 4-bit groups.
pub proof fn lemma_s_block_concat(a: Seq<u8>, b: Seq<u8>, table: STable)
    requires
        a.len() % 4 == 0,
    ensures
        s_block_spec(a + b, table) == s_block_spec(a, table) + s_block_spec(b, table),
    decreases a.len(),
{
    if a.len() == 0 {
        assert(a + b =~= b);
        assert(s_block_spec(a, table) + s_block_spec(b, table) =~= s_block_spec(b, table));
    } else {
        assert(a.len() >= 4);
        assert((a + b).take(4) =~= a.take(4));
        assert((a + b).skip(4) =~= a.skip(4) + b);
        assert(a.skip(4).len() % 4 == 0);
        lemma_s_block_concat(a.skip(4), b, table);
        assert(s_block_spec(a + b, table) =~= s_block_spec(a, table) + s_block_spec(b, table));
    }
}

/// Substituting one well-formed 4-bit group forward and then backward is
/// the identity.
pub proof fn lemma_s_group_round_trip(g: Seq<u8>)
    requires
        is_bit_seq(g),
        g.len() == 4,
    ensures
        s_block_spec(s_block_spec(g, STable::Encode), STable::Decode) == g,
{
    lemma_bits_to_nat_bound(g);
    lemma2_to64();
    let v = bits_to_nat(g);
    let w = s_encode_val(v);
    lemma_s_lookup_bound(STable::Encode, v);
    let e = nat_to_bits(w, 4);
    assert(g.take(4) =~= g);
    lemma_nat_to_bits_len(w, 4);
    lemma_nat_to_bits_is_bit_seq(w, 4);
    assert(s_block_spec(g.skip(4), STable::Encode) =~= Seq::<u8>::empty());
    assert(s_block_spec(g, STable::Encode) =~= e);
    assert(e.take(4) =~= e);
    lemma_nat_bits_round_trip(w, 4);
    lemma_s_table_inverse(v);
    lemma_bits_nat_round_trip(g);
    lemma_nat_to_bits_len(v, 4);
    assert(s_block_spec(e.skip(4), STable::Decode) =~= Seq::<u8>::empty());
    assert(s_block_spec(e, STable::Decode) =~= nat_to_bits(v, 4));
}

/// The S-block round trip: over any well-formed sequence of whole 4-bit
/// groups, the forward pass followed by the backward pass is the identity.
pub proof fn lemma_s_block_round_trip(s: Seq<u8>)
    requires
        is_bit_seq(s),
        s.len() % 4 == 0,
    ensures
        s_block_spec(s_block_spec(s, STable::Encode), STable::Decode) == s,
    decreases s.len(),
{
    if s.len() == 0 {
        assert(s_block_spec(s, STable::Encode) =~= Seq::<u8>::empty());
        assert(s_block_spec(Seq::<u8>::empty(), STable::Decode) =~= s);
    } else {
        let g = s.take(4);
        let rest = s.skip(4);
        assert(is_bit_seq(g));
        assert(is_bit_seq(rest));
        assert(rest.len() % 4 == 0);
        lemma_s_block_round_trip(rest);
        lemma_s_group_round_trip(g);
        assert(s =~= g + rest);
        lemma_s_block_concat(g, rest, STable::Encode);
        let eg = s_block_spec(g, STable::Encode);
        let er = s_block_spec(rest, STable::Encode);
        assert(eg.len() % 4 == 0) by {
            lemma_s_block_len(g, STable::Encode);
        }
        lemma_s_block_concat(eg, er, STable::Decode);
        assert(s_block_spec(eg, STable::Decode) + s_block_spec(er, STable::Decode) =~= s);
    }
}

/// An 8-bit group passes through the stage as its two 4-bit halves,
/// each substituted on its own.
proof fn lemma_s_block_group8(g: Seq<u8>, table: STable)
    requires
        g.len() == 8,
    ensures
        s_block_spec(g, table) == nat_to_bits(s_lookup(table, bits_to_nat(g.take(4))), 4)
            + nat_to_bits(s_lookup(table, bits_to_nat(g.skip(4))), 4),
{
    let lo = g.skip(4);
    assert(lo.take(4) =~= lo);
    assert(lo.skip(4).len() < 4);
    assert(s_block_spec(lo.skip(4), table) =~= Seq::<u8>::empty());
    assert(s_block_spec(lo, table) =~= nat_to_bits(s_lookup(table, bits_to_nat(lo)), 4));
    assert(s_block_spec(g, table) =~= nat_to_bits(s_lookup(table, bits_to_nat(g.take(4))), 4)
        + nat_to_bits(s_lookup(table, bits_to_nat(lo)), 4));
}

/// Distinct well-formed 8-bit groups stay distinct through either table:
/// the stage loses nothing on whole bytes.
pub proof fn lemma_s_block_injective_8(x: Seq<u8>, y: Seq<u8>, table: STable)
    requires
        is_bit_seq(x),
        is_bit_seq(y),
        x.len() == 8,
        y.len() == 8,
        x != y,
    ensures
        s_block_spec(x, table) != s_block_spec(y, table),
{
    lemma_s_block_group8(x, table);
    lemma_s_block_group8(y, table);
    let vx1 = bits_to_nat(x.take(4));
    let vx2 = bits_to_nat(x.skip(4));
    let vy1 = bits_to_nat(y.take(4));
    let vy2 = bits_to_nat(y.skip(4));
    lemma2_to64();
    lemma_bits_to_nat_bound(x.take(4));
    lemma_bits_to_nat_bound(x.skip(4));
    lemma_bits_to_nat_bound(y.take(4));
    lemma_bits_to_nat_bound(y.skip(4));
    if s_block_spec(x, table) == s_block_spec(y, table) {
        let ax = nat_to_bits(s_lookup(table, vx1), 4);
        let bx = nat_to_bits(s_lookup(table, vx2), 4);
        let ay = nat_to_bits(s_lookup(table, vy1), 4);
        let by = nat_to_bits(s_lookup(table, vy2), 4);
        lemma_nat_to_bits_len(s_lookup(table, vx1), 4);
        lemma_nat_to_bits_len(s_lookup(table, vx2), 4);
        lemma_nat_to_bits_len(s_lookup(table, vy1), 4);
        lemma_nat_to_bits_len(s_lookup(table, vy2), 4);
        assert(ax =~= ay) by {
            assert forall|i: int| 0 <= i < 4 implies ax[i] == ay[i] by {
                assert((ax + bx)[i] == (ay + by)[i]);
            }
        }
        assert(bx =~= by) by {
            assert forall|i: int| 0 <= i < 4 implies bx[i] == by[i] by {
                assert((ax + bx)[i + 4] == (ay + by)[i + 4]);
            }
        }
        lemma_s_lookup_bound(table, vx1);
        lemma_s_lookup_bound(table, vx2);
        lemma_s_lookup_bound(table, vy1);
        lemma_s_lookup_bound(table, vy2);
        lemma_nat_bits_round_trip(s_lookup(table, vx1), 4);
        lemma_nat_bits_round_trip(s_lookup(table, vx2), 4);
        lemma_nat_bits_round_trip(s_lookup(table, vy1), 4);
        lemma_nat_bits_round_trip(s_lookup(table, vy2), 4);
        lemma_s_lookup_injective(table, vx1, vy1);
        lemma_s_lookup_injective(table, vx2, vy2);
        lemma_bits_nat_round_trip(x.take(4));
        lemma_bits_nat_round_trip(x.skip(4));
        lemma_bits_nat_round_trip(y.take(4));
        lemma_bits_nat_round_trip(y.skip(4));
        assert forall|i: int| 0 <= i < 8 implies x[i] == y[i] by {
            if i < 4 {
                assert(x.take(4)[i] == y.take(4)[i]);
            } else {
                assert(x.skip(4)[i - 4] == y.skip(4)[i - 4]);
            }
        }
        assert(x =~= y);
    }
}

/// One substitution table lookup; `row` and `col` are the high and low
/// two bits of the 4-bit group value.
fn s_table(table: STable, row: u8, col: u8) -> (r: u8)
    requires
        row < 4,
        col < 4,
    ensures
        r as nat == s_lookup(table, (4 * row + col) as nat),
{
    match table {
        STable::Encode => {
            if row == 0 {
                if col == 0 { 10 } else if col == 1 { 4 } else if col == 2 { 3 } else { 12 }
            } else if row == 1 {
                if col == 0 { 6 } else if col == 1 { 9 } else if col == 2 { 1 } else { 15 }
            } else if row == 2 {
                if col == 0 { 14 } else if col == 1 { 2 } else if col == 2 { 13 } else { 7 }
            } else {
                if col == 0 { 0 } else if col == 1 { 8 } else if col == 2 { 5 } else { 11 }
            }
        },
        STable::Decode => {
            if row == 0 {
                if col == 0 { 12 } else if col == 1 { 6 } else if col == 2 { 9 } else { 2 }
            } else if row == 1 {
                if col == 0 { 1 } else if col == 1 { 14 } else if col == 2 { 4 } else { 11 }
            } else if row == 2 {
                if col == 0 { 13 } else if col == 1 { 5 } else if col == 2 { 0 } else { 15 }
            } else {
                if col == 0 { 3 } else if col == 1 { 10 } else if col == 2 { 8 } else { 7 }
            }
        },
    }
}

/// Substitutes every aligned 4-bit group of `bits` through the chosen
/// table; a trailing group shorter than 4 bits is dropped.
pub fn s_block_encryption(bits: &Vec<u8>, table: STable) -> (r: Vec<u8>)
    ensures
        r@ == s_block_spec(bits@, table),
{
    let mut encoded_bits: Vec<u8> = Vec::new();
    let n = bits.len();
    let mut i: usize = 0;
    while n - i >= 4
        invariant
            n == bits@.len(),
            i <= n,
            i % 4 == 0,
            encoded_bits@ == s_block_spec(bits@.take(i as int), table),
        decreases n - i,
    {
        let mut row_bits: Vec<u8> = Vec::new();
        row_bits.push(bits[i]);
        row_bits.push(bits[i + 1]);
        let mut column_bits: Vec<u8> = Vec::new();
        column_bits.push(bits[i + 2]);
        column_bits.push(bits[i + 3]);
        let row_index = bits_to_number(&row_bits);
        let column_index = bits_to_number(&column_bits);
        proof {
            let g = bits@.subrange(i as int, i + 4);
            assert(row_bits@ =~= g.take(2));
            assert(column_bits@ =~= g.skip(2));
            lemma_bits_to_nat_concat(g.take(2), g.skip(2));
            assert(g.take(2) + g.skip(2) =~= g);
            lemma_bits_to_nat_bound(g.take(2));
            lemma_bits_to_nat_bound(g.skip(2));
            lemma2_to64();
            assert(pow2(2) == 4);
            assert(row_index as nat == bits_to_nat(g.take(2)));
            assert(column_index as nat == bits_to_nat(g.skip(2)));
            assert(bits_to_nat(g) == bits_to_nat(g.take(2)) * pow2(2) + bits_to_nat(g.skip(2)));
            assert(bits_to_nat(g) == 4 * (row_index as nat) + column_index as nat);
        }
        let mut encoded_value = number_to_bits(s_table(table, row_index, column_index), 4);
        proof {
            let g = bits@.subrange(i as int, i + 4);
            assert(encoded_value@ == nat_to_bits(s_lookup(table, bits_to_nat(g)), 4));
            lemma_s_block_concat(bits@.take(i as int), g, table);
            assert(bits@.take(i as int) + g =~= bits@.take(i + 4));
            assert(g.take(4) =~= g);
            lemma_nat_to_bits_len(s_lookup(table, bits_to_nat(g)), 4);
            assert(s_block_spec(g.skip(4), table) =~= Seq::<u8>::empty());
            assert(s_block_spec(g, table) =~= nat_to_bits(s_lookup(table, bits_to_nat(g)), 4));
        }
        encoded_bits.append(&mut encoded_value);
        i = i + 4;
    }
    proof {
        let aligned = bits@.take(i as int);
        let tail = bits@.skip(i as int);
        assert(aligned + tail =~= bits@);
        lemma_s_block_concat(aligned, tail, table);
        assert(tail.len() < 4);
        assert(s_block_spec(aligned, table) + s_block_spec(tail, table) =~= s_block_spec(aligned, table));
    }
    encoded_bits
}

} // verus!
