//! Conversions between text and bit sequences, and the diagnostic rendering
//! of a bit sequence as groups of binary digits.

use crate::bits::bits_to_nat;
use crate::bits::bits_to_number;
use crate::bits::is_bit_seq;
use crate::bits::lemma_nat_bits_round_trip;
use crate::bits::lemma_nat_to_bits_is_bit_seq;
use crate::bits::lemma_nat_to_bits_len;
use crate::bits::nat_to_bits;
use crate::bits::number_to_bits;
use vstd::arithmetic::power2::lemma2_to64;
use vstd::prelude::*;
use vstd::string::StrSliceExecFns;

verus! {

/// The byte a character contributes to the bit stream: its code point
/// truncated to one byte. Characters above one byte are not represented
/// faithfully; this truncation is a documented limitation.
pub open spec fn char_byte(c: char) -> nat {
    (c as nat) % 256
}

/// A character whose code point fits in one byte; only texts made of such
/// characters survive the conversion round trip unchanged.
pub open spec fn single_byte_char(c: char) -> bool {
    (c as nat) < 256
}

/// The eight bits a character contributes, most significant first.
pub open spec fn char_bits(c: char) -> Seq<u8> {
    nat_to_bits(char_byte(c), 8)
}

/// The bit stream of a text: each character's byte, eight bits each, most
/// significant bit first, in character order.
pub open spec fn string_bits(s: Seq<char>) -> Seq<u8>
    decreases s.len(),
{
    if s.len() == 0 {
        Seq::empty()
    } else {
        char_bits(s[0]) + string_bits(s.skip(1))
    }
}

/// The character a full 8-bit group decodes to. Every byte value is a
/// valid code point, so decoding a full group never fails.
pub open spec fn byte_char(n: nat) -> char
    recommends
        n < 256,
{
    n as char
}

/// The text a bit sequence decodes to: each full 8-bit group becomes the
/// character of its byte value; a trailing group shorter than 8 bits is
/// silently ignored.
pub open spec fn ascii_chars(s: Seq<u8>) -> Seq<char>
    decreases s.len(),
{
    if s.len() < 8 {
        Seq::empty()
    } else {
        seq![byte_char(bits_to_nat(s.take(8)))] + ascii_chars(s.skip(8))
    }
}

/// The digit one bit renders as; only the low bit counts.
pub open spec fn bit_char(b: u8) -> char {
    if b % 2 == 1 {
        '1'
    } else {
        '0'
    }
}

pub open spec fn group_chars(g: Seq<u8>) -> Seq<char> {
    Seq::new(g.len(), |i: int| bit_char(g[i]))
}

/// The display rendering of a bit sequence: its bits as digits, in groups
/// of 8 separated by single spaces, with no leading or trailing space; a
/// trailing group shorter than 8 bits is rendered at its own width.
pub open spec fn display_chars(s: Seq<u8>) -> Seq<char>
    decreases s.len(),
{
    if s.len() == 0 {
        Seq::empty()
    } else if s.len() <= 8 {
        group_chars(s)
    } else {
        group_chars(s.take(8)) + seq![' '] + display_chars(s.skip(8))
    }
}

pub proof fn lemma_string_bits_len(s: Seq<char>)
    ensures
        string_bits(s).len() == 8 * s.len(),
    decreases s.len(),
{
    if s.len() > 0 {
        lemma_string_bits_len(s.skip(1));
        lemma_nat_to_bits_len(char_byte(s[0]), 8);
    }
}

pub proof fn lemma_string_bits_is_bit_seq(s: Seq<char>)
    ensures
        is_bit_seq(string_bits(s)),
    decreases s.len(),
{
    if s.len() > 0 {
        lemma_string_bits_is_bit_seq(s.skip(1));
        lemma_nat_to_bits_is_bit_seq(char_byte(s[0]), 8);
        lemma_nat_to_bits_len(char_byte(s[0]), 8);
    }
}

/// Appending one character to a text appends its eight bits to the stream.
proof fn lemma_string_bits_push(s: Seq<char>, c: char)
    ensures
        string_bits(s.push(c)) == string_bits(s) + char_bits(c),
    decreases s.len(),
{
    if s.len() == 0 {
        let t = s.push(c);
        assert(t.skip(1) =~= Seq::<char>::empty());
        assert(string_bits(t.skip(1)) =~= Seq::<u8>::empty());
        assert(string_bits(s) =~= Seq::<u8>::empty());
        assert(t[0] == c);
        assert(string_bits(t) == char_bits(c) + string_bits(t.skip(1)));
        assert(string_bits(s.push(c)) =~= string_bits(s) + char_bits(c));
    } else {
        assert(s.push(c).skip(1) =~= s.skip(1).push(c));
        lemma_string_bits_push(s.skip(1), c);
        assert(string_bits(s.push(c)) =~= string_bits(s) + char_bits(c));
    }
}

/// Decoding distributes over a concatenation whose left part is aligned to
/// whole 8-bit groups.
proof fn lemma_ascii_concat(a: Seq<u8>, b: Seq<u8>)
    requires
        a.len() % 8 == 0,
    ensures
        ascii_chars(a + b) == ascii_chars(a) + ascii_chars(b),
    decreases a.len(),
{
    if a.len() == 0 {
        assert(a + b =~= b);
        assert(ascii_chars(a) + ascii_chars(b) =~= ascii_chars(b));
    } else {
        assert(a.len() >= 8);
        assert((a + b).take(8) =~= a.take(8));
        assert((a + b).skip(8) =~= a.skip(8) + b);
        lemma_ascii_concat(a.skip(8), b);
        assert(ascii_chars(a + b) =~= ascii_chars(a) + ascii_chars(b));
    }
}

/// The conversion round trip: a text of single-byte characters survives
/// the trip through its bit stream unchanged.
pub proof fn lemma_conversion_round_trip(text: Seq<char>)
    requires
        forall|i: int| 0 <= i < text.len() ==> single_byte_char(#[trigger] text[i]),
    ensures
        ascii_chars(string_bits(text)) == text,
    decreases text.len(),
{
    if text.len() == 0 {
    } else {
        let c = text[0];
        let cb = char_bits(c);
        lemma_nat_to_bits_len(char_byte(c), 8);
        lemma_ascii_concat(cb, string_bits(text.skip(1)));
        lemma_conversion_round_trip(text.skip(1));
        lemma2_to64();
        lemma_nat_bits_round_trip(char_byte(c), 8);
        assert(cb.take(8) =~= cb);
        assert(cb.skip(8).len() < 8);
        assert(ascii_chars(cb.skip(8)) =~= Seq::<char>::empty());
        assert(ascii_chars(cb) =~= seq![byte_char(char_byte(c))]);
        assert(single_byte_char(c));
        assert(char_byte(c) == c as nat);
        let u = c as u32;
        vstd::utf8::char_u32_cast(c, u);
        assert(byte_char(char_byte(c)) == c);
        assert(seq![c] + text.skip(1) =~= text);
    }
}

/// Relies on String::push: appends exactly the given character at the end
/// of the string.
#[verifier::external_body]
fn push_char(s: &mut String, c: char)
    ensures
        final(s)@ == old(s)@.push(c),
{
    s.push(c);
}

/// Transforms a text into its bit sequence: eight bits per character, most
/// significant bit first, the code point truncated to one byte.
pub fn string_to_bits(string: &str) -> (r: Vec<u8>)
    ensures
        r@ == string_bits(string@),
{
    let mut bits: Vec<u8> = Vec::new();
    let n = string.unicode_len();
    for i in 0..n
        invariant
            n == string@.len(),
            bits@ == string_bits(string@.take(i as int)),
    {
        let c = string.get_char(i);
        let code = c as u32;
        let ascii_value = (code % 256) as u8;
        let mut value_bits = number_to_bits(ascii_value, 8);
        proof {
            assert(ascii_value as nat == char_byte(c));
            assert(string@.take(i + 1) =~= string@.take(i as int).push(c));
            lemma_string_bits_push(string@.take(i as int), c);
        }
        bits.append(&mut value_bits);
    }
    proof {
        assert(string@.take(n as int) =~= string@);
    }
    bits
}

/// Transforms a bit sequence back into text: every full 8-bit group is
/// read as a byte and becomes the character with that code point; a
/// trailing group shorter than 8 bits is silently ignored. Every byte is
/// a valid code point, so no input can fail to decode.
pub fn bits_to_ascii_string(bits: &[u8]) -> (r: String)
    ensures
        r@ == ascii_chars(bits@),
{
    let mut result = String::new();
    let n = bits.len();
    let mut i: usize = 0;
    while n - i >= 8
        invariant
            n == bits@.len(),
            i <= n,
            i % 8 == 0,
            result@ == ascii_chars(bits@.take(i as int)),
        decreases n - i,
    {
        let mut chunk: Vec<u8> = Vec::new();
        let mut j = i;
        while j < i + 8
            invariant
                i + 8 <= n,
                i <= j <= i + 8,
                n == bits@.len(),
                chunk@ == bits@.subrange(i as int, j as int),
            decreases i + 8 - j,
        {
            chunk.push(bits[j]);
            proof {
                assert(chunk@ =~= bits@.subrange(i as int, j + 1));
            }
            j = j + 1;
        }
        let ascii_value = bits_to_number(&chunk);
        let c = ascii_value as char;
        push_char(&mut result, c);
        proof {
            let g = bits@.subrange(i as int, i + 8);
            assert(chunk@ == g);
            assert(c == byte_char(bits_to_nat(g)));
            lemma_ascii_concat(bits@.take(i as int), g);
            assert(bits@.take(i as int) + g =~= bits@.take(i + 8));
            assert(g.take(8) =~= g);
            assert(g.skip(8).len() < 8);
            assert(ascii_chars(g.skip(8)) =~= Seq::<char>::empty());
            assert(ascii_chars(g) =~= seq![byte_char(bits_to_nat(g))]);
        }
        i = i + 8;
    }
    proof {
        let aligned = bits@.take(i as int);
        let tail = bits@.skip(i as int);
        assert(aligned + tail =~= bits@);
        lemma_ascii_concat(aligned, tail);
        assert(tail.len() < 8);
        assert(ascii_chars(tail) =~= Seq::<char>::empty());
        assert(ascii_chars(aligned) + ascii_chars(tail) =~= ascii_chars(aligned));
    }
    result
}

/// Rendering distributes over a concatenation whose left part is aligned
/// to whole 8-bit groups, with a separating space where the left part is
/// not empty.
proof fn lemma_display_concat(a: Seq<u8>, b: Seq<u8>)
    requires
        a.len() % 8 == 0,
        b.len() > 0,
    ensures
        a.len() == 0 ==> display_chars(a + b) == display_chars(b),
        a.len() > 0 ==> display_chars(a + b) == display_chars(a) + seq![' '] + display_chars(b),
    decreases a.len(),
{
    if a.len() == 0 {
        assert(a + b =~= b);
    } else if a.len() == 8 {
        assert((a + b).len() > 8);
        assert((a + b).take(8) =~= a);
        assert((a + b).skip(8) =~= b);
        assert(display_chars(a) == group_chars(a));
        assert(group_chars((a + b).take(8)) + seq![' '] + display_chars((a + b).skip(8)) =~= display_chars(a) + seq![' '] + display_chars(b));
    } else {
        assert(a.len() > 8);
        assert((a + b).len() > 8);
        assert((a + b).take(8) =~= a.take(8));
        assert((a + b).skip(8) =~= a.skip(8) + b);
        lemma_display_concat(a.skip(8), b);
        assert(a.skip(8).len() > 0);
        assert(display_chars(a + b) =~= display_chars(a) + seq![' '] + display_chars(b));
    }
}

/// Renders a bit sequence for display: binary digits in groups of 8
/// separated by single spaces, e.g. `[0,0,0,0,0,0,0,0,1,1,1,1,1,1,1,1]`
/// becomes `00000000 11111111`. Only the low bit of each element counts.
pub fn bits_to_bits_string(bits: &Vec<u8>) -> (r: String)
    ensures
        r@ == display_chars(bits@),
{
    let mut result = String::new();
    let n = bits.len();
    let mut i: usize = 0;
    while i < n
        invariant
            n == bits@.len(),
            i <= n,
            i % 8 == 0 || i == n,
            result@ == display_chars(bits@.take(i as int)),
        decreases n - i,
    {
        if i > 0 {
            push_char(&mut result, ' ');
        }
        let w = if n - i >= 8 { 8 } else { n - i };
        let ghost base = result@;
        let mut j = i;
        while j < i + w
            invariant
                i + w <= n,
                i <= j <= i + w,
                n == bits@.len(),
                result@ == base + group_chars(bits@.subrange(i as int, j as int)),
            decreases i + w - j,
        {
            let c = if bits[j] % 2 == 1 {
                '1'
            } else {
                '0'
            };
            push_char(&mut result, c);
            proof {
                assert(group_chars(bits@.subrange(i as int, j + 1)) =~= group_chars(
                    bits@.subrange(i as int, j as int),
                ).push(bit_char(bits@[j as int])));
                assert(result@ =~= base + group_chars(bits@.subrange(i as int, j + 1)));
            }
            j = j + 1;
        }
        proof {
            let prefix = bits@.take(i as int);
            let g = bits@.subrange(i as int, (i + w) as int);
            assert(g.len() > 0);
            lemma_display_concat(prefix, g);
            assert(prefix + g =~= bits@.take((i + w) as int));
            assert(display_chars(g) == group_chars(g));
            if i > 0 {
                assert(base =~= display_chars(prefix) + seq![' ']);
                assert(result@ =~= display_chars(bits@.take((i + w) as int)));
            } else {
                assert(base =~= display_chars(prefix));
                assert(result@ =~= display_chars(bits@.take((i + w) as int)));
            }
        }
        i = i + w;
    }
    proof {
        assert(bits@.take(i as int) =~= bits@);
    }
    result
}

} // verus!
