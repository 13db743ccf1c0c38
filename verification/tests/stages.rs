use bitcipher::bits::bits_to_number;
use bitcipher::bits::number_to_bits;
use bitcipher::bits_to_ascii_string;
use bitcipher::bits_to_bits_string;
use bitcipher::pblock::p_block_encryption;
use bitcipher::sblock::s_block_encryption;
use bitcipher::sblock::STable;
use bitcipher::string_to_bits;

#[test]
fn s_tables_are_inverses_on_every_nibble() {
    for v in 0u8..16 {
        let group = number_to_bits(v, 4);
        let substituted = s_block_encryption(&group, STable::Encode);
        let restored = s_block_encryption(&substituted, STable::Decode);
        assert_eq!(restored, group);
        let substituted_back = s_block_encryption(&s_block_encryption(&group, STable::Decode), STable::Encode);
        assert_eq!(substituted_back, group);
    }
}

#[test]
fn s_block_substitutes_each_nibble() {
    // Value 4 sits at row 1, column 0 of the forward table and maps to 6.
    let group = vec![0, 1, 0, 0];
    assert_eq!(s_block_encryption(&group, STable::Encode), vec![0, 1, 1, 0]);
}

#[test]
fn s_block_drops_a_short_trailing_group() {
    let bits = vec![0, 1, 0, 0, 1, 0];
    let out = s_block_encryption(&bits, STable::Encode);
    assert_eq!(out, vec![0, 1, 1, 0]);
}

#[test]
fn p_block_masks_each_byte_with_the_low_key_byte() {
    // 01001000 is 0x48; a key of 1 flips exactly the lowest bit.
    let bits = vec![0, 1, 0, 0, 1, 0, 0, 0];
    assert_eq!(p_block_encryption(&bits, 1), vec![0, 1, 0, 0, 1, 0, 0, 1]);
}

#[test]
fn p_block_applied_twice_is_the_identity() {
    let aligned = vec![1, 0, 1, 1, 0, 0, 1, 0, 1, 1, 1, 1, 0, 0, 0, 0];
    assert_eq!(p_block_encryption(&p_block_encryption(&aligned, 171), 171), aligned);
    // A trailing group shorter than eight bits keeps its width, so the
    // involution holds for any length.
    let short = vec![1, 0, 1, 1, 0];
    assert_eq!(p_block_encryption(&p_block_encryption(&short, 171), 171), short);
    let thirteen = vec![1, 0, 1, 1, 0, 0, 1, 0, 1, 1, 1, 1, 0];
    assert_eq!(p_block_encryption(&p_block_encryption(&thirteen, 99), 99), thirteen);
}

#[test]
fn text_survives_the_conversion_round_trip() {
    let text = "rust";
    assert_eq!(bits_to_ascii_string(&string_to_bits(text)), text);
    assert_eq!(bits_to_ascii_string(&string_to_bits("")), "");
}

#[test]
fn string_to_bits_emits_eight_bits_per_character() {
    let bits = string_to_bits("rust");
    assert_eq!(bits.len(), 32);
    assert_eq!(
        bits_to_bits_string(&bits),
        "01110010 01110101 01110011 01110100"
    );
}

#[test]
fn bits_to_ascii_string_ignores_a_short_trailing_group() {
    let mut bits = string_to_bits("H");
    bits.push(1);
    bits.push(0);
    bits.push(1);
    assert_eq!(bits_to_ascii_string(&bits), "H");
}

#[test]
fn bits_to_bits_string_renders_a_short_trailing_group() {
    assert_eq!(bits_to_bits_string(&vec![1, 0, 1]), "101");
    assert_eq!(bits_to_bits_string(&vec![0, 0, 0, 0, 0, 0, 0, 0, 1]), "00000000 1");
    assert_eq!(bits_to_bits_string(&Vec::new()), "");
}

#[test]
fn bits_to_number_folds_most_significant_bit_first() {
    assert_eq!(bits_to_number(&vec![1, 0, 1, 1]), 11);
    assert_eq!(bits_to_number(&vec![1, 1, 1, 1, 1, 1, 1, 1]), 255);
    assert_eq!(bits_to_number(&Vec::new()), 0);
    // Stray high bits of an element are masked off.
    assert_eq!(bits_to_number(&vec![2, 3]), 1);
}

#[test]
fn number_to_bits_is_big_endian_at_the_given_width() {
    assert_eq!(number_to_bits(11, 4), vec![1, 0, 1, 1]);
    assert_eq!(number_to_bits(72, 8), vec![0, 1, 0, 0, 1, 0, 0, 0]);
    assert_eq!(number_to_bits(0, 0), Vec::<u8>::new());
    // Bits of the value above the width are dropped.
    assert_eq!(number_to_bits(255, 4), vec![1, 1, 1, 1]);
}
