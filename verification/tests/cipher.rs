use bitcipher::decode;
use bitcipher::encode;
use bitcipher::string_to_bits;
use bitcipher::bits_to_ascii_string;
use bitcipher::bits_to_bits_string;

#[test]
fn test_encryption_from_string() {
    let test_string = "Hello";
    let key: u128 = 998;

    let test_bits = string_to_bits(&test_string);
    let bits_encoded = encode(&test_bits, key);
    let bits_decoded = decode(&bits_encoded, key);

    println!("{}", bits_to_bits_string(&bits_encoded));

    assert_eq!(bits_to_bits_string(&test_bits), "01001000 01100101 01101100 01101100 01101111");
    assert_ne!(bits_to_bits_string(&bits_encoded), "01001000 01100101 01101100 01101100 01101111");
    assert_eq!(bits_to_bits_string(&bits_decoded), "01001000 01100101 01101100 01101100 01101111");
    assert_eq!(bits_to_ascii_string(&bits_decoded), test_string);
}

#[test]
fn test_encryption_from_bytes() {
    let key: u128 = 9999999999;

    let test_bits = vec![0, 1, 0, 0, 1, 0, 0, 0];
    let bits_encoded = encode(&test_bits, key);
    let bits_decoded = decode(&bits_encoded, key);

    assert_eq!(bits_to_bits_string(&test_bits), "01001000");
    assert_ne!(bits_to_bits_string(&bits_encoded), "01001000");
    assert_eq!(bits_to_bits_string(&bits_decoded), "01001000");
    assert_eq!(bits_to_ascii_string(&bits_decoded), "H");
}

#[test]
fn should_return_invalid_bytes_with_invalid_key() {
    let test_string = "Hello";
    let key: u128 = 1;

    let test_bits = string_to_bits(&test_string);
    let bits_encoded = encode(&test_bits, key);
    let bits_decoded = decode(&bits_encoded, 2);

    assert_ne!(bits_to_ascii_string(&bits_decoded), test_string);
}

#[test]
fn round_trip_restores_every_whole_byte_message() {
    let bits = vec![1, 1, 1, 1, 0, 0, 0, 0, 1, 0, 1, 0, 0, 1, 0, 1];
    let keys: [u128; 4] = [0, 1, 255, 340282366920938463463374607431768211455];
    for &key in keys.iter() {
        assert_eq!(decode(&encode(&bits, key), key), bits);
    }
}

#[test]
fn only_the_low_byte_of_the_key_matters() {
    let bits = string_to_bits("key");
    assert_eq!(encode(&bits, 998), encode(&bits, 230));
    assert_eq!(decode(&bits, 998), decode(&bits, 230));
}

#[test]
fn wrong_key_changes_the_first_byte() {
    let bits = vec![0, 1, 0, 0, 1, 0, 0, 0];
    let decoded = decode(&encode(&bits, 10), 11);
    assert_ne!(decoded, bits);
}

#[test]
fn encode_on_empty_input_is_empty() {
    let empty: Vec<u8> = Vec::new();
    assert_eq!(encode(&empty, 77), Vec::<u8>::new());
    assert_eq!(decode(&empty, 77), Vec::<u8>::new());
}

#[test]
fn encode_drops_trailing_bits_shorter_than_a_nibble() {
    // Six bits: the S-block keeps one whole 4-bit group and drops the rest,
    // so the ciphertext has four bits and the trailing two are lost.
    let bits = vec![0, 1, 0, 0, 1, 0];
    let encoded = encode(&bits, 5);
    assert_eq!(encoded.len(), 4);
}
