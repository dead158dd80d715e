use noil::encode_rand::{alphabet_symbol, encode_256bit_base36, ALPHABET_LEN};

#[test]
fn zero_digest_is_the_first_symbol() {
    assert_eq!(encode_256bit_base36(&[0u8; 32]), "a");
}

#[test]
fn small_numbers_have_one_digit() {
    let mut digest = [0u8; 32];
    digest[31] = 1;
    assert_eq!(encode_256bit_base36(&digest), "b");
    digest[31] = 25;
    assert_eq!(encode_256bit_base36(&digest), "z");
    digest[31] = 26;
    assert_eq!(encode_256bit_base36(&digest), "0");
    digest[31] = 35;
    assert_eq!(encode_256bit_base36(&digest), "9");
    digest[31] = 36;
    assert_eq!(encode_256bit_base36(&digest), "ba");
}

#[test]
fn digest_is_read_big_endian() {
    let mut digest = [0u8; 32];
    digest[30] = 1;
    // 256 = 7 * 36 + 4
    assert_eq!(encode_256bit_base36(&digest), "he");
    let mut digest = [0u8; 32];
    digest[0] = 1;
    let high = encode_256bit_base36(&digest);
    assert_eq!(high.len(), 48);
}

#[test]
fn largest_digest_has_fifty_digits() {
    let code = encode_256bit_base36(&[0xffu8; 32]);
    assert_eq!(code, "gnzf0mlccswcdix1d65zasmh0jj6adftw8cs6hsgxedndht3yp");
    assert_eq!(code.len(), 50);
}

#[test]
fn output_uses_only_the_alphabet() {
    let mut digest = [0u8; 32];
    for round in 0..64u32 {
        for (k, byte) in digest.iter_mut().enumerate() {
            *byte = (round.wrapping_mul(97).wrapping_add(k as u32 * 31) % 256) as u8;
        }
        let code = encode_256bit_base36(&digest);
        assert!(!code.is_empty() && code.len() <= 50);
        assert!(code
            .chars()
            .all(|c| c.is_ascii_lowercase() || c.is_ascii_digit()));
    }
}

#[test]
fn alphabet_is_letters_then_digits() {
    assert_eq!(ALPHABET_LEN, 36);
    let all: String = (0..36u8).map(alphabet_symbol).collect();
    assert_eq!(all, "abcdefghijklmnopqrstuvwxyz0123456789");
}
