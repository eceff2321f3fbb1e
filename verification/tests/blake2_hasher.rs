use asb::blake2_hasher::{blake2b, blake2s, Blake2bHasher, Blake2sHasher};

fn hex(s: &str) -> Vec<u8> {
    (0..s.len())
        .step_by(2)
        .map(|i| u8::from_str_radix(&s[i..i + 2], 16).unwrap())
        .collect()
}

#[test]
fn blake2s_of_abc_is_the_reference_digest() {
    let expected = hex("508c5e8c327c14e2e1a72ba34eeb452f37458b209ed63a294d999b4c86675982");
    assert_eq!(Blake2sHasher::hash(b"abc").to_vec(), expected);
    assert_eq!(blake2s(b"abc").to_vec(), expected);
}

#[test]
fn blake2b_keeps_the_first_half_of_the_512_bit_digest() {
    let full = hex(
        "ba80a53f981c4d0d6a2797b69f12f6e94c212f14685ac4b74b12bb6fdbffa2d1\
         7d87c5392aab792dc252d5de4533cc9518d38aa8dbf1925ab92386edd4009923",
    );
    assert_eq!(Blake2bHasher::hash(b"abc").to_vec(), full[..32].to_vec());
    assert_eq!(blake2b(b"abc").to_vec(), full[..32].to_vec());
}

#[test]
fn blake2_hashers_of_empty_input() {
    assert_eq!(
        blake2s(b"").to_vec(),
        hex("69217a3079908094e11121d042354a7c1f55b6482ca1a51e1b250dfd1ed0eef9")
    );
    assert_ne!(blake2b(b"").to_vec(), vec![0u8; 32]);
}
