use asb::nibble::{bytes_to_nibble_list, common_prefix_iter, from_mpt_key, nibble_iter, to_mpt_key, Nibble};

#[test]
fn nibbles_of_bytes() {
    let n = bytes_to_nibble_list(vec![0x12, 0xab]);
    let v: Vec<u8> = n.iter().map(|x| x.inner()).collect();
    assert_eq!(v, vec![1, 2, 0xa, 0xb]);
    assert_eq!(nibble_iter(&[0x34]).iter().map(|x| x.inner()).collect::<Vec<_>>(), vec![3, 4]);
}

#[test]
fn hex_prefix_round_trip() {
    let key = bytes_to_nibble_list(vec![0x12, 0x34]);
    let odd = &key[1..];
    let enc = to_mpt_key(odd, true);
    assert_eq!(enc, vec![0x32, 0x34]);
    let (decoded, leaf) = from_mpt_key(enc.clone());
    assert!(leaf);
    assert_eq!(decoded.iter().map(|x| x.inner()).collect::<Vec<_>>(), vec![2, 3, 4]);
    let enc = to_mpt_key(&key, false);
    assert_eq!(enc, vec![0x00, 0x12, 0x34]);
}

#[test]
fn common_prefix() {
    let a = bytes_to_nibble_list(vec![0x12, 0x34]);
    let b = bytes_to_nibble_list(vec![0x12, 0x44]);
    let c = common_prefix_iter(&a, &b);
    assert_eq!(c.len(), 2);
    assert_eq!(Nibble::from_hi_and_lo(0x12)[0].inner(), 1);
}

#[test]
fn halves_of_every_byte_combine_back() {
    for x in 0..=255u8 {
        let [hi, lo] = Nibble::from_hi_and_lo(x);
        assert_eq!(hi.inner(), x >> 4);
        assert_eq!(lo.inner(), x & 0xf);
        assert_eq!(Nibble::combine_pair(hi, lo), x);
        assert_eq!(Nibble::combine_pair(Nibble::from_hi(x), Nibble::from_lo(x)), x);
    }
    assert!(Nibble::zero().is_zero());
    assert_eq!(Nibble::all().len(), 16);
}
