use asb::serde::{read_vec, write_vec, MyFromBytes, MyToBytes, SerdeError, SerdeType};

const LOCAL: SerdeType = SerdeType { consistent: false };

#[test]
fn integers_are_little_endian_and_read_back() {
    assert_eq!(0x0102u16.to_bytes_consensus(), vec![0x02, 0x01]);
    assert_eq!(0x01020304u32.to_bytes_local(), vec![4, 3, 2, 1]);
    assert_eq!(
        0x0102030405060708u64.to_bytes_consensus(),
        vec![8, 7, 6, 5, 4, 3, 2, 1]
    );
    assert_eq!(u64::from_bytes_consensus(&[8, 7, 6, 5, 4, 3, 2, 1]), Ok(0x0102030405060708));
    assert_eq!(u32::from_bytes_local(&0xdeadbeefu32.to_bytes_local()), Ok(0xdeadbeef));
    assert_eq!(u8::from_bytes_consensus(&[0x7f]), Ok(0x7f));
    assert_eq!(usize::from_bytes_local(&12345usize.to_bytes_local()), Ok(12345));
}

#[test]
fn short_input_is_unexpected_eof() {
    assert_eq!(u32::from_bytes_local(&[1, 2, 3]), Err(SerdeError::UnexpectedEof));
    assert_eq!(u64::from_bytes_consensus(&[]), Err(SerdeError::UnexpectedEof));
    let mut bytes = vec![1u8, 2, 3].to_bytes_local();
    bytes.pop();
    assert_eq!(Vec::<u8>::from_bytes_local(&bytes), Err(SerdeError::UnexpectedEof));
}

#[test]
fn byte_strings_and_vectors_are_length_prefixed() {
    let v = vec![9u8, 8, 7];
    let bytes = v.to_bytes_consensus();
    let mut expected = 3usize.to_le_bytes().to_vec();
    expected.extend_from_slice(&[9, 8, 7]);
    assert_eq!(bytes, expected);
    assert_eq!(Vec::<u8>::from_bytes_consensus(&bytes), Ok(v));

    let hashes: Vec<[u8; 32]> = vec![[1u8; 32], [2u8; 32]];
    let mut out = Vec::new();
    write_vec(&hashes, &mut out, LOCAL);
    assert_eq!(out.len(), std::mem::size_of::<usize>() + 64);
    let (back, end) = read_vec::<[u8; 32]>(&out, 0, LOCAL).unwrap();
    assert_eq!(back, hashes);
    assert_eq!(end, out.len());
    assert_eq!(
        read_vec::<[u8; 32]>(&out[..out.len() - 1], 0, LOCAL),
        Err(SerdeError::UnexpectedEof)
    );
}
