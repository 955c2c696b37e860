use ducer::encoding::{decode_int, encode_int, MAX_INT};
use ducer::error::{Failure, FailureKind};

#[test]
fn encode_small_values() {
    assert_eq!(encode_int(0), Ok(vec![0x00]));
    assert_eq!(encode_int(1), Ok(vec![0x08]));
    assert_eq!(encode_int(31), Ok(vec![0xf8]));
}

#[test]
fn encode_255_takes_two_bytes() {
    assert_eq!(encode_int(255), Ok(vec![0x07, 0xf9]));
    assert_eq!(encode_int(32), Ok(vec![0x01, 0x01]));
}

#[test]
fn encode_grows_byte_by_byte() {
    let firsts: [u64; 8] = [
        0,
        1 << 5,
        1 << 13,
        1 << 21,
        1 << 29,
        1 << 37,
        1 << 45,
        1 << 53,
    ];
    for (n, first) in firsts.iter().enumerate() {
        assert_eq!(encode_int(*first).unwrap().len(), n + 1);
        if n > 0 {
            assert_eq!(encode_int(*first - 1).unwrap().len(), n);
        }
    }
    assert_eq!(encode_int(MAX_INT).unwrap(), vec![0xff; 8]);
}

#[test]
fn encode_refuses_two_to_the_61() {
    assert_eq!(MAX_INT, (1u64 << 61) - 1);
    assert_eq!(encode_int(1u64 << 61), Err(Failure::ValueTooLarge));
    assert_eq!(encode_int(u64::MAX), Err(Failure::ValueTooLarge));
    assert_eq!(Failure::ValueTooLarge.kind(), FailureKind::ValueError);
}

#[test]
fn decode_undoes_encode() {
    let enc = encode_int(123456789).unwrap();
    assert_eq!(decode_int(&enc), Ok((vec![], 123456789)));
    for i in [0u64, 1, 31, 32, 255, 256, 8191, 8192, 1 << 40, MAX_INT] {
        let enc = encode_int(i).unwrap();
        assert_eq!(decode_int(&enc), Ok((vec![], i)));
    }
}

#[test]
fn decode_leaves_what_comes_before() {
    for i in [0u64, 7, 300, 1 << 33, MAX_INT] {
        for prefix in [&b""[..], b"key", b"\x00\x07\xff"] {
            let mut data = prefix.to_vec();
            data.extend(encode_int(i).unwrap());
            assert_eq!(decode_int(&data), Ok((prefix.to_vec(), i)));
        }
    }
}

#[test]
fn decode_reads_two_integers_off_the_end() {
    let mut data = b"k".to_vec();
    data.extend(encode_int(1000).unwrap());
    data.extend(encode_int(5).unwrap());
    let (rest, second) = decode_int(&data).unwrap();
    assert_eq!(second, 5);
    let (rest, first) = decode_int(&rest).unwrap();
    assert_eq!(first, 1000);
    assert_eq!(rest, b"k".to_vec());
}

#[test]
fn decode_refuses_empty_and_short_input() {
    assert_eq!(decode_int(b""), Err(Failure::Empty));
    // the last byte announces two bytes
    assert_eq!(decode_int(&[0x01]), Err(Failure::Incomplete));
    // the last byte announces eight bytes
    assert_eq!(decode_int(&[0xff, 0xff, 0x07]), Err(Failure::Incomplete));
    assert_eq!(Failure::Empty.kind(), FailureKind::ValueError);
    assert_eq!(Failure::Incomplete.kind(), FailureKind::ValueError);
}

#[test]
fn decode_exact_value() {
    // 0x0123 >> 3 with the length 2 in the low bits of 0x21: 0x0121 >> 3
    assert_eq!(decode_int(&[0xaa, 0x01, 0x21]), Ok((vec![0xaa], 0x0121 >> 3)));
}
