use zcash_mnemonic::address::{decode_check, encode_check};
use zcash_mnemonic::network::{AddressError, Format};

#[test]
fn p2pkh_framing() {
    let payload: Vec<u8> = (0u8..20).collect();
    let data = encode_check(&Format::P2PKH, &payload);
    let mut expected = vec![0x1C, 0xB8];
    expected.extend_from_slice(&payload);
    expected.extend_from_slice(&[84, 128, 54, 159]);
    assert_eq!(data, expected);
    assert_eq!(decode_check(&data, &Format::P2PKH), Ok(payload));
}

#[test]
fn sprout_framing() {
    let payload = vec![0xAAu8; 64];
    let data = encode_check(&Format::Sprout, &payload);
    assert_eq!(data.len(), 70);
    assert_eq!(&data[..2], &[0x16, 0x9A]);
    assert_eq!(&data[66..], &[246, 106, 242, 190]);
    assert_eq!(decode_check(&data, &Format::Sprout), Ok(payload));
}

#[test]
fn round_trip_of_each_format() {
    for (format, len) in [(Format::P2PKH, 20usize), (Format::P2SH, 20), (Format::Sprout, 64)].iter() {
        let payload: Vec<u8> = (0..*len).map(|i| (i * 13 + 5) as u8).collect();
        let data = encode_check(format, &payload);
        assert_eq!(decode_check(&data, format), Ok(payload));
    }
}

#[test]
fn corrupted_byte_is_caught() {
    let payload: Vec<u8> = (0u8..20).collect();
    let data = encode_check(&Format::P2SH, &payload);
    for i in 2..data.len() {
        let mut bad = data.clone();
        bad[i] ^= 0x01;
        assert!(matches!(
            decode_check(&bad, &Format::P2SH),
            Err(AddressError::InvalidChecksum(_))
        ));
    }
    for i in 0..2 {
        let mut bad = data.clone();
        bad[i] ^= 0x01;
        assert!(matches!(decode_check(&bad, &Format::P2SH), Err(AddressError::InvalidPrefix(_))));
    }
}

#[test]
fn wrong_length_is_caught_first() {
    let data = vec![0u8; 25];
    assert_eq!(decode_check(&data, &Format::P2PKH), Err(AddressError::InvalidByteLength(25)));
    let data = vec![0u8; 26];
    assert_eq!(decode_check(&data, &Format::Sprout), Err(AddressError::InvalidByteLength(26)));
}

#[test]
fn prefix_of_another_format_or_network() {
    let payload = vec![1u8; 20];
    let data = encode_check(&Format::P2SH, &payload);
    assert_eq!(
        decode_check(&data, &Format::P2PKH),
        Err(AddressError::InvalidPrefix(vec![0x1C, 0xBD]))
    );
    // The testnet P2PKH prefix, with a checksum that fits it.
    let mut testnet = vec![0x1D, 0x25];
    testnet.extend_from_slice(&payload);
    testnet.extend_from_slice(&[0, 0, 0, 0]);
    assert_eq!(
        decode_check(&testnet, &Format::P2PKH),
        Err(AddressError::InvalidPrefix(vec![0x1D, 0x25]))
    );
}

#[test]
fn bad_checksum_is_reported() {
    let payload = vec![9u8; 20];
    let mut data = encode_check(&Format::P2PKH, &payload);
    let n = data.len();
    data[n - 1] ^= 0xFF;
    let given = data[n - 4..].to_vec();
    assert_eq!(decode_check(&data, &Format::P2PKH), Err(AddressError::InvalidChecksum(given)));
}
