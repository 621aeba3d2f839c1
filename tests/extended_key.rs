use zcash_mnemonic::extended_key::{child_depth, ChildIndex, ExtendedKeyData, HARDENED_OFFSET};
use zcash_mnemonic::mnemonic::ExtendedPrivateKeyError;

fn sample(key_len: usize) -> ExtendedKeyData {
    ExtendedKeyData {
        depth: 3,
        parent_fingerprint: [0xDE, 0xAD, 0xBE, 0xEF],
        child_index: 0x8000_0002,
        chain_code: (0u8..32).collect(),
        key: (100u8..100 + key_len as u8).collect(),
    }
}

#[test]
fn child_index_numbers() {
    assert_eq!(ChildIndex::normal(5).unwrap().to_index(), 5);
    assert_eq!(ChildIndex::hardened(5).unwrap().to_index(), 0x8000_0005);
    assert_eq!(
        ChildIndex::normal(HARDENED_OFFSET),
        Err(ExtendedPrivateKeyError::InvalidChildNumber(HARDENED_OFFSET))
    );
    assert_eq!(
        ChildIndex::hardened(u32::MAX),
        Err(ExtendedPrivateKeyError::InvalidChildNumber(u32::MAX))
    );
}

#[test]
fn child_index_from_serialized_number() {
    assert_eq!(ChildIndex::from_index(0), ChildIndex::Normal(0));
    assert_eq!(ChildIndex::from_index(0x7FFF_FFFF), ChildIndex::Normal(0x7FFF_FFFF));
    assert_eq!(ChildIndex::from_index(0x8000_0000), ChildIndex::Hardened(0));
    assert_eq!(ChildIndex::from_index(u32::MAX), ChildIndex::Hardened(0x7FFF_FFFF));
    assert!(ChildIndex::from_index(0x8000_0001).is_hardened());
    assert!(!ChildIndex::from_index(1).is_hardened());
}

#[test]
fn sibling_children_have_one_more_depth() {
    let parent_depth = 4u8;
    let a = ChildIndex::normal(7).unwrap();
    let b = ChildIndex::normal(8).unwrap();
    assert_ne!(a.to_index(), b.to_index());
    assert_eq!(child_depth(parent_depth), Ok(5));
    assert_eq!(child_depth(0), Ok(1));
    assert_eq!(child_depth(254), Ok(255));
    assert_eq!(child_depth(255), Err(ExtendedPrivateKeyError::MaximumChildDepthReached(255)));
}

#[test]
fn key_data_layout() {
    let d = sample(32);
    let bytes = d.to_bytes();
    assert_eq!(bytes.len(), 73);
    assert_eq!(bytes[0], 3);
    assert_eq!(&bytes[1..5], &[0xDE, 0xAD, 0xBE, 0xEF]);
    assert_eq!(&bytes[5..9], &[0x80, 0x00, 0x00, 0x02]);
    assert_eq!(&bytes[9..41], &d.chain_code[..]);
    assert_eq!(&bytes[41..], &d.key[..]);
}

#[test]
fn key_data_round_trip() {
    for key_len in [32usize, 33].iter() {
        let d = sample(*key_len);
        let back = ExtendedKeyData::from_bytes(&d.to_bytes()).unwrap();
        assert_eq!(back.depth, d.depth);
        assert_eq!(back.parent_fingerprint, d.parent_fingerprint);
        assert_eq!(back.child_index, d.child_index);
        assert_eq!(back.chain_code, d.chain_code);
        assert_eq!(back.key, d.key);
    }
}

#[test]
fn key_data_of_wrong_length() {
    for n in [0usize, 72, 75, 78].iter() {
        assert!(matches!(
            ExtendedKeyData::from_bytes(&vec![0u8; *n]),
            Err(ExtendedPrivateKeyError::InvalidByteLength(x)) if x == *n
        ));
    }
}
