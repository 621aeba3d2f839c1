use zcash_mnemonic::mnemonic::{
    entropy_length, random_entropy, word_count_for_entropy_length, ExtendedPrivateKeyError,
    MnemonicError, WordlistError,
};
use zcash_mnemonic::network::AddressError;

#[test]
fn entropy_length_of_each_word_count() {
    assert_eq!(entropy_length(12), Ok(16));
    assert_eq!(entropy_length(15), Ok(20));
    assert_eq!(entropy_length(18), Ok(24));
    assert_eq!(entropy_length(21), Ok(28));
    assert_eq!(entropy_length(24), Ok(32));
}

#[test]
fn entropy_length_of_unsupported_word_count() {
    for w in [0u8, 1, 11, 13, 16, 23, 25, 255].iter() {
        assert_eq!(entropy_length(*w), Err(MnemonicError::InvalidWordCount(*w)));
    }
}

#[test]
fn word_count_of_each_entropy_length() {
    assert_eq!(word_count_for_entropy_length(16), Ok(12));
    assert_eq!(word_count_for_entropy_length(20), Ok(15));
    assert_eq!(word_count_for_entropy_length(24), Ok(18));
    assert_eq!(word_count_for_entropy_length(28), Ok(21));
    assert_eq!(word_count_for_entropy_length(32), Ok(24));
    assert_eq!(word_count_for_entropy_length(17), Err(MnemonicError::InvalidEntropyLength(17)));
    assert_eq!(word_count_for_entropy_length(0), Err(MnemonicError::InvalidEntropyLength(0)));
}

#[test]
fn random_entropy_lengths() {
    for (w, len) in [(12u8, 16usize), (15, 20), (18, 24), (21, 28), (24, 32)].iter() {
        let e = random_entropy(*w).unwrap();
        assert_eq!(e.len(), *len);
    }
    let a = random_entropy(24).unwrap();
    let b = random_entropy(24).unwrap();
    assert_ne!(a, b);
}

#[test]
fn random_entropy_unsupported_word_count() {
    assert_eq!(random_entropy(13), Err(MnemonicError::InvalidWordCount(13)));
    assert_eq!(random_entropy(0), Err(MnemonicError::InvalidWordCount(0)));
}

#[test]
fn errors_wrap_their_cause() {
    let e: MnemonicError = AddressError::InvalidPrefixLength(1).into();
    assert_eq!(e, MnemonicError::AddressError(AddressError::InvalidPrefixLength(1)));
    let e: MnemonicError = ExtendedPrivateKeyError::MaximumChildDepthReached(255).into();
    assert_eq!(
        e,
        MnemonicError::ExtendedPrivateKeyError(ExtendedPrivateKeyError::MaximumChildDepthReached(255))
    );
    let e: MnemonicError = WordlistError::InvalidIndex(4000).into();
    assert_eq!(e, MnemonicError::WordlistError(WordlistError::InvalidIndex(4000)));
}

#[test]
fn random_source_error_is_wrapped() {
    let code = core::num::NonZeroU32::new(rand_core::Error::CUSTOM_START).unwrap();
    let e = MnemonicError::from_rand_error(&rand_core::Error::from(code));
    match e {
        MnemonicError::Crate(source, message) => {
            assert_eq!(source, "rand");
            assert!(!message.is_empty());
        }
        _ => panic!("not a random source error"),
    }
}
