use crate::network::{AddressError, NetworkError};
use rand_core::RngCore;
use vstd::prelude::*;

verus! {

/// Why a wordlist lookup failed.
#[derive(Clone, Debug, PartialEq, Eq)]
pub enum WordlistError {
    InvalidIndex(usize),
    InvalidLength(usize),
    InvalidWord(String),
}

/// Why an extended private key could not be built or derived.
#[derive(Clone, Debug, PartialEq, Eq)]
pub enum ExtendedPrivateKeyError {
    InvalidByteLength(usize),
    InvalidChildNumber(u32),
    MaximumChildDepthReached(u8),
    NetworkError(NetworkError),
}

/// Why a mnemonic could not be made, read or turned into keys.
#[derive(Clone, Debug, PartialEq, Eq)]
pub enum MnemonicError {
    AddressError(AddressError),
    Crate(&'static str, String),
    ExtendedPrivateKeyError(ExtendedPrivateKeyError),
    InvalidWordCount(u8),
    InvalidEntropyLength(usize),
    InvalidPhrase(String),
    InvalidWord(String),
    WordlistError(WordlistError),
}

impl From<AddressError> for MnemonicError {
    fn from(error: AddressError) -> Self {
        MnemonicError::AddressError(error)
    }
}

impl vstd::std_specs::convert::FromSpecImpl<AddressError> for MnemonicError {
    open spec fn obeys_from_spec() -> bool {
        true
    }

    open spec fn from_spec(v: AddressError) -> MnemonicError {
        MnemonicError::AddressError(v)
    }
}

impl From<ExtendedPrivateKeyError> for MnemonicError {
    fn from(error: ExtendedPrivateKeyError) -> Self {
        MnemonicError::ExtendedPrivateKeyError(error)
    }
}

impl vstd::std_specs::convert::FromSpecImpl<ExtendedPrivateKeyError> for MnemonicError {
    open spec fn obeys_from_spec() -> bool {
        true
    }

    open spec fn from_spec(v: ExtendedPrivateKeyError) -> MnemonicError {
        MnemonicError::ExtendedPrivateKeyError(v)
    }
}

impl From<WordlistError> for MnemonicError {
    fn from(error: WordlistError) -> Self {
        MnemonicError::WordlistError(error)
    }
}

impl vstd::std_specs::convert::FromSpecImpl<WordlistError> for MnemonicError {
    open spec fn obeys_from_spec() -> bool {
        true
    }

    open spec fn from_spec(v: WordlistError) -> MnemonicError {
        MnemonicError::WordlistError(v)
    }
}

/// The error of rand_core's random sources, carried as an opaque value.
#[verifier::external_type_specification]
#[verifier::external_body]
pub struct ExRandError(rand_core::Error);

/// Relies on rand_core's `OsRng::try_fill_bytes`: on success every one of the
/// `len` bytes has been drawn from the operating system's secure source.
#[verifier::external_body]
fn os_random_bytes(len: usize) -> (r: Result<Vec<u8>, rand_core::Error>)
    ensures
        r matches Ok(bytes) ==> bytes@.len() == len,
{
    let mut bytes = vec![0u8; len];
    match rand_core::OsRng.try_fill_bytes(&mut bytes) {
        Ok(()) => Ok(bytes),
        Err(error) => Err(error),
    }
}

/// Relies on the `Debug` formatting of `rand_core::Error` for its message.
#[verifier::external_body]
fn rand_error_message(error: &rand_core::Error) -> String {
    format!("{:?}", error)
}

impl MnemonicError {
    /// Wraps a failure of the random source, keeping its message.
    pub fn from_rand_error(error: &rand_core::Error) -> (r: MnemonicError)
        ensures
            r matches MnemonicError::Crate(source, _) && source@ == "rand"@,
    {
        MnemonicError::Crate("rand", rand_error_message(error))
    }
}

/// The word counts a phrase may have.
pub open spec fn is_supported_word_count(w: int) -> bool {
    w == 12 || w == 15 || w == 18 || w == 21 || w == 24
}

/// The number of entropy bytes behind a phrase of `w` words: 32 bits for
/// every three words.
pub open spec fn entropy_byte_length(w: int) -> int {
    w / 3 * 4
}

/// The number of checksum bits appended to `w / 3 * 32` entropy bits.
pub open spec fn checksum_bit_length(w: int) -> int {
    w / 3
}

/// Returns the entropy length in bytes of a phrase of `word_count` words.
pub fn entropy_length(word_count: u8) -> (r: Result<usize, MnemonicError>)
    ensures
        is_supported_word_count(word_count as int) ==> r == Ok::<usize, MnemonicError>(
            entropy_byte_length(word_count as int) as usize,
        ),
        !is_supported_word_count(word_count as int) ==> r == Err::<usize, MnemonicError>(
            MnemonicError::InvalidWordCount(word_count),
        ),
{
    match word_count {
        12 | 15 | 18 | 21 | 24 => Ok((word_count as usize) / 3 * 4),
        _ => Err(MnemonicError::InvalidWordCount(word_count)),
    }
}

/// Returns the word count of a phrase that encodes `len` bytes of entropy.
pub fn word_count_for_entropy_length(len: usize) -> (r: Result<u8, MnemonicError>)
    ensures
        (exists|w: int| is_supported_word_count(w) && entropy_byte_length(w) == len) <==> r is Ok,
        r matches Ok(w) ==> is_supported_word_count(w as int) && entropy_byte_length(w as int)
            == len,
        r is Err ==> r == Err::<u8, MnemonicError>(MnemonicError::InvalidEntropyLength(len)),
{
    match len {
        16 | 20 | 24 | 28 | 32 => {
            let w = (len / 4 * 3) as u8;
            assert(is_supported_word_count(w as int) && entropy_byte_length(w as int) == len);
            Ok(w)
        },
        _ => Err(MnemonicError::InvalidEntropyLength(len)),
    }
}

/// Draws fresh entropy for a phrase of `word_count` words from the operating
/// system's secure random source.
pub fn random_entropy(word_count: u8) -> (r: Result<Vec<u8>, MnemonicError>)
    ensures
        !is_supported_word_count(word_count as int) ==> r == Err::<Vec<u8>, MnemonicError>(
            MnemonicError::InvalidWordCount(word_count),
        ),
        r matches Ok(e) ==> e@.len() == entropy_byte_length(word_count as int),
        is_supported_word_count(word_count as int) && r is Err ==> (r matches Err(
            MnemonicError::Crate(source, _),
        ) && source@ == "rand"@),
{
    let len = match entropy_length(word_count) {
        Ok(len) => len,
        Err(e) => return Err(e),
    };
    match os_random_bytes(len) {
        Ok(bytes) => Ok(bytes),
        Err(e) => Err(MnemonicError::from_rand_error(&e)),
    }
}

/// The interface of a mnemonic of some chain, which each chain implements
/// with its own key, address and format types.
pub trait Mnemonic: Clone + Eq + Sized {
    type Address;
    type ExtendedPrivateKey;
    type ExtendedPublicKey;
    type Format;
    type PrivateKey;
    type PublicKey;

    /// Returns a new mnemonic phrase given the word count.
    fn new(word_count: u8) -> (r: Result<Self, MnemonicError>)
        ensures
            !is_supported_word_count(word_count as int) ==> (r matches Err(
                MnemonicError::InvalidWordCount(w),
            ) && w == word_count),
    ;

    /// Returns the extended private key of the mnemonic.
    fn to_extended_private_key(&self, password: Option<&str>) -> Result<
        Self::ExtendedPrivateKey,
        MnemonicError,
    >;

    /// Returns the extended public key of the mnemonic.
    fn to_extended_public_key(&self, password: Option<&str>) -> Result<
        Self::ExtendedPublicKey,
        MnemonicError,
    >;

    /// Returns the private key of the mnemonic.
    fn to_private_key(&self, password: Option<&str>) -> Result<Self::PrivateKey, MnemonicError>;

    /// Returns the public key of the mnemonic.
    fn to_public_key(&self, password: Option<&str>) -> Result<Self::PublicKey, MnemonicError>;

    /// Returns the address of the mnemonic.
    fn to_address(&self, password: Option<&str>, format: &Self::Format) -> Result<
        Self::Address,
        MnemonicError,
    >;
}

} // verus!
