//! The core of an HD wallet for Zcash mainnet: mnemonic phrases with their
//! checksums and seeds, the network's prefix registry, the byte layout of
//! extended keys, and the checksummed framing of addresses.

/// Checksummed binary framing of transparent and Sprout addresses.
pub mod address;
/// Mnemonics over a wordlist: phrases, checksums and seeds.
pub mod bip39;
/// Child indices, depths and the serialized layout of extended keys.
pub mod extended_key;
/// Errors, word counts, entropy lengths and the mnemonic interface.
pub mod mnemonic;
/// The mainnet prefix registry and address formats.
pub mod network;
/// Entropy and checksum bits as eleven-bit word indices.
pub mod packing;
/// Splitting, joining and reading phrases against a wordlist.
pub mod phrase;
