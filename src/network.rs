use vstd::prelude::*;

verus! {

/// The layout of a Zcash address.
#[derive(Clone, Copy, Debug, PartialEq, Eq)]
pub enum Format {
    P2PKH,
    P2SH,
    Sprout,
    /// A Sapling address, with its diversifier when one was chosen.
    Sapling(Option<[u8; 11]>),
}

/// Why an address prefix was refused.
#[derive(Clone, Debug, PartialEq, Eq)]
pub enum AddressError {
    InvalidByteLength(usize),
    InvalidChecksum(Vec<u8>),
    InvalidPrefix(Vec<u8>),
    InvalidPrefixLength(usize),
}

/// Why a private key prefix was refused.
#[derive(Clone, Debug, PartialEq, Eq)]
pub enum PrivateKeyError {
    InvalidPrefix(Vec<u8>),
}

/// Why a network name or an extended key prefix was refused.
#[derive(Clone, Debug, PartialEq, Eq)]
pub enum NetworkError {
    InvalidExtendedPrivateKeyPrefix(String),
    InvalidExtendedPublicKeyPrefix(String),
    InvalidNetwork(String),
}

/// The Zcash main network.
#[derive(Clone, Copy, Debug, PartialEq, Eq, PartialOrd, Ord, Hash)]
pub struct Mainnet;

/// The address prefix bytes of each format on mainnet; Sapling's is the
/// human-readable part "zs".
pub open spec fn address_prefix(format: Format) -> Seq<u8> {
    match format {
        Format::P2PKH => seq![0x1Cu8, 0xB8u8],
        Format::P2SH => seq![0x1Cu8, 0xBDu8],
        Format::Sprout => seq![0x16u8, 0x9Au8],
        Format::Sapling(_) => seq![0x7Au8, 0x73u8],
    }
}

/// The second prefix bytes that mark a mainnet address.
pub open spec fn is_mainnet_address_byte(b: u8) -> bool {
    b == 0xB8u8 || b == 0xBDu8 || b == 0x9Au8 || b == 0x73u8
}

pub open spec fn wif_prefix() -> u8 {
    0x80u8
}

pub open spec fn extended_private_key_prefix() -> Seq<char> {
    "secret-extended-key-main"@
}

pub open spec fn extended_public_key_prefix() -> Seq<char> {
    "zviews"@
}

pub open spec fn network_name() -> Seq<char> {
    "mainnet"@
}

/// Whether two strings hold the same characters.
pub(crate) fn same_text(a: &str, b: &str) -> (r: bool)
    ensures
        r == (a@ == b@),
{
    let x = a.to_owned();
    let y = b.to_owned();
    x == y
}

impl Mainnet {
    /// Returns the address prefix of the given format.
    pub fn to_address_prefix(format: &Format) -> (r: Vec<u8>)
        ensures
            r@ == address_prefix(*format),
    {
        match format {
            Format::P2PKH => vec![0x1C, 0xB8],
            Format::P2SH => vec![0x1C, 0xBD],
            Format::Sprout => vec![0x16, 0x9A],
            Format::Sapling(_) => vec![0x7A, 0x73],
        }
    }

    /// Returns the network of the given address prefix.
    pub fn from_address_prefix(prefix: &Vec<u8>) -> (r: Result<Mainnet, AddressError>)
        ensures
            prefix@.len() < 2 ==> r == Err::<Mainnet, AddressError>(
                AddressError::InvalidPrefixLength(prefix@.len() as usize),
            ),
            prefix@.len() >= 2 ==> (r is Ok <==> is_mainnet_address_byte(prefix@[1])),
            prefix@.len() >= 2 && !is_mainnet_address_byte(prefix@[1]) ==> (r matches Err(
                AddressError::InvalidPrefix(p),
            ) && p@ == prefix@),
    {
        if prefix.len() < 2 {
            return Err(AddressError::InvalidPrefixLength(prefix.len()));
        }
        let b = prefix[1];
        if b == 0xB8 || b == 0xBD || b == 0x9A || b == 0x73 {
            Ok(Mainnet)
        } else {
            Err(AddressError::InvalidPrefix(prefix.clone()))
        }
    }

    /// Returns the wif prefix of the network.
    pub fn to_wif_prefix() -> (r: u8)
        ensures
            r == wif_prefix(),
    {
        0x80
    }

    /// Returns the network of the given wif prefix.
    pub fn from_wif_prefix(prefix: u8) -> (r: Result<Mainnet, PrivateKeyError>)
        ensures
            r is Ok <==> prefix == wif_prefix(),
            prefix != wif_prefix() ==> (r matches Err(PrivateKeyError::InvalidPrefix(p)) && p@
                == seq![prefix]),
    {
        if prefix == 0x80 {
            Ok(Mainnet)
        } else {
            let p = vec![prefix];
            Err(PrivateKeyError::InvalidPrefix(p))
        }
    }

    /// Returns the prefix of a Sprout spending key.
    pub fn to_sprout_spending_key_prefix() -> (r: [u8; 2])
        ensures
            r@ == seq![0xABu8, 0x36u8],
    {
        [0xAB, 0x36]
    }

    /// Returns the prefix of a Sprout viewing key.
    pub fn to_sprout_viewing_key_prefix() -> (r: [u8; 3])
        ensures
            r@ == seq![0xA8u8, 0xABu8, 0xD3u8],
    {
        [0xA8, 0xAB, 0xD3]
    }

    /// Returns the prefix of an extended private key.
    pub fn to_extended_private_key_prefix() -> (r: String)
        ensures
            r@ == extended_private_key_prefix(),
    {
        "secret-extended-key-main".to_owned()
    }

    /// Returns the network of the given extended private key prefix.
    pub fn from_extended_private_key_prefix(prefix: &str) -> (r: Result<Mainnet, NetworkError>)
        ensures
            r is Ok <==> prefix@ == extended_private_key_prefix(),
            prefix@ != extended_private_key_prefix() ==> (r matches Err(
                NetworkError::InvalidExtendedPrivateKeyPrefix(s),
            ) && s@ == prefix@),
    {
        if same_text(prefix, "secret-extended-key-main") {
            Ok(Mainnet)
        } else {
            Err(NetworkError::InvalidExtendedPrivateKeyPrefix(prefix.to_owned()))
        }
    }

    /// Returns the prefix of an extended public key.
    pub fn to_extended_public_key_prefix() -> (r: String)
        ensures
            r@ == extended_public_key_prefix(),
    {
        "zviews".to_owned()
    }

    /// Returns the network of the given extended public key prefix.
    pub fn from_extended_public_key_prefix(prefix: &str) -> (r: Result<Mainnet, NetworkError>)
        ensures
            r is Ok <==> prefix@ == extended_public_key_prefix(),
            prefix@ != extended_public_key_prefix() ==> (r matches Err(
                NetworkError::InvalidExtendedPublicKeyPrefix(s),
            ) && s@ == prefix@),
    {
        if same_text(prefix, "zviews") {
            Ok(Mainnet)
        } else {
            Err(NetworkError::InvalidExtendedPublicKeyPrefix(prefix.to_owned()))
        }
    }

    /// Returns the network of the given name.
    pub fn from_name(s: &str) -> (r: Result<Mainnet, NetworkError>)
        ensures
            r is Ok <==> s@ == network_name(),
            s@ != network_name() ==> (r matches Err(NetworkError::InvalidNetwork(t)) && t@ == s@),
    {
        if same_text(s, "mainnet") {
            Ok(Mainnet)
        } else {
            Err(NetworkError::InvalidNetwork(s.to_owned()))
        }
    }

    /// Returns the name of the network.
    pub fn name(&self) -> (r: String)
        ensures
            r@ == network_name(),
    {
        "mainnet".to_owned()
    }
}

impl core::str::FromStr for Mainnet {
    type Err = NetworkError;

    fn from_str(s: &str) -> Result<Mainnet, NetworkError> {
        Mainnet::from_name(s)
    }
}

/// Every format's prefix decodes back to mainnet.
pub proof fn lemma_address_prefix_decodes(format: Format)
    ensures
        address_prefix(format).len() >= 2,
        is_mainnet_address_byte(address_prefix(format)[1]),
{
}

/// No two formats share an address prefix, except Sapling with different
/// diversifiers, which share the same layout.
pub proof fn lemma_address_prefix_unambiguous(f: Format, g: Format)
    requires
        address_prefix(f) == address_prefix(g),
    ensures
        (f is P2PKH) == (g is P2PKH),
        (f is P2SH) == (g is P2SH),
        (f is Sprout) == (g is Sprout),
        (f is Sapling) == (g is Sapling),
{
    assert(address_prefix(f)[1] == address_prefix(g)[1]);
}

} // verus!
