use crate::bip39::{sha256, sha256_of};
use crate::network::{address_prefix, AddressError, Format, Mainnet};
use vstd::prelude::*;

verus! {

/// The payload length of a format with a versioned binary encoding: a
/// 20-byte hash for transparent addresses, and the 32-byte paying key and
/// 32-byte transmission key of a Sprout address.
pub open spec fn payload_length(format: Format) -> int {
    match format {
        Format::Sprout => 64,
        _ => 20,
    }
}

/// The four checksum bytes of some data: the start of its double SHA-256.
pub open spec fn check_bytes(data: Seq<u8>) -> Seq<u8> {
    Seq::new(4, |i: int| sha256_of(sha256_of(data))[i])
}

/// The bytes of an address: prefix, payload and checksum.
pub open spec fn framed(format: Format, payload: Seq<u8>) -> Seq<u8> {
    address_prefix(format) + payload + check_bytes(address_prefix(format) + payload)
}

/// Returns the four checksum bytes of some data.
fn checksum(data: &Vec<u8>) -> (r: Vec<u8>)
    ensures
        r@ == check_bytes(data@),
        r@.len() == 4,
{
    let first = sha256(data);
    let second = sha256(&first);
    let mut r: Vec<u8> = Vec::new();
    r.push(second[0]);
    r.push(second[1]);
    r.push(second[2]);
    r.push(second[3]);
    assert(r@ =~= check_bytes(data@));
    r
}

/// Whether two byte strings are equal.
fn same_bytes(a: &Vec<u8>, b: &Vec<u8>) -> (r: bool)
    ensures
        r == (a@ == b@),
{
    if a.len() != b.len() {
        return false;
    }
    let mut i: usize = 0;
    while i < a.len()
        invariant
            a@.len() == b@.len(),
            i <= a@.len(),
            forall|j: int| 0 <= j < i ==> a@[j] == b@[j],
        decreases a@.len() - i,
    {
        if a[i] != b[i] {
            return false;
        }
        i = i + 1;
    }
    assert(a@ =~= b@);
    true
}

/// The bytes of `bytes` from `from` up to `to`.
fn slice_of(bytes: &Vec<u8>, from: usize, to: usize) -> (r: Vec<u8>)
    requires
        from <= to <= bytes@.len(),
    ensures
        r@ == bytes@.subrange(from as int, to as int),
{
    let mut out: Vec<u8> = Vec::new();
    let mut i: usize = from;
    while i < to
        invariant
            from <= i <= to <= bytes@.len(),
            out@ == bytes@.subrange(from as int, i as int),
        decreases to - i,
    {
        out.push(bytes[i]);
        assert(bytes@.subrange(from as int, i + 1) =~= bytes@.subrange(from as int, i as int).push(
            bytes@[i as int],
        ));
        i = i + 1;
    }
    out
}

/// Frames a payload as an address of a versioned binary format: its prefix,
/// the payload, and the checksum of both.
pub fn encode_check(format: &Format, payload: &Vec<u8>) -> (r: Vec<u8>)
    requires
        !(*format is Sapling),
    ensures
        r@ == framed(*format, payload@),
{
    let mut body = Mainnet::to_address_prefix(format);
    let mut i: usize = 0;
    let ghost start = body@;
    while i < payload.len()
        invariant
            start == address_prefix(*format),
            i <= payload@.len(),
            body@ == start + payload@.subrange(0, i as int),
        decreases payload@.len() - i,
    {
        body.push(payload[i]);
        assert(payload@.subrange(0, i + 1) =~= payload@.subrange(0, i as int).push(payload@[i as int]));
        i = i + 1;
    }
    assert(payload@.subrange(0, payload@.len() as int) =~= payload@);
    let sum = checksum(&body);
    let mut out = body;
    out.push(sum[0]);
    out.push(sum[1]);
    out.push(sum[2]);
    out.push(sum[3]);
    assert(out@ =~= framed(*format, payload@));
    out
}

/// Reads the payload of an address of a versioned binary format. The length
/// is checked first, then the prefix, then the checksum.
pub fn decode_check(data: &Vec<u8>, format: &Format) -> (r: Result<Vec<u8>, AddressError>)
    requires
        !(*format is Sapling),
    ensures
        data@.len() != 2 + payload_length(*format) + 4 ==> r == Err::<Vec<u8>, AddressError>(
            AddressError::InvalidByteLength(data@.len() as usize),
        ),
        data@.len() == 2 + payload_length(*format) + 4 && data@.subrange(0, 2) != address_prefix(
            *format,
        ) ==> (r matches Err(AddressError::InvalidPrefix(p)) && p@ == data@.subrange(0, 2)),
        data@.len() == 2 + payload_length(*format) + 4 && data@.subrange(0, 2) == address_prefix(
            *format,
        ) ==> {
            let n = data@.len() as int;
            &&& (r is Ok <==> data@.subrange(n - 4, n) == check_bytes(data@.subrange(0, n - 4)))
            &&& r is Err ==> (r matches Err(AddressError::InvalidChecksum(c)) && c@ == data@.subrange(
                n - 4,
                n,
            ))
            &&& r matches Ok(payload) ==> payload@ == data@.subrange(2, n - 4)
        },
{
    let n = data.len();
    let expected: usize = match format {
        Format::Sprout => 70,
        _ => 26,
    };
    if n != expected {
        return Err(AddressError::InvalidByteLength(n));
    }
    let prefix = slice_of(data, 0, 2);
    let wanted = Mainnet::to_address_prefix(format);
    if !same_bytes(&prefix, &wanted) {
        return Err(AddressError::InvalidPrefix(prefix));
    }
    let body = slice_of(data, 0, n - 4);
    let given = slice_of(data, n - 4, n);
    let sum = checksum(&body);
    if !same_bytes(&given, &sum) {
        return Err(AddressError::InvalidChecksum(given));
    }
    Ok(slice_of(data, 2, n - 4))
}

/// Decoding what `encode_check` framed gives back the payload.
pub proof fn lemma_check_round_trip(format: Format, payload: Seq<u8>)
    requires
        !(format is Sapling),
        payload.len() == payload_length(format),
    ensures
        ({
            let data = framed(format, payload);
            let n = data.len() as int;
            &&& n == 2 + payload_length(format) + 4
            &&& data.subrange(0, 2) == address_prefix(format)
            &&& data.subrange(n - 4, n) == check_bytes(data.subrange(0, n - 4))
            &&& data.subrange(2, n - 4) == payload
        }),
{
    let prefix = address_prefix(format);
    let data = framed(format, payload);
    let n = data.len() as int;
    assert(data.subrange(0, 2) =~= prefix);
    assert(data.subrange(0, n - 4) =~= prefix + payload);
    assert(data.subrange(n - 4, n) =~= check_bytes(prefix + payload));
    assert(data.subrange(2, n - 4) =~= payload);
}

} // verus!
