use crate::mnemonic::ExtendedPrivateKeyError;
use vstd::prelude::*;

verus! {

/// The first hardened child index.
pub const HARDENED_OFFSET: u32 = 0x8000_0000;

/// The place of a child key under its parent. A hardened child can only be
/// derived with the parent's private key.
#[derive(Clone, Copy, Debug, PartialEq, Eq)]
pub enum ChildIndex {
    Normal(u32),
    Hardened(u32),
}

impl ChildIndex {
    /// The number of a child index below the hardened offset.
    pub open spec fn valid(self) -> bool {
        match self {
            ChildIndex::Normal(i) => i < HARDENED_OFFSET,
            ChildIndex::Hardened(i) => i < HARDENED_OFFSET,
        }
    }

    /// The index as it stands in a serialized key: hardened ones have the
    /// high bit set.
    pub open spec fn spec_index(self) -> int {
        match self {
            ChildIndex::Normal(i) => i as int,
            ChildIndex::Hardened(i) => i + HARDENED_OFFSET,
        }
    }

    /// Returns the normal child index `i`.
    pub fn normal(i: u32) -> (r: Result<ChildIndex, ExtendedPrivateKeyError>)
        ensures
            i < HARDENED_OFFSET ==> r == Ok::<ChildIndex, ExtendedPrivateKeyError>(
                ChildIndex::Normal(i),
            ),
            i >= HARDENED_OFFSET ==> r == Err::<ChildIndex, ExtendedPrivateKeyError>(
                ExtendedPrivateKeyError::InvalidChildNumber(i),
            ),
    {
        if i < HARDENED_OFFSET {
            Ok(ChildIndex::Normal(i))
        } else {
            Err(ExtendedPrivateKeyError::InvalidChildNumber(i))
        }
    }

    /// Returns the hardened child index `i`.
    pub fn hardened(i: u32) -> (r: Result<ChildIndex, ExtendedPrivateKeyError>)
        ensures
            i < HARDENED_OFFSET ==> r == Ok::<ChildIndex, ExtendedPrivateKeyError>(
                ChildIndex::Hardened(i),
            ),
            i >= HARDENED_OFFSET ==> r == Err::<ChildIndex, ExtendedPrivateKeyError>(
                ExtendedPrivateKeyError::InvalidChildNumber(i),
            ),
    {
        if i < HARDENED_OFFSET {
            Ok(ChildIndex::Hardened(i))
        } else {
            Err(ExtendedPrivateKeyError::InvalidChildNumber(i))
        }
    }

    /// Reads a child index from its serialized number.
    pub fn from_index(index: u32) -> (r: ChildIndex)
        ensures
            r.valid(),
            r.spec_index() == index,
            (r is Hardened) == (index >= HARDENED_OFFSET),
    {
        if index < HARDENED_OFFSET {
            ChildIndex::Normal(index)
        } else {
            ChildIndex::Hardened(index - HARDENED_OFFSET)
        }
    }

    /// Returns the serialized number of the child index.
    pub fn to_index(&self) -> (r: u32)
        requires
            self.valid(),
        ensures
            r == self.spec_index(),
    {
        match self {
            ChildIndex::Normal(i) => *i,
            ChildIndex::Hardened(i) => *i + HARDENED_OFFSET,
        }
    }

    /// Whether the child index is hardened.
    pub fn is_hardened(&self) -> (r: bool)
        ensures
            r == (*self is Hardened),
    {
        match self {
            ChildIndex::Normal(_) => false,
            ChildIndex::Hardened(_) => true,
        }
    }
}

/// Returns the depth of a child of a key at `depth`.
pub fn child_depth(depth: u8) -> (r: Result<u8, ExtendedPrivateKeyError>)
    ensures
        depth < 255 ==> r == Ok::<u8, ExtendedPrivateKeyError>((depth + 1) as u8),
        depth == 255 ==> r == Err::<u8, ExtendedPrivateKeyError>(
            ExtendedPrivateKeyError::MaximumChildDepthReached(depth),
        ),
{
    if depth == 255 {
        Err(ExtendedPrivateKeyError::MaximumChildDepthReached(depth))
    } else {
        Ok(depth + 1)
    }
}

/// The four big-endian bytes of a number.
pub open spec fn be32(x: u32) -> Seq<u8> {
    seq![(x >> 24u32) as u8, (x >> 16u32) as u8, (x >> 8u32) as u8, x as u8]
}

/// What an extended key holds besides its network prefix.
pub struct ExtendedKeyData {
    /// Derivation steps from the master key, 0 for the master key.
    pub depth: u8,
    /// The start of the hash of the parent's public key; zero for the master key.
    pub parent_fingerprint: [u8; 4],
    /// The serialized child index, with the hardened bit.
    pub child_index: u32,
    /// The 32 bytes of chain code.
    pub chain_code: Vec<u8>,
    /// The 32 bytes of a private key or 33 bytes of a public key.
    pub key: Vec<u8>,
}

impl ExtendedKeyData {
    pub open spec fn wf(&self) -> bool {
        self.chain_code@.len() == 32 && (self.key@.len() == 32 || self.key@.len() == 33)
    }

    /// The serialized bytes: depth, fingerprint, child index, chain code, key.
    pub open spec fn layout(&self) -> Seq<u8> {
        seq![self.depth] + self.parent_fingerprint@ + be32(self.child_index) + self.chain_code@
            + self.key@
    }

    /// Writes the serialized bytes.
    pub fn to_bytes(&self) -> (r: Vec<u8>)
        requires
            self.wf(),
        ensures
            r@ == self.layout(),
    {
        let mut out: Vec<u8> = Vec::new();
        out.push(self.depth);
        let fp = self.parent_fingerprint;
        out.push(fp[0]);
        out.push(fp[1]);
        out.push(fp[2]);
        out.push(fp[3]);
        let c = self.child_index;
        out.push((c >> 24u32) as u8);
        out.push((c >> 16u32) as u8);
        out.push((c >> 8u32) as u8);
        out.push(c as u8);
        assert(out@ =~= seq![self.depth] + self.parent_fingerprint@ + be32(c));
        append_bytes(&mut out, &self.chain_code);
        append_bytes(&mut out, &self.key);
        out
    }

    /// Reads serialized bytes of 73 bytes (a private key) or 74 (a public key).
    pub fn from_bytes(bytes: &Vec<u8>) -> (r: Result<ExtendedKeyData, ExtendedPrivateKeyError>)
        ensures
            r is Ok <==> (bytes@.len() == 73 || bytes@.len() == 74),
            r matches Ok(d) ==> d.wf() && d.layout() == bytes@,
            r is Err ==> r == Err::<ExtendedKeyData, ExtendedPrivateKeyError>(
                ExtendedPrivateKeyError::InvalidByteLength(bytes@.len() as usize),
            ),
    {
        let n = bytes.len();
        if n != 73 && n != 74 {
            return Err(ExtendedPrivateKeyError::InvalidByteLength(n));
        }
        let fp: [u8; 4] = [bytes[1], bytes[2], bytes[3], bytes[4]];
        let (b0, b1, b2, b3) = (bytes[5], bytes[6], bytes[7], bytes[8]);
        let c: u32 = ((b0 as u32) << 24u32) | ((b1 as u32) << 16u32) | ((b2 as u32) << 8u32) | (
        b3 as u32);
        assert(be32(c) =~= seq![b0, b1, b2, b3]) by {
            assert(((((b0 as u32) << 24u32) | ((b1 as u32) << 16u32) | ((b2 as u32) << 8u32) | (
            b3 as u32)) >> 24u32) as u8 == b0) by (bit_vector);
            assert(((((b0 as u32) << 24u32) | ((b1 as u32) << 16u32) | ((b2 as u32) << 8u32) | (
            b3 as u32)) >> 16u32) as u8 == b1) by (bit_vector);
            assert(((((b0 as u32) << 24u32) | ((b1 as u32) << 16u32) | ((b2 as u32) << 8u32) | (
            b3 as u32)) >> 8u32) as u8 == b2) by (bit_vector);
            assert((((b0 as u32) << 24u32) | ((b1 as u32) << 16u32) | ((b2 as u32) << 8u32) | (
            b3 as u32)) as u8 == b3) by (bit_vector);
        }
        let chain_code = copy_range(bytes, 9, 41);
        let key = copy_range(bytes, 41, n);
        let d = ExtendedKeyData { depth: bytes[0], parent_fingerprint: fp, child_index: c, chain_code, key };
        assert(d.layout() =~= bytes@);
        Ok(d)
    }
}

/// Appends the bytes of `src` to `out`.
fn append_bytes(out: &mut Vec<u8>, src: &Vec<u8>)
    ensures
        final(out)@ == old(out)@ + src@,
{
    let mut i: usize = 0;
    while i < src.len()
        invariant
            i <= src@.len(),
            out@ == old(out)@ + src@.subrange(0, i as int),
        decreases src@.len() - i,
    {
        out.push(src[i]);
        assert(src@.subrange(0, i + 1) =~= src@.subrange(0, i as int).push(src@[i as int]));
        i = i + 1;
    }
    assert(src@.subrange(0, src@.len() as int) =~= src@);
}

/// The bytes of `bytes` from `from` up to `to`.
fn copy_range(bytes: &Vec<u8>, from: usize, to: usize) -> (r: Vec<u8>)
    requires
        from <= to <= bytes@.len(),
    ensures
        r@ == bytes@.subrange(from as int, to as int),
{
    let mut out: Vec<u8> = Vec::new();
    let mut i: usize = from;
    while i < to
        invariant
            from <= i <= to <= bytes@.len(),
            out@ == bytes@.subrange(from as int, i as int),
        decreases to - i,
    {
        out.push(bytes[i]);
        assert(bytes@.subrange(from as int, i + 1) =~= bytes@.subrange(from as int, i as int).push(
            bytes@[i as int],
        ));
        i = i + 1;
    }
    out
}

/// The serialized bytes of well-formed key data fix every field, so reading
/// back what `to_bytes` wrote gives the same key data.
pub proof fn lemma_layout_unambiguous(a: ExtendedKeyData, b: ExtendedKeyData)
    requires
        a.wf(),
        b.wf(),
        a.layout() == b.layout(),
    ensures
        a.depth == b.depth,
        a.parent_fingerprint@ == b.parent_fingerprint@,
        a.child_index == b.child_index,
        a.chain_code@ == b.chain_code@,
        a.key@ == b.key@,
{
    let la = a.layout();
    let lb = b.layout();
    assert(la[0] == a.depth && lb[0] == b.depth);
    assert(a.parent_fingerprint@ =~= la.subrange(1, 5));
    assert(b.parent_fingerprint@ =~= lb.subrange(1, 5));
    assert(be32(a.child_index) =~= la.subrange(5, 9));
    assert(be32(b.child_index) =~= lb.subrange(5, 9));
    let x = a.child_index;
    let y = b.child_index;
    assert(be32(x)[0] == be32(y)[0] && be32(x)[1] == be32(y)[1] && be32(x)[2] == be32(y)[2]
        && be32(x)[3] == be32(y)[3]);
    assert(x == y) by (bit_vector)
        requires
            (x >> 24u32) as u8 == (y >> 24u32) as u8,
            (x >> 16u32) as u8 == (y >> 16u32) as u8,
            (x >> 8u32) as u8 == (y >> 8u32) as u8,
            x as u8 == y as u8,
    ;
    assert(a.chain_code@ =~= la.subrange(9, 41));
    assert(b.chain_code@ =~= lb.subrange(9, 41));
    assert(a.key@ =~= la.subrange(41, la.len() as int));
    assert(b.key@ =~= lb.subrange(41, lb.len() as int));
}

} // verus!
