use crate::mnemonic::{
    entropy_byte_length, is_supported_word_count, word_count_for_entropy_length, MnemonicError,
    WordlistError,
};
use crate::phrase::reported_word_count;
use vstd::arithmetic::div_mod::lemma_div_denominator;
use vstd::arithmetic::power2::{lemma2_to64, lemma_pow2_pos, lemma_pow2_unfold, pow2};
use vstd::bits::{lemma_u8_shr_is_div, lemma_usize_shr_is_div};
use vstd::prelude::*;

verus! {

/// Bit `j` of a `width`-bit number, counting from the most significant bit.
pub open spec fn bit_of(x: nat, width: nat, j: int) -> nat {
    (x / pow2((width - 1 - j) as nat)) % 2
}

/// The number that the bits `f(0), ..., f(n - 1)` spell, most significant first.
pub open spec fn value_of(f: spec_fn(int) -> nat, n: nat) -> nat
    decreases n,
{
    if n == 0 {
        0
    } else {
        value_of(f, (n - 1) as nat) * 2 + f(n - 1)
    }
}

/// Bit `i` of the entropy followed by the checksum byte.
pub open spec fn phrase_bit(entropy: Seq<u8>, checksum: u8, i: int) -> nat {
    if i < entropy.len() * 8 {
        bit_of(entropy[i / 8] as nat, 8, i % 8)
    } else {
        bit_of(checksum as nat, 8, i - entropy.len() * 8)
    }
}

/// The eleven bits behind word `k` of a phrase.
pub open spec fn word_bits(entropy: Seq<u8>, checksum: u8, k: int) -> spec_fn(int) -> nat {
    |q: int| phrase_bit(entropy, checksum, 11 * k + q)
}

/// Bit `i` of the word indices taken as eleven-bit numbers.
pub open spec fn index_bit(indices: Seq<usize>, i: int) -> nat {
    bit_of(indices[i / 11] as nat, 11, i % 11)
}

/// The bits of the word indices from bit `start` on.
pub open spec fn index_bits(indices: Seq<usize>, start: int) -> spec_fn(int) -> nat {
    |q: int| index_bit(indices, start + q)
}

/// The word index that `value_of` gives for word `k`.
pub open spec fn word_index(entropy: Seq<u8>, checksum: u8, k: int) -> nat {
    value_of(word_bits(entropy, checksum, k), 11)
}

/// Byte `b` of the entropy that the word indices hold.
pub open spec fn entropy_byte(indices: Seq<usize>, b: int) -> nat {
    value_of(index_bits(indices, 8 * b), 8)
}

/// The checksum bits that follow `len` bytes of entropy in the word indices.
pub open spec fn checksum_bits(indices: Seq<usize>, len: int) -> nat {
    value_of(index_bits(indices, 8 * len), (indices.len() / 3) as nat)
}

pub(crate) proof fn lemma_value_of_ext(f: spec_fn(int) -> nat, g: spec_fn(int) -> nat, n: nat)
    requires
        forall|q: int| 0 <= q < n ==> #[trigger] f(q) == g(q),
    ensures
        value_of(f, n) == value_of(g, n),
    decreases n,
{
    if n > 0 {
        lemma_value_of_ext(f, g, (n - 1) as nat);
    }
}

pub(crate) proof fn lemma_value_of_bound(f: spec_fn(int) -> nat, n: nat)
    requires
        forall|q: int| 0 <= q < n ==> #[trigger] f(q) <= 1,
    ensures
        value_of(f, n) < pow2(n),
    decreases n,
{
    lemma_pow2_pos(n);
    if n > 0 {
        lemma_value_of_bound(f, (n - 1) as nat);
        lemma_pow2_unfold(n);
        assert(f(n - 1) <= 1);
    }
}

/// Each bit of a value can be read back from it.
pub(crate) proof fn lemma_bit_of_value(f: spec_fn(int) -> nat, n: nat, j: int)
    requires
        forall|q: int| 0 <= q < n ==> #[trigger] f(q) <= 1,
        0 <= j < n,
    ensures
        bit_of(value_of(f, n), n, j) == f(j),
    decreases n,
{
    let v = value_of(f, (n - 1) as nat);
    let b = f(n - 1);
    assert(b <= 1);
    assert(value_of(f, n) == v * 2 + b);
    if j == n - 1 {
        assert(pow2(0) == 1) by {
            lemma2_to64();
        }
        assert((v * 2 + b) / 1 == v * 2 + b);
        assert((v * 2 + b) % 2 == b) by (nonlinear_arith)
            requires
                b <= 1,
        ;
    } else {
        let s = (n - 1 - j) as nat;
        lemma_pow2_unfold(s);
        lemma_pow2_pos((s - 1) as nat);
        assert((v * 2 + b) / 2 == v) by (nonlinear_arith)
            requires
                b <= 1,
        ;
        lemma_div_denominator((v * 2 + b) as int, 2, pow2((s - 1) as nat) as int);
        assert(pow2(s) == 2 * pow2((s - 1) as nat));
        assert((v * 2 + b) / pow2(s) == v / pow2((s - 1) as nat));
        lemma_bit_of_value(f, (n - 1) as nat, j);
        assert(bit_of(v, (n - 1) as nat, j) == (v / pow2((s - 1) as nat)) % 2);
    }
}

/// The first `m` bits of an `n`-bit number spell the number shifted right by
/// `n - m`.
pub(crate) proof fn lemma_value_of_prefix(x: nat, n: nat, m: nat)
    requires
        x < pow2(n),
        m <= n,
    ensures
        value_of(|q: int| bit_of(x, n, q), m) == x / pow2((n - m) as nat),
    decreases m,
{
    let f = |q: int| bit_of(x, n, q);
    lemma_pow2_pos((n - m) as nat);
    if m == 0 {
        assert(x / pow2(n) == 0) by (nonlinear_arith)
            requires
                x < pow2(n),
        ;
    } else {
        lemma_value_of_prefix(x, n, (m - 1) as nat);
        let y = x / pow2((n - m) as nat);
        lemma_pow2_unfold((n - m + 1) as nat);
        lemma_div_denominator(x as int, pow2((n - m) as nat) as int, 2);
        assert(pow2((n - m + 1) as nat) == pow2((n - m) as nat) * 2);
        assert(x / pow2((n - m + 1) as nat) == y / 2);
        assert(f(m - 1) == y % 2);
        assert((y / 2) * 2 + y % 2 == y) by (nonlinear_arith);
    }
}

/// Bit `s` from the right of a byte, by a shift and a mask.
fn byte_bit(x: u8, s: u8) -> (r: u8)
    requires
        s < 8,
    ensures
        r as nat == (x as nat / pow2(s as nat)) % 2,
        r <= 1,
{
    let y = x >> s;
    proof {
        lemma_u8_shr_is_div(x, s);
    }
    assert(y & 1 == y % 2) by (bit_vector);
    y & 1
}

/// Bit `s` from the right of a number, by a shift and a mask.
fn usize_bit(x: usize, s: usize) -> (r: usize)
    requires
        s < 11,
    ensures
        r as nat == (x as nat / pow2(s as nat)) % 2,
        r <= 1,
{
    let y = x >> s;
    proof {
        lemma_usize_shr_is_div(x, s);
    }
    assert(y & 1 == y % 2) by (bit_vector);
    y & 1
}

/// Splits the entropy, followed by the leading bits of the checksum byte,
/// into the eleven-bit word indices of a phrase. A phrase of `w` words holds
/// `w / 3` checksum bits.
pub fn entropy_to_indices(entropy: &Vec<u8>, checksum: u8) -> (r: Result<Vec<usize>, MnemonicError>)
    ensures
        (exists|w: int| is_supported_word_count(w) && entropy_byte_length(w) == entropy@.len())
            <==> r is Ok,
        r is Err ==> r == Err::<Vec<usize>, MnemonicError>(
            MnemonicError::InvalidEntropyLength(entropy@.len() as usize),
        ),
        r matches Ok(indices) ==> {
            &&& is_supported_word_count(indices@.len() as int)
            &&& entropy_byte_length(indices@.len() as int) == entropy@.len()
            &&& forall|k: int|
                0 <= k < indices@.len() ==> #[trigger] indices@[k] == word_index(
                    entropy@,
                    checksum,
                    k,
                )
        },
{
    let w = match word_count_for_entropy_length(entropy.len()) {
        Ok(w) => w as usize,
        Err(e) => return Err(e),
    };
    let nbits = entropy.len() * 8;
    assert(11 * w == nbits + w / 3 && w / 3 <= 8);
    let mut indices: Vec<usize> = Vec::new();
    let mut k: usize = 0;
    while k < w
        invariant
            is_supported_word_count(w as int),
            entropy_byte_length(w as int) == entropy@.len(),
            nbits == entropy@.len() * 8,
            11 * w == nbits + w / 3,
            w / 3 <= 8,
            k <= w,
            indices@.len() == k,
            forall|q: int| 0 <= q < k ==> #[trigger] indices@[q] == word_index(entropy@, checksum, q),
        decreases w - k,
    {
        let ghost f = word_bits(entropy@, checksum, k as int);
        let mut v: usize = 0;
        let mut j: usize = 0;
        while j < 11
            invariant
                nbits == entropy@.len() * 8,
                11 * w == nbits + w / 3,
                w / 3 <= 8,
                k < w,
                j <= 11,
                f == word_bits(entropy@, checksum, k as int),
                v == value_of(f, j as nat),
                forall|q: int| 0 <= q < j ==> #[trigger] f(q) <= 1,
            decreases 11 - j,
        {
            let i = 11 * k + j;
            let bit: u8 = if i < nbits {
                byte_bit(entropy[i / 8], (7 - i % 8) as u8)
            } else {
                byte_bit(checksum, (7 - (i - nbits)) as u8)
            };
            assert(f(j as int) == bit as nat);
            proof {
                lemma_value_of_bound(f, j as nat);
                lemma_pow2_at_most_2048(j as nat);
            }
            v = v * 2 + bit as usize;
            j = j + 1;
        }
        indices.push(v);
        k = k + 1;
    }
    Ok(indices)
}

proof fn lemma_pow2_at_most_2048(j: nat)
    requires
        j <= 11,
    ensures
        pow2(j) <= 2048,
{
    lemma2_to64();
    if j < 11 {
        vstd::arithmetic::power2::lemma_pow2_strictly_increases(j, 11);
    }
}

/// The value of `n` bits of the word indices from bit `start` on, which must
/// lie within the indices.
fn index_bits_value(indices: &Vec<usize>, start: usize, n: usize) -> (r: u8)
    requires
        n <= 8,
        indices@.len() <= 24,
        start + n <= 11 * indices@.len(),
    ensures
        r as nat == value_of(index_bits(indices@, start as int), n as nat),
{
    let ghost f = index_bits(indices@, start as int);
    let mut v: u8 = 0;
    let mut q: usize = 0;
    while q < n
        invariant
            n <= 8,
            indices@.len() <= 24,
            start + n <= 11 * indices@.len(),
            q <= n,
            f == index_bits(indices@, start as int),
            v == value_of(f, q as nat),
            forall|p: int| 0 <= p < q ==> #[trigger] f(p) <= 1,
        decreases n - q,
    {
        let i = start + q;
        let bit = usize_bit(indices[i / 11], 10 - i % 11);
        assert(f(q as int) == bit as nat);
        proof {
            lemma_value_of_bound(f, q as nat);
            lemma_pow2_at_most_2048(q as nat);
            lemma2_to64();
            if q < 7 {
                vstd::arithmetic::power2::lemma_pow2_strictly_increases(q as nat, 7);
            }
        }
        v = v * 2 + bit as u8;
        q = q + 1;
    }
    v
}

/// Joins the eleven-bit word indices of a phrase back into its entropy and
/// the checksum bits that follow it.
pub fn indices_to_entropy(indices: &Vec<usize>) -> (r: Result<(Vec<u8>, u8), MnemonicError>)
    ensures
        !is_supported_word_count(indices@.len() as int) ==> r == Err::<(Vec<u8>, u8), MnemonicError>(
            MnemonicError::InvalidWordCount(reported_word_count(indices@.len() as int)),
        ),
        is_supported_word_count(indices@.len() as int) ==> ((forall|k: int|
            0 <= k < indices@.len() ==> #[trigger] indices@[k] < 2048) <==> r is Ok),
        is_supported_word_count(indices@.len() as int) && r is Err ==> (r matches Err(
            MnemonicError::WordlistError(WordlistError::InvalidIndex(x)),
        ) && x >= 2048 && exists|k: int| 0 <= k < indices@.len() && #[trigger] indices@[k] == x),
        r matches Ok((entropy, checksum)) ==> {
            &&& entropy@.len() == entropy_byte_length(indices@.len() as int)
            &&& forall|b: int|
                0 <= b < entropy@.len() ==> #[trigger] entropy@[b] == entropy_byte(indices@, b)
            &&& checksum == checksum_bits(indices@, entropy@.len() as int)
        },
{
    let w = indices.len();
    if !(w == 12 || w == 15 || w == 18 || w == 21 || w == 24) {
        let count: u8 = if w > 255 {
            255
        } else {
            w as u8
        };
        return Err(MnemonicError::InvalidWordCount(count));
    }
    let mut k: usize = 0;
    while k < w
        invariant
            w == indices@.len(),
            is_supported_word_count(w as int),
            k <= w,
            forall|q: int| 0 <= q < k ==> #[trigger] indices@[q] < 2048,
        decreases w - k,
    {
        if indices[k] >= 2048 {
            return Err(MnemonicError::WordlistError(WordlistError::InvalidIndex(indices[k])));
        }
        k = k + 1;
    }
    let len = w / 3 * 4;
    let mut entropy: Vec<u8> = Vec::new();
    let mut b: usize = 0;
    while b < len
        invariant
            w == indices@.len(),
            is_supported_word_count(w as int),
            len == entropy_byte_length(w as int),
            b <= len,
            entropy@.len() == b,
            forall|q: int| 0 <= q < b ==> #[trigger] entropy@[q] == entropy_byte(indices@, q),
        decreases len - b,
    {
        entropy.push(index_bits_value(indices, 8 * b, 8));
        b = b + 1;
    }
    let checksum = index_bits_value(indices, 8 * len, w / 3);
    Ok((entropy, checksum))
}

/// A word index fits in eleven bits.
pub(crate) proof fn lemma_word_index_fits(entropy: Seq<u8>, checksum: u8, k: int)
    ensures
        word_index(entropy, checksum, k) < 2048,
{
    let f = word_bits(entropy, checksum, k);
    assert forall|q: int| 0 <= q < 11 implies #[trigger] f(q) <= 1 by {
        let p = 11 * k + q;
        if p < entropy.len() * 8 {
            assert(bit_of(entropy[p / 8] as nat, 8, p % 8) <= 1);
        }
    }
    lemma_value_of_bound(f, 11);
    lemma2_to64();
}

/// Every bit of the word indices that `entropy_to_indices` describes is the
/// bit at the same place of the entropy followed by the checksum byte.
proof fn lemma_index_bit_is_phrase_bit(entropy: Seq<u8>, checksum: u8, indices: Seq<usize>, i: int)
    requires
        forall|k: int|
            0 <= k < indices.len() ==> #[trigger] indices[k] == word_index(entropy, checksum, k),
        0 <= i < 11 * indices.len(),
    ensures
        index_bit(indices, i) == phrase_bit(entropy, checksum, i),
{
    let k = i / 11;
    let j = i % 11;
    let f = word_bits(entropy, checksum, k);
    assert(indices[k] == word_index(entropy, checksum, k));
    assert forall|q: int| 0 <= q < 11 implies #[trigger] f(q) <= 1 by {
        let p = 11 * k + q;
        if p < entropy.len() * 8 {
            assert(bit_of(entropy[p / 8] as nat, 8, p % 8) <= 1);
        }
    }
    lemma_bit_of_value(f, 11, j);
    assert(11 * k + j == i);
}

/// Entropy split into word indices and joined again comes back whole,
/// followed by the leading `w / 3` bits of the checksum byte for a phrase of
/// `w` words; and every index fits in eleven bits.
pub proof fn lemma_entropy_round_trip(entropy: Seq<u8>, checksum: u8, indices: Seq<usize>)
    requires
        is_supported_word_count(indices.len() as int),
        entropy_byte_length(indices.len() as int) == entropy.len(),
        forall|k: int|
            0 <= k < indices.len() ==> #[trigger] indices[k] == word_index(entropy, checksum, k),
    ensures
        forall|k: int| 0 <= k < indices.len() ==> #[trigger] indices[k] < 2048,
        forall|b: int|
            0 <= b < entropy.len() ==> #[trigger] entropy_byte(indices, b) == entropy[b] as nat,
        checksum_bits(indices, entropy.len() as int) == checksum as nat / pow2(
            (8 - indices.len() / 3) as nat,
        ),
{
    let w = indices.len();
    let len = entropy.len() as int;
    lemma2_to64();
    assert forall|k: int| 0 <= k < w implies #[trigger] indices[k] < 2048 by {
        let f = word_bits(entropy, checksum, k);
        assert forall|q: int| 0 <= q < 11 implies #[trigger] f(q) <= 1 by {
            let p = 11 * k + q;
            if p < entropy.len() * 8 {
                assert(bit_of(entropy[p / 8] as nat, 8, p % 8) <= 1);
            }
        }
        lemma_value_of_bound(f, 11);
    }
    assert forall|b: int| 0 <= b < len implies #[trigger] entropy_byte(indices, b)
        == entropy[b] as nat by {
        let x = entropy[b] as nat;
        let g = |q: int| bit_of(x, 8, q);
        assert forall|q: int| 0 <= q < 8 implies #[trigger] index_bits(indices, 8 * b)(q) == g(q) by {
            assert(8 * b + q < 8 * len);
            assert(8 * len <= 11 * w);
            lemma_index_bit_is_phrase_bit(entropy, checksum, indices, 8 * b + q);
            assert((8 * b + q) / 8 == b);
            assert((8 * b + q) % 8 == q);
        }
        lemma_value_of_ext(index_bits(indices, 8 * b), g, 8);
        assert(x < pow2(8));
        lemma_value_of_prefix(x, 8, 8);
        assert(pow2(0) == 1);
        assert(x / 1 == x);
        assert(entropy_byte(indices, b) == value_of(g, 8));
    }
    let cs = (w / 3) as nat;
    let c = checksum as nat;
    let g = |q: int| bit_of(c, 8, q);
    assert forall|q: int| 0 <= q < cs implies #[trigger] index_bits(indices, 8 * len)(q) == g(q) by {
        lemma_index_bit_is_phrase_bit(entropy, checksum, indices, 8 * len + q);
    }
    lemma_value_of_ext(index_bits(indices, 8 * len), g, cs);
    lemma_value_of_prefix(c, 8, cs);
}

/// Byte `b` of the entropy that word indices hold fits in a byte.
pub(crate) proof fn lemma_entropy_byte_fits(indices: Seq<usize>, b: int)
    ensures
        entropy_byte(indices, b) < 256,
{
    let f = index_bits(indices, 8 * b);
    assert forall|q: int| 0 <= q < 8 implies #[trigger] f(q) <= 1 by {}
    lemma_value_of_bound(f, 8);
    lemma2_to64();
}

/// Word indices below 2048 are fixed by the entropy and the checksum bits
/// they hold.
pub proof fn lemma_indices_determined(a: Seq<usize>, b: Seq<usize>)
    requires
        a.len() == b.len(),
        is_supported_word_count(a.len() as int),
        forall|k: int| 0 <= k < a.len() ==> #[trigger] a[k] < 2048,
        forall|k: int| 0 <= k < b.len() ==> #[trigger] b[k] < 2048,
        forall|i: int|
            0 <= i < entropy_byte_length(a.len() as int) ==> #[trigger] entropy_byte(a, i)
                == entropy_byte(b, i),
        checksum_bits(a, entropy_byte_length(a.len() as int)) == checksum_bits(
            b,
            entropy_byte_length(a.len() as int),
        ),
    ensures
        a == b,
{
    let w = a.len() as int;
    let len = entropy_byte_length(w);
    let cs = (w / 3) as nat;
    assert(11 * w == 8 * len + cs);
    assert forall|i: int| 0 <= i < 11 * w implies #[trigger] index_bit(a, i) == index_bit(b, i) by {
        if i < 8 * len {
            let byte = i / 8;
            let q = i % 8;
            assert(8 * byte + q == i);
            let fa = index_bits(a, 8 * byte);
            let fb = index_bits(b, 8 * byte);
            assert forall|p: int| 0 <= p < 8 implies #[trigger] fa(p) <= 1 by {}
            assert forall|p: int| 0 <= p < 8 implies #[trigger] fb(p) <= 1 by {}
            lemma_bit_of_value(fa, 8, q);
            lemma_bit_of_value(fb, 8, q);
            assert(entropy_byte(a, byte) == entropy_byte(b, byte));
        } else {
            let q = i - 8 * len;
            let fa = index_bits(a, 8 * len);
            let fb = index_bits(b, 8 * len);
            assert forall|p: int| 0 <= p < cs implies #[trigger] fa(p) <= 1 by {}
            assert forall|p: int| 0 <= p < cs implies #[trigger] fb(p) <= 1 by {}
            lemma_bit_of_value(fa, cs, q);
            lemma_bit_of_value(fb, cs, q);
        }
    }
    lemma2_to64();
    assert forall|k: int| 0 <= k < w implies a[k] == b[k] by {
        let ga = |q: int| bit_of(a[k] as nat, 11, q);
        let gb = |q: int| bit_of(b[k] as nat, 11, q);
        assert forall|q: int| 0 <= q < 11 implies #[trigger] ga(q) == gb(q) by {
            assert(11 * k + q < 11 * w) by (nonlinear_arith)
                requires
                    0 <= k < w,
                    0 <= q < 11,
            ;
            assert((11 * k + q) / 11 == k);
            assert((11 * k + q) % 11 == q);
            assert(index_bit(a, 11 * k + q) == index_bit(b, 11 * k + q));
        }
        assert(a[k] < 2048 && b[k] < 2048);
        lemma_value_of_ext(ga, gb, 11);
        lemma_value_of_prefix(a[k] as nat, 11, 11);
        lemma_value_of_prefix(b[k] as nat, 11, 11);
        assert(pow2(0) == 1);
        assert(a[k] as nat / 1 == a[k] as nat);
        assert(b[k] as nat / 1 == b[k] as nat);
    }
    assert(a =~= b);
}

} // verus!
