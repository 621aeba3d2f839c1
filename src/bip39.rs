use crate::mnemonic::{
    entropy_byte_length, is_supported_word_count, random_entropy, MnemonicError, WordlistError,
};
use crate::network::same_text;
use crate::packing::{
    checksum_bits, entropy_byte, entropy_to_indices, indices_to_entropy, lemma_entropy_round_trip,
    lemma_entropy_byte_fits, lemma_indices_determined, lemma_word_index_fits, word_index,
};
use crate::phrase::{
    in_list, indices_to_phrase, is_first_index, is_white_space, is_white_space_char, is_word,
    join_words, lemma_split_join, phrase_to_indices, reported_word_count, views, words_at,
    words_of,
};
use vstd::arithmetic::power2::pow2;
use vstd::bits::lemma_u8_shr_is_div;
use sha2::Digest;
use vstd::prelude::*;

verus! {

/// A wordlist of 2048 distinct words, none empty or holding white space.
pub open spec fn is_wordlist(list: Seq<Seq<char>>) -> bool {
    &&& list.len() == 2048
    &&& forall|i: int| 0 <= i < list.len() ==> is_word(#[trigger] list[i])
    &&& forall|i: int, j: int| 0 <= i < j < list.len() ==> list[i] != list[j]
}

/// The words of a phrase, one for each eleven bits of entropy and checksum.
pub struct Wordlist {
    words: Vec<String>,
}

impl Wordlist {
    #[verifier::type_invariant]
    spec fn inv(&self) -> bool {
        is_wordlist(views(self.words@))
    }
}

impl View for Wordlist {
    type V = Seq<Seq<char>>;

    closed spec fn view(&self) -> Seq<Seq<char>> {
        views(self.words@)
    }
}

/// Whether a word is not empty and holds no white space.
fn check_word(word: &str) -> (r: bool)
    ensures
        r == is_word(word@),
{
    let n = word.unicode_len();
    let mut i: usize = 0;
    while i < n
        invariant
            n == word@.len(),
            i <= n,
            forall|j: int| 0 <= j < i ==> !is_white_space(#[trigger] word@[j]),
        decreases n - i,
    {
        if is_white_space_char(word.get_char(i)) {
            return false;
        }
        i = i + 1;
    }
    n > 0
}

impl Wordlist {
    /// Checks the words and makes a wordlist of them.
    pub fn new(words: Vec<String>) -> (r: Result<Wordlist, WordlistError>)
        ensures
            r is Ok <==> is_wordlist(views(words@)),
            r matches Ok(list) ==> list@ == views(words@),
            words@.len() != 2048 ==> r == Err::<Wordlist, WordlistError>(
                WordlistError::InvalidLength(words@.len() as usize),
            ),
    {
        let ghost ws = views(words@);
        if words.len() != 2048 {
            return Err(WordlistError::InvalidLength(words.len()));
        }
        let mut i: usize = 0;
        while i < words.len()
            invariant
                ws == views(words@),
                ws.len() == words@.len(),
                words@.len() == 2048,
                i <= words@.len(),
                forall|k: int| 0 <= k < i ==> is_word(#[trigger] ws[k]),
                forall|k: int, j: int| 0 <= k < j < i ==> ws[k] != ws[j],
            decreases words@.len() - i,
        {
            if !check_word(words[i].as_str()) {
                assert(!is_word(ws[i as int]));
                return Err(WordlistError::InvalidWord(words[i].clone()));
            }
            let mut j: usize = 0;
            while j < i
                invariant
                    ws == views(words@),
                    ws.len() == words@.len(),
                    words@.len() == 2048,
                    j <= i < words@.len(),
                    forall|k: int| 0 <= k < j ==> ws[k] != ws[i as int],
                decreases i - j,
            {
                if same_text(words[j].as_str(), words[i].as_str()) {
                    assert(ws[j as int] == ws[i as int]);
                    return Err(WordlistError::InvalidWord(words[i].clone()));
                }
                j = j + 1;
            }
            i = i + 1;
        }
        Ok(Wordlist { words })
    }

    /// Returns the words of the list.
    pub fn words(&self) -> (r: &Vec<String>)
        ensures
            views(r@) == self@,
            is_wordlist(self@),
    {
        proof {
            use_type_invariant(self);
        }
        &self.words
    }
}

/// The SHA-256 digest of some bytes.
pub uninterp spec fn sha256_of(data: Seq<u8>) -> Seq<u8>;

/// Relies on sha2's `Sha256::digest`: the 32-byte SHA-256 digest of the
/// data, which depends on the data alone.
#[verifier::external_body]
pub(crate) fn sha256(data: &Vec<u8>) -> (r: Vec<u8>)
    ensures
        r@ == sha256_of(data@),
        r@.len() == 32,
{
    sha2::Sha256::digest(data.as_slice()).to_vec()
}

/// What PBKDF2 with HMAC-SHA512 gives for a password, a salt, a round count
/// and an output length.
pub uninterp spec fn pbkdf2_sha512_of(password: Seq<char>, salt: Seq<char>, rounds: u32, len: usize) -> Seq<u8>;

/// Relies on pbkdf2's `pbkdf2_hmac` over SHA-512: it fills the `len` bytes
/// with a value that depends on its arguments alone. Its block counter
/// overflows only past 2^32 - 1 blocks of output, which `len` stays far below.
#[verifier::external_body]
fn pbkdf2_sha512(password: &str, salt: &str, rounds: u32, len: usize) -> (r: Vec<u8>)
    requires
        len <= 4096,
    ensures
        r@ == pbkdf2_sha512_of(password@, salt@, rounds, len),
        r@.len() == len,
{
    let mut out = vec![0u8; len];
    pbkdf2::pbkdf2_hmac::<sha2::Sha512>(password.as_bytes(), salt.as_bytes(), rounds, &mut out);
    out
}

/// The password given, or the empty one when none is.
pub open spec fn password_text(password: Option<&str>) -> Seq<char> {
    match password {
        Some(p) => p@,
        None => seq![],
    }
}

/// The seed of some entropy over a wordlist with a password: its phrase
/// stretched with the salt "mnemonic" followed by the password.
pub open spec fn seed_of(entropy: Seq<u8>, list: Seq<Seq<char>>, password: Seq<char>) -> Seq<u8> {
    pbkdf2_sha512_of(phrase_of(entropy, list), "mnemonic"@ + password, 2048, 64)
}

/// Seeds are a function of entropy, wordlist and password: two seeds made
/// with the same ones are equal, and leaving the password out gives the
/// seed of the empty password.
pub proof fn lemma_seed_deterministic(entropy: Seq<u8>, list: Seq<Seq<char>>, a: Option<&str>, b: Option<&str>)
    requires
        password_text(a) == password_text(b),
    ensures
        seed_of(entropy, list, password_text(a)) == seed_of(entropy, list, password_text(b)),
        seed_of(entropy, list, password_text(None)) == seed_of(entropy, list, password_text(Some(""))),
{
    reveal_strlit("");
    assert(password_text(Some("")) =~= password_text(None));
}

/// The entropy lengths in bytes that a phrase can hold.
pub open spec fn is_entropy_length(len: int) -> bool {
    len == 16 || len == 20 || len == 24 || len == 28 || len == 32
}

/// The checksum byte of some entropy: the first byte of its SHA-256 digest.
pub open spec fn checksum_byte(entropy: Seq<u8>) -> u8 {
    sha256_of(entropy)[0]
}

/// The word indices of the phrase of some entropy.
pub open spec fn phrase_indices_of(entropy: Seq<u8>) -> Seq<usize> {
    Seq::new(
        (entropy.len() / 4 * 3) as nat,
        |k: int| word_index(entropy, checksum_byte(entropy), k) as usize,
    )
}

/// The phrase of some entropy over a wordlist.
pub open spec fn phrase_of(entropy: Seq<u8>, list: Seq<Seq<char>>) -> Seq<char> {
    join_words(words_at(list, phrase_indices_of(entropy)))
}

/// Whether every word is in the list.
pub open spec fn all_known(ws: Seq<Seq<char>>, list: Seq<Seq<char>>) -> bool {
    forall|i: int| 0 <= i < ws.len() ==> in_list(list, #[trigger] ws[i])
}

/// `w` is the first of the words that is not in the list.
pub open spec fn is_first_unknown(ws: Seq<Seq<char>>, list: Seq<Seq<char>>, w: Seq<char>) -> bool {
    exists|i: int|
        0 <= i < ws.len() && w == ws[i] && !in_list(list, #[trigger] ws[i]) && forall|k: int|
            0 <= k < i ==> in_list(list, #[trigger] ws[k])
}

/// The place of each word in the list.
pub open spec fn indices_of_words(ws: Seq<Seq<char>>, list: Seq<Seq<char>>) -> Seq<usize> {
    Seq::new(ws.len(), |i: int| (choose|j: int| is_first_index(list, ws[i], j)) as usize)
}

/// The entropy that word indices hold.
pub open spec fn entropy_of_indices(indices: Seq<usize>) -> Seq<u8> {
    Seq::new((indices.len() / 3 * 4) as nat, |b: int| entropy_byte(indices, b) as u8)
}

/// Whether the checksum bits of word indices are the leading bits of the
/// checksum byte of the entropy they hold.
pub open spec fn checksum_holds(indices: Seq<usize>) -> bool {
    checksum_bits(indices, (indices.len() / 3 * 4) as int) == checksum_byte(entropy_of_indices(indices)) as nat
        / pow2((8 - indices.len() / 3) as nat)
}

/// A mnemonic: the entropy that its phrase encodes.
pub struct Bip39Mnemonic {
    entropy: Vec<u8>,
}

impl View for Bip39Mnemonic {
    type V = Seq<u8>;

    closed spec fn view(&self) -> Seq<u8> {
        self.entropy@
    }
}

impl Bip39Mnemonic {
    #[verifier::type_invariant]
    spec fn inv(&self) -> bool {
        is_entropy_length(self.entropy@.len() as int)
    }

    /// Makes the mnemonic of the given entropy.
    pub fn from_entropy(entropy: Vec<u8>) -> (r: Result<Bip39Mnemonic, MnemonicError>)
        ensures
            r is Ok <==> is_entropy_length(entropy@.len() as int),
            r matches Ok(m) ==> m@ == entropy@,
            r is Err ==> r == Err::<Bip39Mnemonic, MnemonicError>(
                MnemonicError::InvalidEntropyLength(entropy@.len() as usize),
            ),
    {
        let n = entropy.len();
        if n == 16 || n == 20 || n == 24 || n == 28 || n == 32 {
            Ok(Bip39Mnemonic { entropy })
        } else {
            Err(MnemonicError::InvalidEntropyLength(n))
        }
    }

    /// Makes a mnemonic of `word_count` words from fresh random entropy.
    pub fn new(word_count: u8) -> (r: Result<Bip39Mnemonic, MnemonicError>)
        ensures
            !is_supported_word_count(word_count as int) ==> r == Err::<
                Bip39Mnemonic,
                MnemonicError,
            >(MnemonicError::InvalidWordCount(word_count)),
            r matches Ok(m) ==> m@.len() == entropy_byte_length(word_count as int),
            is_supported_word_count(word_count as int) && r is Err ==> (r matches Err(
                MnemonicError::Crate(source, _),
            ) && source@ == "rand"@),
    {
        match random_entropy(word_count) {
            Ok(entropy) => Ok(Bip39Mnemonic { entropy }),
            Err(e) => Err(e),
        }
    }

    /// Returns the entropy of the mnemonic.
    pub fn entropy(&self) -> (r: &Vec<u8>)
        ensures
            r@ == self@,
            is_entropy_length(self@.len() as int),
    {
        proof {
            use_type_invariant(self);
        }
        &self.entropy
    }

    /// Writes the phrase of the mnemonic with the words of the list.
    pub fn to_phrase(&self, wordlist: &Wordlist) -> (r: String)
        ensures
            r@ == phrase_of(self@, wordlist@),
    {
        let entropy = self.entropy();
        let words = wordlist.words();
        let digest = sha256(entropy);
        let indices = match entropy_to_indices(entropy, digest[0]) {
            Ok(indices) => indices,
            Err(_) => {
                assert(is_supported_word_count(entropy@.len() as int / 4 * 3));
                assert(false);
                return String::new();
            },
        };
        proof {
            lemma_entropy_round_trip(entropy@, digest@[0], indices@);
            assert(indices@ =~= phrase_indices_of(self@));
        }
        match indices_to_phrase(&indices, words) {
            Ok(phrase) => phrase,
            Err(_) => {
                assert(false);
                String::new()
            },
        }
    }

    /// Stretches the phrase of the mnemonic and the password into the 64-byte
    /// seed of its master key. No password behaves as the empty password.
    pub fn to_seed(&self, wordlist: &Wordlist, password: Option<&str>) -> (r: Vec<u8>)
        ensures
            r@ == seed_of(self@, wordlist@, password_text(password)),
            r@.len() == 64,
    {
        let phrase = self.to_phrase(wordlist);
        let mut salt = "mnemonic".to_owned();
        match password {
            Some(p) => {
                salt.append(p);
            },
            None => {
                assert(salt@ =~= "mnemonic"@ + password_text(password));
            },
        }
        pbkdf2_sha512(phrase.as_str(), salt.as_str(), 2048, 64)
    }

    /// Reads a phrase with the words of the list: its word count, each of
    /// its words, and its checksum are checked in that order.
    pub fn from_phrase(phrase: &str, wordlist: &Wordlist) -> (r: Result<
        Bip39Mnemonic,
        MnemonicError,
    >)
        ensures
            !is_supported_word_count(words_of(phrase@).len() as int) ==> r == Err::<
                Bip39Mnemonic,
                MnemonicError,
            >(MnemonicError::InvalidWordCount(reported_word_count(words_of(phrase@).len() as int))),
            is_supported_word_count(words_of(phrase@).len() as int) && !all_known(
                words_of(phrase@),
                wordlist@,
            ) ==> (r matches Err(MnemonicError::InvalidWord(w)) && is_first_unknown(
                words_of(phrase@),
                wordlist@,
                w@,
            )),
            is_supported_word_count(words_of(phrase@).len() as int) && all_known(
                words_of(phrase@),
                wordlist@,
            ) ==> (r is Ok <==> checksum_holds(indices_of_words(words_of(phrase@), wordlist@))),
            r matches Ok(m) ==> m@ == entropy_of_indices(indices_of_words(words_of(phrase@), wordlist@)),
            is_supported_word_count(words_of(phrase@).len() as int) && all_known(
                words_of(phrase@),
                wordlist@,
            ) && !checksum_holds(indices_of_words(words_of(phrase@), wordlist@)) ==> (r matches Err(
                MnemonicError::InvalidPhrase(p),
            ) && p@ == phrase@),
    {
        let ghost ws = words_of(phrase@);
        let ghost list = wordlist@;
        let words = wordlist.words();
        let indices = match phrase_to_indices(phrase, words) {
            Ok(indices) => indices,
            Err(e) => {
                return Err(e);
            },
        };
        proof {
            assert forall|i: int| 0 <= i < ws.len() implies in_list(list, #[trigger] ws[i]) by {
                assert(is_first_index(list, ws[i], indices@[i] as int));
            }
            assert forall|i: int| 0 <= i < indices@.len() implies #[trigger] indices@[i]
                == indices_of_words(ws, list)[i] by {
                assert(is_first_index(list, ws[i], indices@[i] as int));
                let j = choose|j: int| is_first_index(list, ws[i], j);
                lemma_first_index_unique(list, ws[i], j, indices@[i] as int);
            }
            assert(indices@ =~= indices_of_words(ws, list));
        }
        let (entropy, checksum) = match indices_to_entropy(&indices) {
            Ok(pair) => pair,
            Err(_) => {
                proof {
                    assert forall|k: int| 0 <= k < indices@.len() implies #[trigger] indices@[k]
                        < 2048 by {
                        assert(is_first_index(list, ws[k], indices@[k] as int));
                    }
                }
                assert(false);
                return Err(MnemonicError::InvalidEntropyLength(0));
            },
        };
        assert(entropy@ =~= entropy_of_indices(indices@));
        let digest = sha256(&entropy);
        let shift = (8 - indices.len() / 3) as u8;
        let expected = digest[0] >> shift;
        proof {
            lemma_u8_shr_is_div(digest@[0], shift);
        }
        if checksum != expected {
            Err(MnemonicError::InvalidPhrase(phrase.to_owned()))
        } else {
            Ok(Bip39Mnemonic { entropy })
        }
    }
}

/// A word has one first place in a list.
proof fn lemma_first_index_unique(list: Seq<Seq<char>>, w: Seq<char>, i: int, j: int)
    requires
        is_first_index(list, w, i),
        is_first_index(list, w, j),
    ensures
        i == j,
{
    if i < j {
        assert(list[i] == w);
    } else if j < i {
        assert(list[j] == w);
    }
}

/// The phrase of a mnemonic, read with the same wordlist, has a supported
/// word count, only known words and a checksum that holds, and gives back
/// the mnemonic's entropy.
pub proof fn lemma_mnemonic_phrase_round_trip(entropy: Seq<u8>, list: Seq<Seq<char>>)
    requires
        is_entropy_length(entropy.len() as int),
        is_wordlist(list),
    ensures
        is_supported_word_count(words_of(phrase_of(entropy, list)).len() as int),
        all_known(words_of(phrase_of(entropy, list)), list),
        checksum_holds(indices_of_words(words_of(phrase_of(entropy, list)), list)),
        entropy_of_indices(indices_of_words(words_of(phrase_of(entropy, list)), list)) == entropy,
{
    let c = checksum_byte(entropy);
    let idx = phrase_indices_of(entropy);
    assert forall|k: int| 0 <= k < idx.len() implies #[trigger] idx[k] == word_index(
        entropy,
        c,
        k,
    ) by {
        lemma_word_index_fits(entropy, c, k);
    }
    lemma_entropy_round_trip(entropy, c, idx);
    let ws = words_at(list, idx);
    assert forall|i: int| 0 <= i < ws.len() implies is_word(#[trigger] ws[i]) by {
        assert(idx[i] < 2048);
        assert(is_word(list[idx[i] as int]));
    }
    lemma_split_join(ws);
    assert forall|i: int| 0 <= i < ws.len() implies in_list(list, #[trigger] ws[i]) by {
        assert(idx[i] < 2048);
        assert(list[idx[i] as int] == ws[i]);
    }
    assert forall|i: int| 0 <= i < idx.len() implies #[trigger] indices_of_words(ws, list)[i]
        == idx[i] by {
        let k = idx[i] as int;
        assert(idx[i] < 2048);
        assert(ws[i] == list[k]);
        assert forall|j: int| 0 <= j < k implies list[j] != ws[i] by {
            assert(list[j] != list[k]);
        }
        assert(is_first_index(list, ws[i], k));
        let j = choose|j: int| is_first_index(list, ws[i], j);
        lemma_first_index_unique(list, ws[i], j, k);
    }
    assert(indices_of_words(ws, list) =~= idx);
    assert(entropy_of_indices(idx) =~= entropy);
}

/// In a wordlist of distinct words, a known word has a first place.
proof fn lemma_known_word_has_index(list: Seq<Seq<char>>, w: Seq<char>)
    requires
        is_wordlist(list),
        in_list(list, w),
    ensures
        is_first_index(list, w, choose|j: int| is_first_index(list, w, j)),
{
    let j = choose|j: int| 0 <= j < list.len() && list[j] == w;
    assert forall|k: int| 0 <= k < j implies list[k] != w by {
        assert(list[k] != list[j]);
    }
    assert(is_first_index(list, w, j));
}

/// A phrase of known words that differ from the words of a mnemonic's
/// phrase never reads as that mnemonic: its checksum fails, or it holds
/// other entropy.
pub proof fn lemma_changed_phrase_rejected(
    entropy: Seq<u8>,
    list: Seq<Seq<char>>,
    ws: Seq<Seq<char>>,
)
    requires
        is_entropy_length(entropy.len() as int),
        is_wordlist(list),
        ws != words_of(phrase_of(entropy, list)),
        is_supported_word_count(ws.len() as int),
        all_known(ws, list),
    ensures
        !checksum_holds(indices_of_words(ws, list)) || entropy_of_indices(
            indices_of_words(ws, list),
        ) != entropy,
{
    let ws0 = words_of(phrase_of(entropy, list));
    lemma_mnemonic_phrase_round_trip(entropy, list);
    let a = indices_of_words(ws, list);
    let b = indices_of_words(ws0, list);
    if checksum_holds(a) && entropy_of_indices(a) == entropy {
        assert(a.len() == b.len());
        assert forall|k: int| 0 <= k < a.len() implies #[trigger] a[k] < 2048 && list[a[k] as int]
            == ws[k] by {
            lemma_known_word_has_index(list, ws[k]);
        }
        assert forall|k: int| 0 <= k < b.len() implies #[trigger] b[k] < 2048 && list[b[k] as int]
            == ws0[k] by {
            lemma_known_word_has_index(list, ws0[k]);
        }
        let len = entropy_byte_length(a.len() as int);
        assert forall|i: int| 0 <= i < len implies #[trigger] entropy_byte(a, i) == entropy_byte(
            b,
            i,
        ) by {
            lemma_entropy_byte_fits(a, i);
            lemma_entropy_byte_fits(b, i);
            assert(entropy_of_indices(a)[i] == entropy_of_indices(b)[i]);
        }
        lemma_indices_determined(a, b);
        assert forall|k: int| 0 <= k < ws.len() implies ws[k] == ws0[k] by {
            assert(a[k] < 2048 && list[a[k] as int] == ws[k]);
            assert(b[k] < 2048 && list[b[k] as int] == ws0[k]);
        }
        assert(ws =~= ws0);
    }
}

} // verus!
