use crate::mnemonic::{is_supported_word_count, MnemonicError, WordlistError};
use crate::network::same_text;
use vstd::prelude::*;

verus! {

/// The characters with the Unicode `White_Space` property, which separate the
/// words of a phrase.
pub open spec fn is_white_space(c: char) -> bool {
    let n = c as u32;
    (0x09 <= n && n <= 0x0D) || n == 0x20 || n == 0x85 || n == 0xA0 || n == 0x1680 || (0x2000
        <= n && n <= 0x200A) || n == 0x2028 || n == 0x2029 || n == 0x202F || n == 0x205F || n
        == 0x3000
}

/// The maximal runs of non-white-space characters of `s`, in order.
pub open spec fn words_of(s: Seq<char>) -> Seq<Seq<char>>
    decreases s.len(),
{
    if s.len() == 0 {
        seq![]
    } else {
        let rest = words_of(s.drop_last());
        let c = s.last();
        if is_white_space(c) {
            rest
        } else if s.len() >= 2 && !is_white_space(s[s.len() - 2]) {
            rest.update(rest.len() - 1, rest.last().push(c))
        } else {
            rest.push(seq![c])
        }
    }
}

/// The words joined by single spaces.
pub open spec fn join_words(words: Seq<Seq<char>>) -> Seq<char>
    decreases words.len(),
{
    if words.len() == 0 {
        seq![]
    } else if words.len() == 1 {
        words[0]
    } else {
        join_words(words.drop_last()) + seq![' '] + words.last()
    }
}

/// A word that can stand in a phrase: not empty, and free of white space.
pub open spec fn is_word(w: Seq<char>) -> bool {
    w.len() > 0 && forall|i: int| 0 <= i < w.len() ==> !is_white_space(#[trigger] w[i])
}

pub open spec fn views(v: Seq<String>) -> Seq<Seq<char>> {
    v.map_values(|w: String| w@)
}

/// Whether `c` is a white-space character.
pub fn is_white_space_char(c: char) -> (r: bool)
    ensures
        r == is_white_space(c),
{
    let n = c as u32;
    (0x09 <= n && n <= 0x0D) || n == 0x20 || n == 0x85 || n == 0xA0 || n == 0x1680 || (0x2000
        <= n && n <= 0x200A) || n == 0x2028 || n == 0x2029 || n == 0x202F || n == 0x205F || n
        == 0x3000
}

/// Splits a phrase into its words.
pub fn split_words(phrase: &str) -> (r: Vec<String>)
    ensures
        views(r@) == words_of(phrase@),
{
    let n = phrase.unicode_len();
    let mut words: Vec<String> = Vec::new();
    let mut start: usize = 0;
    let mut i: usize = 0;
    while i < n
        invariant
            n == phrase@.len(),
            start <= i <= n,
            (start < i) == (i > 0 && !is_white_space(phrase@[i - 1])),
            start < i ==> words_of(phrase@.subrange(0, i as int)) == views(words@).push(
                phrase@.subrange(start as int, i as int),
            ),
            start == i ==> words_of(phrase@.subrange(0, i as int)) == views(words@),
        decreases n - i,
    {
        let c = phrase.get_char(i);
        let ghost s = phrase@.subrange(0, i + 1);
        assert(s.drop_last() == phrase@.subrange(0, i as int));
        assert(s.last() == c);
        if is_white_space_char(c) {
            if start < i {
                let w = phrase.substring_char(start, i).to_owned();
                let ghost before = words@;
                words.push(w);
                assert(views(words@) =~= views(before).push(w@));
            }
            start = i + 1;
        } else {
            if start < i {
                assert(s[s.len() - 2] == phrase@[i - 1]);
                assert(phrase@.subrange(start as int, i + 1) == phrase@.subrange(
                    start as int,
                    i as int,
                ).push(c));
                let ghost rest = words_of(phrase@.subrange(0, i as int));
                assert(rest.update(rest.len() - 1, rest.last().push(c)) =~= views(words@).push(
                    phrase@.subrange(start as int, i + 1),
                ));
            } else {
                assert(phrase@.subrange(i as int, i + 1) =~= seq![c]);
            }
        }
        i = i + 1;
    }
    if start < n {
        let w = phrase.substring_char(start, n).to_owned();
        let ghost before = words@;
        words.push(w);
        assert(views(words@) =~= views(before).push(w@));
    }
    assert(phrase@.subrange(0, n as int) == phrase@);
    words
}

/// Joins words into a phrase, one space between two words.
pub fn join_phrase(words: &Vec<String>) -> (r: String)
    ensures
        r@ == join_words(views(words@)),
{
    let mut phrase = String::new();
    let mut i: usize = 0;
    while i < words.len()
        invariant
            i <= words@.len(),
            phrase@ == join_words(views(words@).subrange(0, i as int)),
        decreases words@.len() - i,
    {
        let ghost ws = views(words@).subrange(0, i + 1);
        assert(ws.drop_last() =~= views(words@).subrange(0, i as int));
        if i > 0 {
            proof {
                reveal_strlit(" ");
            }
            phrase.append(" ");
        }
        phrase.append(words[i].as_str());
        proof {
            if i == 0 {
                assert(phrase@ =~= ws[0]);
            } else {
                assert(phrase@ =~= join_words(ws.drop_last()) + seq![' '] + ws.last());
            }
        }
        i = i + 1;
    }
    assert(views(words@).subrange(0, words@.len() as int) =~= views(words@));
    phrase
}

/// A word appended after white space, or at the start, is read as one more word.
proof fn lemma_words_of_append_word(p: Seq<char>, w: Seq<char>, k: int)
    requires
        p.len() == 0 || is_white_space(p.last()),
        is_word(w),
        1 <= k <= w.len(),
    ensures
        words_of(p + w.subrange(0, k)) == words_of(p).push(w.subrange(0, k)),
    decreases k,
{
    let s = p + w.subrange(0, k);
    assert(s.last() == w[k - 1]);
    if k == 1 {
        assert(s.drop_last() =~= p);
        assert(w.subrange(0, 1) =~= seq![w[0]]);
        if s.len() >= 2 {
            assert(s[s.len() - 2] == p.last());
        }
    } else {
        lemma_words_of_append_word(p, w, k - 1);
        assert(s.drop_last() =~= p + w.subrange(0, k - 1));
        assert(s[s.len() - 2] == w[k - 2]);
        let rest = words_of(s.drop_last());
        assert(rest == words_of(p).push(w.subrange(0, k - 1)));
        assert(w.subrange(0, k - 1).push(w[k - 1]) =~= w.subrange(0, k));
        assert(rest.update(rest.len() - 1, rest.last().push(w[k - 1])) =~= words_of(p).push(
            w.subrange(0, k),
        ));
    }
}

/// Splitting a phrase joined from words gives back those words.
pub proof fn lemma_split_join(words: Seq<Seq<char>>)
    requires
        forall|i: int| 0 <= i < words.len() ==> is_word(#[trigger] words[i]),
    ensures
        words_of(join_words(words)) == words,
    decreases words.len(),
{
    if words.len() == 0 {
    } else {
        let last = words.last();
        assert(is_word(words[words.len() - 1]));
        assert(last.subrange(0, last.len() as int) =~= last);
        if words.len() == 1 {
            lemma_words_of_append_word(seq![], last, last.len() as int);
            assert(seq![] + last =~= last);
            assert(words_of(seq![]) == Seq::<Seq<char>>::empty());
            assert(Seq::<Seq<char>>::empty().push(last) =~= words);
        } else {
            let front = words.drop_last();
            assert forall|i: int| 0 <= i < front.len() implies is_word(#[trigger] front[i]) by {
                assert(front[i] == words[i]);
            }
            lemma_split_join(front);
            let p = join_words(front) + seq![' '];
            assert(p.drop_last() =~= join_words(front));
            assert(p.last() == ' ');
            assert(words_of(p) == words_of(join_words(front)));
            lemma_words_of_append_word(p, last, last.len() as int);
            assert(join_words(words) == p + last);
            assert(front.push(last) =~= words);
        }
    }
}

/// Whether `w` is one of the words of the list.
pub open spec fn in_list(list: Seq<Seq<char>>, w: Seq<char>) -> bool {
    exists|j: int| 0 <= j < list.len() && list[j] == w
}

/// `i` is the first place of `w` in the list.
pub open spec fn is_first_index(list: Seq<Seq<char>>, w: Seq<char>, i: int) -> bool {
    &&& 0 <= i < list.len()
    &&& list[i] == w
    &&& forall|j: int| 0 <= j < i ==> list[j] != w
}

/// Returns the place of `word` in the wordlist.
pub fn find_word(wordlist: &Vec<String>, word: &str) -> (r: Option<usize>)
    ensures
        r matches Some(i) ==> is_first_index(views(wordlist@), word@, i as int),
        r is None ==> !in_list(views(wordlist@), word@),
{
    let mut i: usize = 0;
    while i < wordlist.len()
        invariant
            i <= wordlist@.len(),
            forall|j: int| 0 <= j < i ==> views(wordlist@)[j] != word@,
        decreases wordlist@.len() - i,
    {
        if same_text(wordlist[i].as_str(), word) {
            return Some(i);
        }
        i = i + 1;
    }
    None
}

/// The word count that an error reports: the count itself, or 255 for more.
pub open spec fn reported_word_count(n: int) -> u8 {
    if n > 255 {
        255
    } else {
        n as u8
    }
}

/// What reading the words `ws` against the wordlist `list` gives: an error
/// for an unsupported word count, else an error naming the first word that
/// is not in the list, else the place of each word in the list.
pub open spec fn read_as(
    ws: Seq<Seq<char>>,
    list: Seq<Seq<char>>,
    r: Result<Vec<usize>, MnemonicError>,
) -> bool {
    if !is_supported_word_count(ws.len() as int) {
        r == Err::<Vec<usize>, MnemonicError>(
            MnemonicError::InvalidWordCount(reported_word_count(ws.len() as int)),
        )
    } else if exists|i: int| 0 <= i < ws.len() && !in_list(list, #[trigger] ws[i]) {
        r matches Err(MnemonicError::InvalidWord(w)) && exists|i: int|
            0 <= i < ws.len() && w@ == ws[i] && !in_list(list, #[trigger] ws[i]) && forall|k: int|
                0 <= k < i ==> in_list(list, #[trigger] ws[k])
    } else {
        r matches Ok(idx) && idx@.len() == ws.len() && forall|i: int|
            0 <= i < ws.len() ==> is_first_index(list, #[trigger] ws[i], idx@[i] as int)
    }
}

/// Returns the place in the wordlist of each of the words.
pub fn words_to_indices(words: &Vec<String>, wordlist: &Vec<String>) -> (r: Result<
    Vec<usize>,
    MnemonicError,
>)
    ensures
        read_as(views(words@), views(wordlist@), r),
{
    let n = words.len();
    if !(n == 12 || n == 15 || n == 18 || n == 21 || n == 24) {
        let count: u8 = if n > 255 {
            255
        } else {
            n as u8
        };
        return Err(MnemonicError::InvalidWordCount(count));
    }
    let ghost ws = views(words@);
    let ghost list = views(wordlist@);
    assert(ws.len() == n);
    let mut indices: Vec<usize> = Vec::new();
    let mut i: usize = 0;
    while i < n
        invariant
            n == words@.len(),
            ws == views(words@),
            ws.len() == n,
            is_supported_word_count(n as int),
            list == views(wordlist@),
            i <= n,
            indices@.len() == i,
            forall|k: int| 0 <= k < i ==> is_first_index(list, #[trigger] ws[k], indices@[k] as int),
        decreases n - i,
    {
        match find_word(wordlist, words[i].as_str()) {
            Some(j) => {
                indices.push(j);
            },
            None => {
                let word = words[i].clone();
                proof {
                    assert(word@ == ws[i as int]);
                    assert(!in_list(list, ws[i as int]));
                    assert forall|k: int| 0 <= k < i implies in_list(list, #[trigger] ws[k]) by {
                        assert(is_first_index(list, ws[k], indices@[k] as int));
                    }
                }
                return Err(MnemonicError::InvalidWord(word));
            },
        }
        i = i + 1;
    }
    proof {
        assert forall|i: int| 0 <= i < ws.len() implies in_list(list, #[trigger] ws[i]) by {
            assert(is_first_index(list, ws[i], indices@[i] as int));
        }
    }
    Ok(indices)
}

/// Splits a phrase and returns the place in the wordlist of each word.
pub fn phrase_to_indices(phrase: &str, wordlist: &Vec<String>) -> (r: Result<
    Vec<usize>,
    MnemonicError,
>)
    ensures
        read_as(words_of(phrase@), views(wordlist@), r),
{
    let words = split_words(phrase);
    words_to_indices(&words, wordlist)
}

/// The words at the given places of the list.
pub open spec fn words_at(list: Seq<Seq<char>>, idx: Seq<usize>) -> Seq<Seq<char>> {
    idx.map_values(|k: usize| list[k as int])
}

/// Writes the phrase whose words stand at the given places of the wordlist.
pub fn indices_to_phrase(indices: &Vec<usize>, wordlist: &Vec<String>) -> (r: Result<
    String,
    WordlistError,
>)
    ensures
        (forall|i: int| 0 <= i < indices@.len() ==> #[trigger] indices@[i] < wordlist@.len())
            <==> r is Ok,
        r matches Ok(p) ==> p@ == join_words(words_at(views(wordlist@), indices@)),
        r matches Err(e) ==> exists|i: int|
            0 <= i < indices@.len() && #[trigger] indices@[i] >= wordlist@.len() && e
                == WordlistError::InvalidIndex(indices@[i]),
{
    let ghost list = views(wordlist@);
    let mut words: Vec<String> = Vec::new();
    let mut i: usize = 0;
    while i < indices.len()
        invariant
            list == views(wordlist@),
            i <= indices@.len(),
            views(words@) == words_at(list, indices@.subrange(0, i as int)),
            forall|k: int| 0 <= k < i ==> #[trigger] indices@[k] < wordlist@.len(),
        decreases indices@.len() - i,
    {
        let k = indices[i];
        if k >= wordlist.len() {
            return Err(WordlistError::InvalidIndex(k));
        }
        let w = wordlist[k].clone();
        let ghost before = words@;
        words.push(w);
        assert(views(words@) =~= words_at(list, indices@.subrange(0, i + 1))) by {
            assert(views(words@) =~= views(before).push(w@));
        }
        i = i + 1;
    }
    assert(indices@.subrange(0, indices@.len() as int) =~= indices@);
    Ok(join_phrase(&words))
}

/// A phrase written from places in a wordlist of distinct words, with a
/// supported word count, reads back as the same places.
pub proof fn lemma_phrase_round_trip(
    list: Seq<Seq<char>>,
    idx: Seq<usize>,
    r: Result<Vec<usize>, MnemonicError>,
)
    requires
        forall|i: int| 0 <= i < list.len() ==> is_word(#[trigger] list[i]),
        forall|i: int, j: int| 0 <= i < j < list.len() ==> list[i] != list[j],
        is_supported_word_count(idx.len() as int),
        forall|i: int| 0 <= i < idx.len() ==> #[trigger] idx[i] < list.len(),
        read_as(words_of(join_words(words_at(list, idx))), list, r),
    ensures
        r matches Ok(v) && v@ == idx,
{
    let ws = words_at(list, idx);
    assert forall|i: int| 0 <= i < ws.len() implies is_word(#[trigger] ws[i]) by {
        assert(idx[i] < list.len());
        assert(is_word(list[idx[i] as int]));
    }
    lemma_split_join(ws);
    assert forall|i: int| 0 <= i < ws.len() implies in_list(list, #[trigger] ws[i]) by {
        assert(idx[i] < list.len());
        assert(list[idx[i] as int] == ws[i]);
    }
    let v = r->Ok_0;
    assert forall|i: int| 0 <= i < idx.len() implies v@[i] == idx[i] by {
        assert(idx[i] < list.len());
        assert(is_first_index(list, ws[i], v@[i] as int));
        let a = v@[i] as int;
        let b = idx[i] as int;
        if a < b {
            assert(list[a] != list[b]);
        } else if b < a {
            assert(list[b] != list[a]);
        }
    }
    assert(v@ =~= idx);
}

} // verus!
