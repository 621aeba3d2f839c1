use zcash_mnemonic::mnemonic::{MnemonicError, WordlistError};
use zcash_mnemonic::phrase::{
    find_word, indices_to_phrase, is_white_space_char, join_phrase, phrase_to_indices,
    split_words, words_to_indices,
};

fn wordlist() -> Vec<String> {
    [
        "abandon", "ability", "able", "about", "above", "absent", "absorb", "abstract", "absurd",
        "abuse", "access", "accident",
    ]
    .iter()
    .map(|w| w.to_string())
    .collect()
}

fn strings(words: &[&str]) -> Vec<String> {
    words.iter().map(|w| w.to_string()).collect()
}

#[test]
fn white_space_chars() {
    for c in [' ', '\t', '\n', '\r', '\u{0B}', '\u{0C}', '\u{85}', '\u{A0}', '\u{2003}', '\u{3000}'].iter() {
        assert!(is_white_space_char(*c));
        assert!(c.is_whitespace());
    }
    for c in ['a', '0', '-', '\u{200B}', 'é'].iter() {
        assert!(!is_white_space_char(*c));
        assert!(!c.is_whitespace());
    }
}

#[test]
fn split_on_any_white_space() {
    assert_eq!(split_words("  able\tabout \n above  "), strings(&["able", "about", "above"]));
    assert_eq!(split_words("able\u{3000}about"), strings(&["able", "about"]));
    assert_eq!(split_words(""), Vec::<String>::new());
    assert_eq!(split_words(" \t\n"), Vec::<String>::new());
    assert_eq!(split_words("abandon"), strings(&["abandon"]));
}

#[test]
fn split_agrees_with_std() {
    let text = " one  two\tthree\u{2028}four\u{A0}five ";
    let expected: Vec<String> = text.split_whitespace().map(|w| w.to_string()).collect();
    assert_eq!(split_words(text), expected);
}

#[test]
fn join_then_split() {
    let words = strings(&["abandon", "ability", "able"]);
    let phrase = join_phrase(&words);
    assert_eq!(phrase, "abandon ability able");
    assert_eq!(split_words(&phrase), words);
    assert_eq!(join_phrase(&Vec::new()), "");
}

#[test]
fn find_word_in_list() {
    let list = wordlist();
    assert_eq!(find_word(&list, "abandon"), Some(0));
    assert_eq!(find_word(&list, "accident"), Some(11));
    assert_eq!(find_word(&list, "zoo"), None);
    assert_eq!(find_word(&list, "Abandon"), None);
}

#[test]
fn parse_phrase_of_twelve_words() {
    let list = wordlist();
    let phrase = "abandon abandon abandon abandon abandon abandon abandon abandon abandon abandon abandon about";
    let mut expected = vec![0usize; 11];
    expected.push(3);
    assert_eq!(phrase_to_indices(phrase, &list), Ok(expected));
}

#[test]
fn parse_unsupported_word_counts() {
    let list = wordlist();
    for n in [0usize, 1, 11, 13, 14, 16, 23, 25].iter() {
        let phrase = vec!["able"; *n].join(" ");
        assert_eq!(phrase_to_indices(&phrase, &list), Err(MnemonicError::InvalidWordCount(*n as u8)));
    }
    let phrase = vec!["able"; 300].join(" ");
    assert_eq!(phrase_to_indices(&phrase, &list), Err(MnemonicError::InvalidWordCount(255)));
}

#[test]
fn parse_supported_word_counts() {
    let list = wordlist();
    for n in [12usize, 15, 18, 21, 24].iter() {
        let phrase = vec!["absurd"; *n].join(" ");
        assert_eq!(phrase_to_indices(&phrase, &list), Ok(vec![8usize; *n]));
    }
}

#[test]
fn parse_names_the_first_unknown_word() {
    let list = wordlist();
    let mut words = vec!["able"; 12];
    words[4] = "zebra";
    words[9] = "yak";
    let phrase = words.join(" ");
    assert_eq!(
        phrase_to_indices(&phrase, &list),
        Err(MnemonicError::InvalidWord("zebra".to_string()))
    );
}

#[test]
fn word_count_is_checked_before_words() {
    let list = wordlist();
    let words = strings(&["zebra"; 11]);
    assert_eq!(words_to_indices(&words, &list), Err(MnemonicError::InvalidWordCount(11)));
    let words = strings(&["zebra"; 12]);
    assert_eq!(
        words_to_indices(&words, &list),
        Err(MnemonicError::InvalidWord("zebra".to_string()))
    );
}

#[test]
fn indices_to_phrase_and_back() {
    let list = wordlist();
    let indices: Vec<usize> = (0..15).map(|i| (i * 7) % 12).collect();
    let phrase = indices_to_phrase(&indices, &list).unwrap();
    assert!(phrase.starts_with("abandon abstract able"));
    assert_eq!(phrase_to_indices(&phrase, &list), Ok(indices));
}

#[test]
fn indices_to_phrase_out_of_range() {
    let list = wordlist();
    assert_eq!(
        indices_to_phrase(&vec![0, 12, 40], &list),
        Err(WordlistError::InvalidIndex(12))
    );
    assert_eq!(indices_to_phrase(&vec![], &list), Ok(String::new()));
}
