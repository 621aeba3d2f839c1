use zcash_mnemonic::bip39::{Bip39Mnemonic, Wordlist};
use zcash_mnemonic::mnemonic::{MnemonicError, WordlistError};

// A list of 2048 distinct words whose first four are those of the English
// BIP-39 list.
fn word_strings() -> Vec<String> {
    let mut words: Vec<String> = (0..2048u32)
        .map(|i| {
            let a = (b'a' + (i / 676) as u8) as char;
            let b = (b'a' + (i / 26 % 26) as u8) as char;
            let c = (b'a' + (i % 26) as u8) as char;
            format!("{}{}{}x", a, b, c)
        })
        .collect();
    words[0] = "abandon".to_string();
    words[1] = "ability".to_string();
    words[2] = "able".to_string();
    words[3] = "about".to_string();
    words
}

fn wordlist() -> Wordlist {
    Wordlist::new(word_strings()).unwrap()
}

const ZERO_PHRASE: &str = "abandon abandon abandon abandon abandon abandon abandon abandon abandon abandon abandon about";

#[test]
fn wordlist_of_wrong_length() {
    let mut words = word_strings();
    words.pop();
    assert!(matches!(Wordlist::new(words), Err(WordlistError::InvalidLength(2047))));
    assert!(matches!(Wordlist::new(Vec::new()), Err(WordlistError::InvalidLength(0))));
}

#[test]
fn wordlist_with_repeated_word() {
    let mut words = word_strings();
    words[100] = "able".to_string();
    assert!(matches!(Wordlist::new(words), Err(WordlistError::InvalidWord(w)) if w == "able"));
}

#[test]
fn wordlist_with_bad_word() {
    let mut words = word_strings();
    words[5] = "two words".to_string();
    assert!(matches!(Wordlist::new(words), Err(WordlistError::InvalidWord(w)) if w == "two words"));
    let mut words = word_strings();
    words[6] = String::new();
    assert!(matches!(Wordlist::new(words), Err(WordlistError::InvalidWord(w)) if w.is_empty()));
}

#[test]
fn all_zero_entropy_phrase() {
    let list = wordlist();
    let m = Bip39Mnemonic::from_entropy(vec![0u8; 16]).unwrap();
    assert_eq!(m.to_phrase(&list), ZERO_PHRASE);
}

#[test]
fn all_zero_phrase_reads_back_to_zero_entropy() {
    let list = wordlist();
    let m = Bip39Mnemonic::from_phrase(ZERO_PHRASE, &list).unwrap();
    assert_eq!(m.entropy(), &vec![0u8; 16]);
    let spaced = format!("  {}\n", ZERO_PHRASE.replace(' ', "\t "));
    let m = Bip39Mnemonic::from_phrase(&spaced, &list).unwrap();
    assert_eq!(m.entropy(), &vec![0u8; 16]);
}

#[test]
fn new_phrase_round_trip() {
    let list = wordlist();
    for w in [12u8, 15, 18, 21, 24].iter() {
        let m = Bip39Mnemonic::new(*w).unwrap();
        assert_eq!(m.entropy().len(), *w as usize / 3 * 4);
        let phrase = m.to_phrase(&list);
        assert_eq!(phrase.split(' ').count(), *w as usize);
        let back = Bip39Mnemonic::from_phrase(&phrase, &list).unwrap();
        assert_eq!(back.entropy(), m.entropy());
    }
}

#[test]
fn new_with_unsupported_word_count() {
    for w in [0u8, 11, 13, 25].iter() {
        assert!(matches!(Bip39Mnemonic::new(*w), Err(MnemonicError::InvalidWordCount(x)) if x == *w));
    }
}

#[test]
fn from_entropy_lengths() {
    for len in [16usize, 20, 24, 28, 32].iter() {
        assert!(Bip39Mnemonic::from_entropy(vec![7u8; *len]).is_ok());
    }
    assert!(matches!(
        Bip39Mnemonic::from_entropy(vec![7u8; 17]),
        Err(MnemonicError::InvalidEntropyLength(17))
    ));
}

#[test]
fn changed_word_fails_checksum() {
    let list = wordlist();
    let flipped = ZERO_PHRASE.replacen("abandon", "ability", 1);
    assert!(matches!(
        Bip39Mnemonic::from_phrase(&flipped, &list),
        Err(MnemonicError::InvalidPhrase(p)) if p == flipped
    ));
    let last_changed = ZERO_PHRASE.replace("about", "aaex");
    assert!(matches!(
        Bip39Mnemonic::from_phrase(&last_changed, &list),
        Err(MnemonicError::InvalidPhrase(_))
    ));
}

#[test]
fn every_single_word_change_is_caught_or_valid() {
    let list = wordlist();
    let m = Bip39Mnemonic::from_entropy((0u8..32).collect()).unwrap();
    let phrase = m.to_phrase(&list);
    let words: Vec<&str> = phrase.split(' ').collect();
    let mut rejected = 0;
    for i in 0..words.len() {
        let mut changed = words.clone();
        changed[i] = if words[i] == "able" { "about" } else { "able" };
        match Bip39Mnemonic::from_phrase(&changed.join(" "), &list) {
            Err(MnemonicError::InvalidPhrase(_)) => rejected += 1,
            Ok(other) => assert_ne!(other.entropy(), m.entropy()),
            Err(e) => panic!("unexpected error {:?}", e),
        }
    }
    assert!(rejected >= 20);
}

#[test]
fn phrase_with_unsupported_word_count() {
    let list = wordlist();
    let thirteen = format!("{} abandon", ZERO_PHRASE);
    assert!(matches!(
        Bip39Mnemonic::from_phrase(&thirteen, &list),
        Err(MnemonicError::InvalidWordCount(13))
    ));
    assert!(matches!(
        Bip39Mnemonic::from_phrase("", &list),
        Err(MnemonicError::InvalidWordCount(0))
    ));
}

#[test]
fn phrase_with_unknown_word() {
    let list = wordlist();
    let phrase = ZERO_PHRASE.replacen("abandon", "zebra", 2);
    assert!(matches!(
        Bip39Mnemonic::from_phrase(&phrase, &list),
        Err(MnemonicError::InvalidWord(w)) if w == "zebra"
    ));
}

fn hex(bytes: &[u8]) -> String {
    bytes.iter().map(|b| format!("{:02x}", b)).collect()
}

#[test]
fn seed_with_password() {
    let list = wordlist();
    let m = Bip39Mnemonic::from_entropy(vec![0u8; 16]).unwrap();
    assert_eq!(
        hex(&m.to_seed(&list, Some("TREZOR"))),
        "c55257c360c07c72029aebc1b53c05ed0362ada38ead3e3e9efa3708e53495531f09a6987599d18264c1e1c92f2cf141630c7a3c4ab7c81b2f001698e7463b04"
    );
}

#[test]
fn seed_without_password_is_seed_of_empty_password() {
    let list = wordlist();
    let m = Bip39Mnemonic::from_entropy(vec![0u8; 16]).unwrap();
    let none = m.to_seed(&list, None);
    assert_eq!(
        hex(&none),
        "5eb00bbddcf069084889a8ab9155568165f5c453ccb85e70811aaed6f6da5fc19a5ac40b389cd370d086206dec8aa6c43daea6690f20ad3d8d48b2d2ce9e38e4"
    );
    assert_eq!(m.to_seed(&list, Some("")), none);
    assert_eq!(m.to_seed(&list, None), none);
    assert_ne!(m.to_seed(&list, Some("x")), none);
}
