use vigenere_search::dict::DictIndex;
use vigenere_search::driver::{evaluate_candidate, par_search, search, SearchConfig};
use vigenere_search::keygen::{combinatorial_keys, derive_keys};
use vigenere_search::scorer::{score_key, AcceptPolicy, ScoreConfig};
use vigenere_search::shift::{decrypt, decrypt_prefix, encrypt, Key, ShiftStream};
use vigenere_search::words::{tokenize, Words};

fn chars(s: &str) -> Vec<char> {
    s.chars().collect()
}

fn text_of(v: &[char]) -> String {
    v.iter().collect()
}

fn key(shifts: &[u8]) -> Key {
    Key::new(shifts.to_vec()).expect("well-formed key")
}

#[test]
fn decrypt_shifts_letters_back() {
    let out = decrypt(&chars("KHOOR ZRUOG"), &key(&[3]));
    assert_eq!(text_of(&out), "HELLO WORLD");
}

#[test]
fn decrypt_cycles_key_and_passes_non_letters() {
    // C,3 -> shift 2 and 3 alternate over letters only.
    let out = decrypt(&chars("CD, CD!"), &key(&[2, 3]));
    assert_eq!(text_of(&out), "AA, AA!");
}

#[test]
fn decrypt_uppercases_lowercase_input() {
    let out = decrypt(&chars("khoor"), &key(&[3]));
    assert_eq!(text_of(&out), "HELLO");
}

#[test]
fn round_trip_reencrypts_to_original() {
    let original = chars("ATTACK AT DAWN, 5AM!");
    let k = key(&[3, 1, 4]);
    let decrypted = decrypt(&original, &k);
    let back = encrypt(&decrypted, &k);
    assert_eq!(back, original);
}

#[test]
fn round_trip_preserves_non_letters_in_place() {
    let original = chars("A-B C.9");
    let k = key(&[25]);
    let decrypted = decrypt(&original, &k);
    assert_eq!(decrypted[1], '-');
    assert_eq!(decrypted[3], ' ');
    assert_eq!(decrypted[5], '.');
    assert_eq!(decrypted[6], '9');
    assert_eq!(encrypt(&decrypted, &k), original);
}

#[test]
fn cursor_never_advances_on_non_letters() {
    let text = chars("A  B");
    let k = key(&[1, 2]);
    let mut st = ShiftStream::new(&text, &k);
    assert_eq!(st.cursor, 0);
    assert_eq!(st.next(&text, &k), Some('Z')); // 'A' - 1
    assert_eq!(st.cursor, 1);
    assert_eq!(st.next(&text, &k), Some(' '));
    assert_eq!(st.cursor, 1);
    assert_eq!(st.next(&text, &k), Some(' '));
    assert_eq!(st.cursor, 1);
    assert_eq!(st.next(&text, &k), Some('Z')); // 'B' - 2
    assert_eq!(st.cursor, 0);
    assert_eq!(st.next(&text, &k), None);
}

#[test]
fn degenerate_keys_are_rejected() {
    assert!(Key::new(vec![]).is_none());
    assert!(Key::new(vec![26]).is_none());
    assert!(Key::new(vec![3, 30, 1]).is_none());
    assert!(Key::new(vec![0]).is_some());
    assert!(Key::new(vec![25, 0, 13]).is_some());
}

#[test]
fn key_token_is_letter_form() {
    assert_eq!(text_of(&key(&[3]).token()), "D");
    assert_eq!(text_of(&key(&[0, 25, 1]).token()), "AZB");
    assert_eq!(key(&[7, 7]).period(), 2);
}

#[test]
fn decrypt_prefix_is_prefix_of_full_decrypt() {
    let text = chars("KHOOR ZRUOG DQG PRUH");
    let k = key(&[3]);
    let full = decrypt(&text, &k);
    let prefix = decrypt_prefix(&text, &k, 5);
    assert_eq!(prefix[..], full[..5]);
    let over = decrypt_prefix(&text, &k, 1000);
    assert_eq!(over, full);
}

#[test]
fn tokenizer_splits_on_non_letters_and_flushes_last_word() {
    let words = tokenize(&chars("HELLO, WORLD!X"));
    let words: Vec<String> = words.iter().map(|w| text_of(w)).collect();
    assert_eq!(words, vec!["HELLO", "WORLD", "X"]);
}

#[test]
fn tokenizer_splits_contractions() {
    // Apostrophes are not word characters: a contracted word splits.
    let words = tokenize(&chars("I've seen it"));
    let words: Vec<String> = words.iter().map(|w| text_of(w)).collect();
    assert_eq!(words, vec!["I", "ve", "seen", "it"]);
}

#[test]
fn tokenizer_concat_equals_stripped_input() {
    let input = "ab,cd 12ef!  g";
    let words = tokenize(&chars(input));
    let concat: String = words.iter().map(|w| text_of(w)).collect();
    let stripped: String = input.chars().filter(|c| c.is_ascii_alphabetic()).collect();
    assert_eq!(concat, stripped);
    assert!(words.iter().all(|w| !w.is_empty()));
}

#[test]
fn words_trait_matches_tokenize() {
    let v = chars("ONE two,THREE");
    assert_eq!(v.words(), tokenize(&v));
}

#[test]
fn dictionary_normalizes_sorts_and_dedups() {
    let d = DictIndex::build(&chars("world hello\nWorld foo42 hello"));
    assert_eq!(d.len(), 2);
    assert!(d.contains(&chars("HELLO")));
    assert!(d.contains(&chars("hello")));
    assert!(d.contains(&chars("World")));
    assert!(!d.contains(&chars("FOO42")));
    assert!(!d.contains(&chars("FOO")));
    assert!(!d.contains(&chars("")));
}

#[test]
fn dictionary_membership_is_verbatim() {
    let d = DictIndex::build(&chars("ALPHA BETA GAMMA"));
    assert!(d.contains(&chars("beta")));
    assert!(!d.contains(&chars("BET")));
    assert!(!d.contains(&chars("BETAA")));
}

#[test]
fn empty_dictionary_is_valid_and_matches_nothing() {
    let d = DictIndex::build(&chars("  \n\t "));
    assert_eq!(d.len(), 0);
    assert!(!d.contains(&chars("ANYTHING")));
}

#[test]
fn derived_keys_map_letters_to_offsets() {
    let d = DictIndex::build(&chars("ab DZ"));
    let keys = derive_keys(&d);
    let shifts: Vec<Vec<u8>> = keys.iter().map(|k| k.shifts.clone()).collect();
    assert_eq!(shifts, vec![vec![0, 1], vec![3, 25]]);
}

#[test]
fn combinatorial_enumerates_702_keys_for_lengths_one_and_two() {
    let keys = combinatorial_keys(1, 2);
    assert_eq!(keys.len(), 26 + 676);
    // Each key is a distinct shift vector.
    let mut seen = std::collections::HashSet::new();
    for k in &keys {
        assert!(seen.insert(k.shifts.clone()));
    }
    // Lexicographic order by digit vector, shorter lengths first.
    for pair in keys.windows(2) {
        let a = &pair[0].shifts;
        let b = &pair[1].shifts;
        assert!(a.len() < b.len() || (a.len() == b.len() && a < b));
    }
    assert_eq!(keys[0].shifts, vec![0]);
    assert_eq!(keys[25].shifts, vec![25]);
    assert_eq!(keys[26].shifts, vec![0, 0]);
    assert_eq!(keys[701].shifts, vec![25, 25]);
}

#[test]
fn scorer_accepts_hello_world_with_key_three() {
    let text = chars("KHOOR ZRUOG");
    let dict = DictIndex::build(&chars("HELLO WORLD"));
    let cfg = ScoreConfig { max_words: 2, min_word_len: 4, policy: AcceptPolicy::AtLeast(2) };
    let out = score_key(&text, &key(&[3]), &dict, &cfg);
    assert_eq!(out.considered, 2);
    assert_eq!(out.matched, 2);
    assert!(out.accepted);
}

#[test]
fn scorer_rejects_noop_key_on_ciphertext() {
    let text = chars("KHOOR ZRUOG");
    let dict = DictIndex::build(&chars("HELLO WORLD"));
    let cfg = ScoreConfig { max_words: 2, min_word_len: 4, policy: AcceptPolicy::AtLeast(2) };
    let out = score_key(&text, &key(&[0]), &dict, &cfg);
    assert_eq!(out.matched, 0);
    assert!(!out.accepted);
}

#[test]
fn scorer_filters_short_words_and_bounds_word_count() {
    let text = chars("DW WKH GDZQ ZH ULGH RXW");
    // Decrypts to "AT THE DAWN WE RIDE OUT" under key [3].
    let dict = DictIndex::build(&chars("AT THE DAWN WE RIDE OUT"));
    let all = ScoreConfig { max_words: 6, min_word_len: 0, policy: AcceptPolicy::All };
    let out = score_key(&text, &key(&[3]), &dict, &all);
    assert_eq!((out.considered, out.matched), (6, 6));
    let long_only = ScoreConfig { max_words: 6, min_word_len: 4, policy: AcceptPolicy::All };
    let out = score_key(&text, &key(&[3]), &dict, &long_only);
    assert_eq!((out.considered, out.matched), (2, 2));
    let first_three = ScoreConfig { max_words: 3, min_word_len: 0, policy: AcceptPolicy::All };
    let out = score_key(&text, &key(&[3]), &dict, &first_three);
    assert_eq!((out.considered, out.matched), (3, 3));
}

#[test]
fn raising_the_threshold_only_shrinks_acceptance() {
    let text = chars("KHOOR ZRUOG");
    let dict = DictIndex::build(&chars("HELLO"));
    let k = key(&[3]);
    for low in 0..4usize {
        for high in low..4usize {
            let accept_at = |m: usize| {
                let cfg = ScoreConfig {
                    max_words: 2,
                    min_word_len: 4,
                    policy: AcceptPolicy::AtLeast(m),
                };
                score_key(&text, &k, &dict, &cfg).accepted
            };
            if accept_at(high) {
                assert!(accept_at(low));
            }
        }
    }
}

#[test]
fn evaluate_candidate_reports_key_excerpt_and_confidence() {
    let text = chars("KHOOR ZRUOG");
    let dict = DictIndex::build(&chars("HELLO WORLD"));
    let cfg = SearchConfig {
        score: ScoreConfig { max_words: 2, min_word_len: 4, policy: AcceptPolicy::AtLeast(2) },
        excerpt_len: 7,
    };
    let m = evaluate_candidate(&text, &key(&[3]), &dict, &cfg).expect("a match");
    assert_eq!(m.key.shifts, vec![3]);
    assert_eq!(text_of(&m.excerpt), "HELLO W");
    assert_eq!(m.confidence, 2);
    assert!(evaluate_candidate(&text, &key(&[0]), &dict, &cfg).is_none());
}

#[test]
fn search_evaluates_every_candidate_and_keeps_order() {
    let text = chars("KHOOR ZRUOG");
    let dict = DictIndex::build(&chars("HELLO WORLD DOLLY"));
    let cfg = SearchConfig {
        score: ScoreConfig { max_words: 2, min_word_len: 4, policy: AcceptPolicy::AtLeast(1) },
        excerpt_len: 250,
    };
    // Key [3] decrypts to HELLO WORLD; key [0] matches nothing.
    let keys = vec![key(&[0]), key(&[3])];
    let found = search(&text, &keys, &dict, &cfg);
    assert_eq!(found.len(), 1);
    assert_eq!(found[0].key.shifts, vec![3]);
    assert_eq!(text_of(&found[0].excerpt), "HELLO WORLD");
}

#[test]
fn par_search_agrees_with_sequential_search() {
    let text = chars("KHOOR ZRUOG");
    let dict = DictIndex::build(&chars("HELLO WORLD KHOOR"));
    let cfg = SearchConfig {
        score: ScoreConfig { max_words: 2, min_word_len: 4, policy: AcceptPolicy::AtLeast(1) },
        excerpt_len: 11,
    };
    let keys = combinatorial_keys(1, 1);
    let seq = search(&text, &keys, &dict, &cfg);
    let par = par_search(&text, &keys, &dict, &cfg);
    assert_eq!(seq.len(), par.len());
    assert!(!seq.is_empty());
    for (a, b) in seq.iter().zip(par.iter()) {
        assert_eq!(a.key.shifts, b.key.shifts);
        assert_eq!(a.excerpt, b.excerpt);
        assert_eq!(a.confidence, b.confidence);
    }
}

#[test]
fn dictionary_attack_finds_the_hidden_key() {
    // The key is a dictionary word itself: "D" is not, but "DOG" is.
    let plain = chars("THE QUICK BROWN FOX JUMPS");
    let k = key(&[3, 14, 6]); // D, O, G
    let cipher = encrypt(&plain, &k);
    let dict = DictIndex::build(&chars("THE QUICK BROWN FOX JUMPS DOG CAT"));
    let keys = derive_keys(&dict);
    let cfg = SearchConfig {
        score: ScoreConfig { max_words: 5, min_word_len: 3, policy: AcceptPolicy::AtLeast(3) },
        excerpt_len: 250,
    };
    let found = par_search(&cipher, &keys, &dict, &cfg);
    assert!(found.iter().any(|m| m.key.shifts == vec![3, 14, 6]
        && text_of(&m.excerpt) == "THE QUICK BROWN FOX JUMPS"));
}
