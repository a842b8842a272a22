use classical_crypto::cryptanalysis::index_of_coincidence;
use classical_crypto::vigenere::vigenere_encrypt;
use classical_crypto::vigenere_cracker::{break_vigenere_with_known_key_length, correlation_score,
    english_frequencies, frequency_analysis_top_three, generate_key_combinations,
    ngram_frequency_distribution, number_to_key, shift_ngram, shift_string_by, text_score,
    CrackError, NgramDist};

// A long stretch of plain English for the statistical tests.
const ENGLISH_TEXT: &str = "The quick brown fox jumps over the lazy dog while the \
patient reader follows every turn of this little story. Letter frequencies in \
ordinary English prose are remarkably stable: the letter e appears far more often \
than any other, followed by t, a, o, i and n, and this stability is exactly what \
classical cryptanalysis exploits. When a message is enciphered with a simple \
shift, the whole frequency profile slides along the alphabet without changing its \
shape, so matching the observed profile against the expected one reveals the \
shift almost immediately. Polyalphabetic ciphers resist this attack only until \
the text is split into the streams that share a single key letter, after which \
each stream surrenders to the same old frequency analysis.";

#[test]
fn test_english_text_ioc_in_natural_range() {
    let (num, den) = index_of_coincidence(ENGLISH_TEXT).unwrap();
    let ioc = num as f64 / den as f64;
    assert!(ioc > 0.055 && ioc < 0.085, "ioc was {}", ioc);
}

#[test]
fn test_ngram_distribution_counts_sum_to_window_total() {
    for n in 1..=4usize {
        let dist = match ngram_frequency_distribution(ENGLISH_TEXT, n) {
            Ok(d) => d,
            Err(_) => panic!("distribution failed for n = {}", n),
        };
        let total: u64 = dist.counts.iter().map(|&c| c as u64).sum();
        assert_eq!(total, dist.total as u64);
        // Normalization: the frequencies count/total sum to exactly one.
        assert!(dist.total > 0);
    }
    let d2 = match ngram_frequency_distribution("helloworld", 2) {
        Ok(d) => d,
        Err(_) => panic!("bigram distribution failed"),
    };
    // 10 letters give 9 bigram windows.
    assert_eq!(d2.total, 9);
    let sum: u32 = d2.counts.iter().sum();
    assert_eq!(sum, 9);
    // "ll" has code 11*26+11 and appears once.
    assert_eq!(d2.counts[11 * 26 + 11], 1);
}

#[test]
fn test_ngram_distribution_errors() {
    assert!(matches!(
        ngram_frequency_distribution(ENGLISH_TEXT, 0),
        Err(CrackError::UnsupportedNgramLength)
    ));
    assert!(matches!(
        ngram_frequency_distribution(ENGLISH_TEXT, 5),
        Err(CrackError::UnsupportedNgramLength)
    ));
    assert!(matches!(ngram_frequency_distribution("ab", 3), Err(CrackError::TextTooShort)));
}

#[test]
fn test_english_frequency_tables() {
    let single = english_frequencies(1).unwrap();
    assert_eq!(single.len(), 26);
    // E is the most frequent letter: code 4, 0.12702 scaled by 100000.
    assert!(single.contains(&(4, 12702)));
    let bigrams = english_frequencies(2).unwrap();
    assert_eq!(bigrams.len(), 10);
    // TH: code 19*26+7, 0.0387 scaled by 100000.
    assert!(bigrams.contains(&(19 * 26 + 7, 3870)));
    assert_eq!(english_frequencies(0), Err(CrackError::UnsupportedNgramLength));
    assert_eq!(english_frequencies(9), Err(CrackError::UnsupportedNgramLength));
}

#[test]
fn test_correlation_score_exact_and_self_correlation_bound() {
    // Observed letter counts: two a's and three b's.
    let mut counts = vec![0u32; 26];
    counts[0] = 2;
    counts[1] = 3;
    let dist = NgramDist { n: 1, counts, total: 5 };
    // Against itself (counts as reference weights): 2*2 + 3*3.
    let self_score = correlation_score(&dist, &vec![(0, 2), (1, 3)]);
    assert_eq!(self_score, 13);
    // Against the distribution (1, 4): 2*1 + 3*4 beats the self score, which
    // is why the self-correlation law is stated as an averaged bound.
    let cross_score = correlation_score(&dist, &vec![(0, 1), (1, 4)]);
    assert_eq!(cross_score, 14);
    let other_self = 1 * 1 + 4 * 4;
    assert!(2 * cross_score <= self_score + other_self);
}

#[test]
fn test_text_score_exact_value() {
    // "the": letters t, h, e with single-letter scores 9056, 6094, 12702;
    // the numerator is their sum, over 3 windows.
    let (num, windows) = text_score("the", 1).unwrap();
    assert_eq!(windows, 3);
    assert_eq!(num, 9056 + 6094 + 12702);
    // The bigram "th" scores 3870 and "he" scores 3670.
    let (num2, windows2) = text_score("the", 2).unwrap();
    assert_eq!(windows2, 2);
    assert_eq!(num2, 3870 + 3670);
    assert_eq!(text_score("the", 0), Err(CrackError::UnsupportedNgramLength));
    assert_eq!(text_score("th", 3), Err(CrackError::TextTooShort));
}

#[test]
fn test_shift_helpers() {
    assert_eq!(shift_string_by("ABC", "B"), "BCD");
    assert_eq!(shift_string_by("AZ", "BA"), "BZ");
    assert_eq!(shift_string_by("ABC", ""), "");
    assert_eq!(shift_ngram("AZ", 2, 1), "BA");
    assert_eq!(shift_ngram("TH", 2, 26), "TH");
    assert_eq!(number_to_key(3, 0), "AAA");
    assert_eq!(number_to_key(2, 27), "BB");
    assert_eq!(number_to_key(1, 25), "Z");
}

#[test]
fn test_generate_key_combinations_order_and_count() {
    let keys = vec![
        vec!["a".to_string(), "b".to_string()],
        vec!["c".to_string(), "d".to_string()],
    ];
    let combos = generate_key_combinations(&keys);
    assert_eq!(combos, vec!["ac", "ad", "bc", "bd"]);
    let empty: Vec<Vec<String>> = vec![];
    assert_eq!(generate_key_combinations(&empty), vec![String::new()]);
}

#[test]
fn test_top_three_recovers_caesar_shift() {
    // A Caesar-shifted stretch of English: the true shift must rank first.
    let cipher = vigenere_encrypt(ENGLISH_TEXT, "d"); // shift 3
    let table = english_frequencies(1).unwrap();
    let top = frequency_analysis_top_three(&cipher, 1, &table).unwrap();
    assert_eq!(top.len(), 3);
    assert_eq!(top[0].1, 3);
    assert!(top[0].0 >= top[1].0 && top[1].0 >= top[2].0);
}

#[test]
fn test_break_vigenere_error_variants() {
    assert_eq!(
        break_vigenere_with_known_key_length(ENGLISH_TEXT, 3, 9, 5),
        Err(CrackError::UnsupportedNgramLength)
    );
    assert_eq!(
        break_vigenere_with_known_key_length(ENGLISH_TEXT, 0, 1, 5),
        Err(CrackError::InvalidKeyLength)
    );
    assert_eq!(
        break_vigenere_with_known_key_length(ENGLISH_TEXT, 13, 1, 5),
        Err(CrackError::KeySpaceTooLarge)
    );
    assert_eq!(
        break_vigenere_with_known_key_length("ab", 2, 2, 5),
        Err(CrackError::TextTooShort)
    );
}

#[test]
fn test_break_vigenere_recovers_key() {
    let cipher = vigenere_encrypt(ENGLISH_TEXT, "key");
    let results = break_vigenere_with_known_key_length(&cipher, 3, 1, 27).unwrap();
    assert_eq!(results.len(), 27);
    // The correct key appears among the returned candidates, and its
    // decryption is the normalized plaintext.
    let plain = vigenere_encrypt(ENGLISH_TEXT, "a"); // identity: strips to letters
    let hit = results.iter().find(|(k, _, _)| k == "key");
    assert!(hit.is_some(), "correct key missing from candidates");
    assert_eq!(hit.unwrap().1, plain);
    // Scores come back highest first, and the true plaintext ranks first.
    for w in results.windows(2) {
        assert!(w[0].2 >= w[1].2);
    }
    assert_eq!(results[0].0, "key");
}

#[test]
fn test_break_vigenere_top_n_truncation() {
    let cipher = vigenere_encrypt(ENGLISH_TEXT, "key");
    let results = break_vigenere_with_known_key_length(&cipher, 3, 1, 4).unwrap();
    assert_eq!(results.len(), 4);
}
