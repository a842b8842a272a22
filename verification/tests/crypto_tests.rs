use classical_crypto::cryptanalysis::{brute_force_caesar, caesar_decrypt, frequency_analysis,
    index_of_coincidence};
use classical_crypto::mult_table::{find_multiplicative_inverses, multiplication_table_mod_n};
use classical_crypto::vigenere::{letter_to_number, number_to_letter, numbers_to_string,
    string_to_numbers, vigenere_decrypt, vigenere_encrypt};
use classical_crypto::gcd;

#[test]
fn test_caesar_cipher() {
    let encrypted = vigenere_encrypt("Hello, World!", "d");
    assert_eq!(encrypted, "khoorzruog");

    let decrypted = caesar_decrypt("khoorzruog", 3);
    assert_eq!(decrypted, "helloworld");
}

#[test]
fn test_vigenere_cipher() {
    let encrypted = vigenere_encrypt("Hello, World!", "crypto");
    assert_eq!(encrypted, "jvjahkqijs");

    let decrypted = vigenere_decrypt("jvjahkqijs", "crypto");
    assert_eq!(decrypted, "helloworld");
}

#[test]
fn test_multiplication_table_mod_n() {
    let rows = multiplication_table_mod_n(5);
    let expected: Vec<Vec<u32>> = vec![
        vec![1, 2, 3, 4, 0],
        vec![2, 4, 1, 3, 0],
        vec![3, 1, 4, 2, 0],
        vec![4, 3, 2, 1, 0],
        vec![0, 0, 0, 0, 0],
    ];
    assert_eq!(rows, expected);

    let inverses = find_multiplicative_inverses(5);
    assert_eq!(inverses, vec![(1, 1), (2, 3), (3, 2), (4, 4)]);
    assert_eq!(inverses.len(), 4);
}

#[test]
fn test_gcd() {
    assert_eq!(gcd(12, 18), 6);
    assert_eq!(gcd(17, 5), 1);
    assert_eq!(gcd(0, 9), 9);
    assert_eq!(gcd(9, 0), 9);
}

#[test]
fn test_codec_round_trip_all_letters() {
    for n in 0u8..26 {
        let letter = number_to_letter(n).unwrap();
        assert_eq!(letter_to_number(letter), Some(n));
    }
    for c in ('a'..='z').chain('A'..='Z') {
        let n = letter_to_number(c).unwrap();
        assert_eq!(number_to_letter(n), Some(c.to_ascii_lowercase()));
    }
    for c in ['0', ' ', '!', ',', '@', '[', '`', '{'] {
        assert_eq!(letter_to_number(c), None);
    }
    assert_eq!(number_to_letter(26), None);
}

#[test]
fn test_string_codec() {
    assert_eq!(string_to_numbers("abz"), vec![0, 1, 25]);
    assert_eq!(string_to_numbers("Hello, World!"), vec![7, 4, 11, 11, 14, 22, 14, 17, 11, 3]);
    assert_eq!(numbers_to_string(&[7, 4, 11, 11, 14]), "hello");
    assert_eq!(numbers_to_string(&[]), "");
}

#[test]
fn test_vigenere_round_trip_strips_case_and_punctuation() {
    let plain = "Attack at Dawn!";
    let key = "LEMON";
    let cipher = vigenere_encrypt(plain, key);
    let recovered = vigenere_decrypt(&cipher, key);
    assert_eq!(recovered, "attackatdawn");

    let cipher2 = vigenere_encrypt("helloworld", "k");
    let recovered2 = vigenere_decrypt(&cipher2, "K");
    assert_eq!(recovered2, "helloworld");
}

#[test]
fn test_brute_force_caesar_finds_plaintext() {
    let cipher = vigenere_encrypt("HELLOWORLD", "d"); // Caesar shift 3
    let candidates = brute_force_caesar(&cipher);
    assert_eq!(candidates.len(), 26);
    // The scan labels entries by shift 1..=26: the shift-3 entry restores it.
    assert_eq!(candidates[2], "helloworld");
    assert_eq!(candidates.iter().filter(|c| c.as_str() == "helloworld").count(), 1);
}

#[test]
fn test_index_of_coincidence_exact() {
    // "aab": letter a twice, b once: numerator 2*1, denominator 3*2.
    assert_eq!(index_of_coincidence("aab"), Some((2, 6)));
    assert_eq!(index_of_coincidence("a"), None);
    assert_eq!(index_of_coincidence(""), None);
    assert_eq!(index_of_coincidence("?!"), None);
}

#[test]
fn test_index_of_coincidence_uniform_text_near_one_over_26() {
    let uniform = "abcdefghijklmnopqrstuvwxyz".repeat(200);
    let (num, den) = index_of_coincidence(&uniform).unwrap();
    let ioc = num as f64 / den as f64;
    assert!((ioc - 1.0 / 26.0).abs() < 0.001, "ioc was {}", ioc);
}

#[test]
fn test_frequency_analysis_report() {
    let report = frequency_analysis("aaabbc").unwrap();
    assert_eq!(report.total, 6);
    assert_eq!(report.counts[0], 3);
    assert_eq!(report.counts[1], 2);
    assert_eq!(report.counts[2], 1);
    assert_eq!(report.most_common, 0);
    assert_eq!(report.least_common1, 2);
    assert_eq!(report.least_common2, 1);
    assert!(frequency_analysis("aaaa").is_none());
    assert!(frequency_analysis("").is_none());
}
