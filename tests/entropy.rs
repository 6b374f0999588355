use cracken::error::CrackenError;
use cracken::password_entropy::{password_mask, split_pieces, EntropyEstimator};

fn estimator() -> EntropyEstimator {
    EntropyEstimator::from_vocab_bytes(&[b"helloworld\nhello\nworld\nhello\n".to_vec()])
}

fn pieces(est: &EntropyEstimator, pwd: &[u8]) -> (Vec<String>, String, f64) {
    let split = est.min_subword_split(pwd).unwrap();
    let words = split_pieces(pwd, &split.cuts)
        .into_iter()
        .map(|p| String::from_utf8(p).unwrap())
        .collect();
    let mask = est.subword_mask(&split.labels);
    let entropy = split.sizes.iter().map(|s| (*s as f64).log2()).sum();
    (words, mask, entropy)
}

#[test]
fn subword_split_helloworld() {
    let est = estimator();
    let (words, mask, entropy) = pieces(&est, b"helloworld123!");
    assert_eq!(words, vec!["helloworld", "1", "2", "3", "!"]);
    assert_eq!(mask, "?w1?d?d?d?s");
    let expected = 3f64.log2() + 3.0 * 10f64.log2() + 33f64.log2();
    assert!((entropy - expected).abs() < 1e-9);
}

#[test]
fn subword_split_round_trip_and_cost() {
    let est = estimator();
    let pwd = b"helloworld123!helloworld123!helloworld123!";
    let split = est.min_subword_split(pwd).unwrap();
    let joined: Vec<u8> = split_pieces(pwd, &split.cuts).concat();
    assert_eq!(joined, pwd.to_vec());
    let product: u64 = split.sizes.iter().map(|s| *s as u64).product();
    assert_eq!(split.cost, num_bigint::BigUint::from(product));
    assert_eq!(est.subword_mask(&split.labels), "?w1?d?d?d?s?w1?d?d?d?s?w1?d?d?d?s");
}

#[test]
fn subword_split_prefers_smaller_sets() {
    let est = estimator();
    let (words, mask, _) = pieces(&est, b"Ab~\x01");
    assert_eq!(words, vec!["A", "b", "~", "\u{1}"]);
    assert_eq!(mask, "?u?l?s?b");
    // the vocabulary set holds three distinct words, and the sets go by size
    let w1 = est.sets.iter().find(|s| s.symbol == "w1").unwrap();
    assert_eq!(w1.words.len(), 3);
    let symbols: Vec<&str> = est.sets.iter().map(|s| s.symbol.as_str()).collect();
    assert_eq!(symbols, vec!["w1", "d", "l", "u", "s", "a", "b"]);
    let sizes: Vec<usize> = est.sets.iter().map(|s| s.words.len()).collect();
    assert_eq!(sizes, vec![3, 10, 26, 26, 33, 94, 256]);
}

#[test]
fn empty_password_has_no_pieces() {
    let est = estimator();
    let split = est.min_subword_split(b"").unwrap();
    assert_eq!(split.cuts, vec![0]);
    assert!(split.labels.is_empty());
    assert_eq!(CrackenError::BadPasswordChars.to_string(), "bad characters in password");
}

#[test]
fn test_password_mask_cost() {
    let cases: Vec<(&str, (f64, &str))> = vec![
        ("Aa123456!", (2.0 * 26f64.log2() + 6.0 * 10f64.log2() + 33f64.log2(), "?u?l?d?d?d?d?d?d?s")),
        ("0123456789", (33.219280948873624, "?d?d?d?d?d?d?d?d?d?d")),
        ("😃", (32.0, "?b?b?b?b")),
        ("!@#$%^&*()", (10.0 * 33f64.log2(), "?s?s?s?s?s?s?s?s?s?s")),
        (
            "E93gtaaE6yF7xDOWv3ww2QE6qD-Wye4mk8O3Vaerem8",
            (187.25484030613498 - 5.0 + 33f64.log2(), "?u?d?d?l?l?l?l?u?d?l?u?d?l?u?u?u?l?d?l?l?d?u?u?d?l?u?s?u?l?l?d?l?l?d?u?d?u?l?l?l?l?l?d"),
        ),
    ];
    for (pwd, (expected_cost, expected_mask)) in cases {
        let (mask, spaces) = password_mask(pwd.as_bytes());
        let cost: f64 = spaces.iter().map(|s| (*s as f64).log2()).sum();
        assert_eq!(mask, expected_mask);
        assert!((cost - expected_cost).abs() < 1e-9);
    }
}

#[test]
fn mask_entropy_grows_with_each_byte() {
    let mut pwd = b"a".to_vec();
    let mut last = 0.0;
    for b in [b'Z', b'5', b' ', 0xffu8] {
        pwd.push(b);
        let (_, spaces) = password_mask(&pwd);
        let e: f64 = spaces.iter().map(|s| (*s as f64).log2()).sum();
        assert!(e > last);
        last = e;
    }
    let (mask, _) = password_mask(&pwd);
    assert_eq!(mask, "?l?u?d?s?b");
}
