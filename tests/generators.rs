use cracken::error::CrackenError;
use cracken::generators::{get_word_generator, CharsetGenerator, WordGenerator};
use cracken::stackbuf::StackBuf;
use cracken::wordlist_gen::WordlistGenerator;
use cracken::wordlists::Wordlist;
use num_bigint::{BigUint, ToBigUint};

const WORDLIST1: &[u8] =
    b"12345\n123456\nqwerty\n123123\n111111\nabc123\n1234567\npassword\n12345678\n123456789\n";
const WORDLIST2: &[u8] = b"a\nbb\nc\ndd\neee\nf\ngg\nhhh\ni\njj\nkkkk\nl\n";

fn wordlist1() -> Wordlist {
    Wordlist::from_bytes(WORDLIST1)
}

/// Odometer order over the given byte sets, for each length from `minlen` to `maxlen`.
fn expected_charset_output(sets: &[Vec<u8>], minlen: usize, maxlen: usize) -> Vec<u8> {
    let mut out = vec![];
    for len in minlen..=maxlen {
        let total: usize = sets[..len].iter().map(|s| s.len()).product();
        for n in 0..total {
            let mut word = vec![0u8; len];
            let mut rest = n;
            for p in (0..len).rev() {
                word[p] = sets[p][rest % sets[p].len()];
                rest /= sets[p].len();
            }
            out.extend_from_slice(&word);
            out.push(b'\n');
        }
    }
    out
}

fn range(a: u8, b: u8) -> Vec<u8> {
    (a..=b).collect()
}

#[test]
fn test_gen_words_single_digit() {
    let mask = "?d";
    let word_gen = CharsetGenerator::new(mask, None, None, &vec![]).unwrap();

    assert_eq!(word_gen.mask, mask);
    assert_eq!(word_gen.minlen, 1);
    assert_eq!(word_gen.maxlen, 1);
    assert_eq!(word_gen.charsets.len(), 1);
    assert_eq!(word_gen.min_word, "0".as_bytes());

    let res = String::from_utf8(word_gen.gen_to_vec()).unwrap();
    assert_eq!(res, "0\n1\n2\n3\n4\n5\n6\n7\n8\n9\n");
    assert_eq!(word_gen.combinations(), 10u32.to_biguint().unwrap());
}

#[test]
fn test_gen_upper_lower_1_4() {
    let mask = "?u?l?u?l";
    let word_gen = CharsetGenerator::new(mask, Some(1), None, &vec![]).unwrap();

    assert_eq!(word_gen.mask, mask);
    assert_eq!(word_gen.minlen, 1);
    assert_eq!(word_gen.maxlen, 4);
    assert_eq!(word_gen.charsets.len(), 4);
    assert_eq!(word_gen.min_word, "AaAa".as_bytes());

    let sets = vec![range(b'A', b'Z'), range(b'a', b'z'), range(b'A', b'Z'), range(b'a', b'z')];
    assert_eq!(word_gen.gen_to_vec(), expected_charset_output(&sets, 1, 4));
}

#[test]
fn test_gen_pwd_upper_lower_year_1_4() {
    let mask = "pwd?u?l201?1";
    let word_gen = CharsetGenerator::new(mask, Some(1), None, &vec!["56789"]).unwrap();

    assert_eq!(word_gen.mask, mask);
    assert_eq!(word_gen.minlen, 1);
    assert_eq!(word_gen.maxlen, 9);
    assert_eq!(word_gen.charsets.len(), 9);
    assert_eq!(word_gen.min_word, "pwdAa2015".as_bytes());

    let sets = vec![
        b"p".to_vec(),
        b"w".to_vec(),
        b"d".to_vec(),
        range(b'A', b'Z'),
        range(b'a', b'z'),
        b"2".to_vec(),
        b"0".to_vec(),
        b"1".to_vec(),
        b"56789".to_vec(),
    ];
    let out = word_gen.gen_to_vec();
    assert_eq!(out, expected_charset_output(&sets, 1, 9));
    let records = out.iter().filter(|b| **b == b'\n').count();
    assert_eq!(word_gen.combinations(), records.to_biguint().unwrap());
}

#[test]
fn test_invalid_custom_charset() {
    let result = CharsetGenerator::new("?1", None, None, &vec![]);

    assert_eq!(
        result.err().unwrap().to_string(),
        "mask contains ?1 charset but only 0 custom charsets defined",
    );
}

#[test]
fn test_get_word_generator_charset() {
    let mask = "?d?d?d?d";
    let word_gen = get_word_generator(mask, Some(4), None, &[], vec![]).unwrap();
    assert_eq!(word_gen.combinations(), 10000u32.to_biguint().unwrap());
}

#[test]
fn test_get_word_generator_wordlist() {
    let mask = "?d?d?d?d?w1";
    let word_gen = get_word_generator(mask, None, None, &[], vec![wordlist1()]).unwrap();
    assert_eq!(word_gen.combinations(), 100000u32.to_biguint().unwrap());
}

#[test]
fn test_word_generator_wordlist_simple() {
    let mask = "?w1";
    let word_gen = get_word_generator(mask, None, None, &[], vec![wordlist1()]).unwrap();

    assert_eq!(word_gen.combinations(), 10u32.to_biguint().unwrap());
    let res = String::from_utf8(word_gen.gen_to_vec()).unwrap();
    assert_eq!(
        res,
        "12345\n123456\nqwerty\n123123\n111111\nabc123\n1234567\npassword\n12345678\n123456789\n"
    );
}

#[test]
fn test_word_generator_wordlist_and_custom_charset() {
    let mask = "?w1?d?w2?l?w1?1";
    let charsets = vec!["!@#"];
    let wordlists = vec![wordlist1(), Wordlist::from_bytes(WORDLIST2)];
    let word_gen = get_word_generator(mask, None, None, &charsets, wordlists).unwrap();

    assert_eq!(
        word_gen.combinations(),
        (10 * 10 * 12 * 26 * 10 * 3).to_biguint().unwrap()
    );
    let out = word_gen.gen_to_vec();
    let records: Vec<&[u8]> = out.split(|b| *b == b'\n').filter(|r| !r.is_empty()).collect();
    assert_eq!(records.len(), 936_000);
    assert_eq!(records[0], b"123450aa12345!");
    assert_eq!(records[1], b"123450aa12345#");
    assert_eq!(records[2], b"123450aa12345@");
    assert_eq!(records[3], b"123450aa123456!");
    assert_eq!(records[records.len() - 1], b"1234567899kkkkz123456789@");
}

#[test]
fn test_gen_stats() {
    let custom_charsets = vec!["abcd", "01"];
    let combinations = vec![
        ("?d?s?u?l?a?b", "5368197120", None, None),
        ("?d?d?d?d?d?d?d?d", "111111110", Some(1), Some(8)),
        ("?d?d?d?d?d?d?d?d", "10000", Some(4), Some(4)),
        ("?d?d?d?d?d?d?d?d", "100000000", None, Some(8)),
        ("?1?2", "8", None, None),
        ("?1?2abc", "8", None, None),
        ("?d?1?2", "80", None, None),
        ("?d?s?u?l?a?b?1?2", "42945576960", None, None),
        ("?d?1?2?d", "930", Some(1), None),
        (
            "?b?b?b?b?b?b?b?b?b?b",
            "1208925819614629174706176",
            None,
            None,
        ),
    ];

    for (mask, result, minlen, maxlen) in combinations {
        let word_gen = CharsetGenerator::new(mask, minlen, maxlen, &custom_charsets).unwrap();
        assert_eq!(
            word_gen.combinations(),
            BigUint::parse_bytes(result.as_bytes(), 10).unwrap()
        );
    }
}

#[test]
fn charset_generator_length_errors() {
    assert_eq!(
        CharsetGenerator::new("?d", Some(2), None, &[]).err().unwrap(),
        CrackenError::InvalidMinLen
    );
    assert_eq!(
        CharsetGenerator::new("?d", Some(0), None, &[]).err().unwrap(),
        CrackenError::InvalidMinLen
    );
    assert_eq!(
        CharsetGenerator::new("?d?d", Some(2), Some(1), &[]).err().unwrap(),
        CrackenError::InvalidMinLen
    );
    let err = CharsetGenerator::new("?d", None, Some(5), &[]).err().unwrap();
    assert_eq!(err, CrackenError::InvalidMaxLen);
    assert_eq!(err.to_string(), "maxlen is invalid");
    assert_eq!(
        CharsetGenerator::new("?x", None, None, &[]).err().unwrap(),
        CrackenError::InvalidMask
    );
}

#[test]
fn charset_generator_operation_errors() {
    let err = CharsetGenerator::new("?d?1", None, None, &[""]).err().unwrap();
    assert_eq!(err, CrackenError::EmptyCustomCharset { index: 0 });
    assert_eq!(err.to_string(), "custom charset ?1 is empty");
    let err = CharsetGenerator::new("?w1", None, None, &[]).err().unwrap();
    assert_eq!(err, CrackenError::UnspecifiedWordlist { index: 0, provided: 0 });
    let err = CharsetGenerator::new("?3", None, None, &["a"]).err().unwrap();
    assert_eq!(err, CrackenError::CustomCharsetCount { index: 2, provided: 1 });
}

#[test]
fn word_generator_selection_errors() {
    let err = get_word_generator("?w1", Some(1), None, &[], vec![wordlist1()]).err().unwrap();
    assert_eq!(err, CrackenError::LengthWithWordlists);
    assert_eq!(err.to_string(), "cannot set minlen or maxlen with wordlists");
    let err = get_word_generator("?w2", None, None, &[], vec![wordlist1()]).err().unwrap();
    assert_eq!(err, CrackenError::UnspecifiedWordlist { index: 1, provided: 1 });
    let err = get_word_generator("?w1?2", None, None, &["a"], vec![wordlist1()]).err().unwrap();
    assert_eq!(err, CrackenError::UnspecifiedCustomCharset { index: 1, provided: 1 });
    let empty = Wordlist::from_bytes(b"\n\n");
    let err = get_word_generator("?d?w1", None, None, &[], vec![empty]).err().unwrap();
    assert_eq!(err, CrackenError::EmptyWordlist { index: 0 });
    assert_eq!(err.to_string(), "wordlist ?w1 is empty");
    let long = Wordlist::from_bytes(&[b'x'; 300]);
    let err = get_word_generator("?w1?w1", None, None, &[], vec![long]).err().unwrap();
    assert_eq!(err, CrackenError::WordTooLong);
    let g = get_word_generator("?d?d?d?d", Some(4), None, &[], vec![]).unwrap();
    assert_eq!(g.combinations(), 10000u32.to_biguint().unwrap());
    match get_word_generator("?d", None, None, &[], vec![]).unwrap() {
        WordGenerator::Charset(_) => {}
        WordGenerator::Wordlist(_) => panic!("charset masks take the charset generator"),
    }
}

#[test]
fn count_agreement_on_lengths() {
    let g = CharsetGenerator::new("?d?d?d?d?d?d?d", Some(1), Some(6), &[]).unwrap();
    let out = g.gen_to_vec();
    let records = out.iter().filter(|b| **b == b'\n').count();
    assert_eq!(records, 1_111_110);
    assert_eq!(g.combinations(), records.to_biguint().unwrap());
    let g = CharsetGenerator::new("?d?d?d?d?d?d?d?d", Some(1), Some(8), &[]).unwrap();
    assert_eq!(g.combinations(), 111_111_110u32.to_biguint().unwrap());
}

#[test]
fn binary_mask_count() {
    let g = CharsetGenerator::new("?b?b?b?b?b?b?b?b?b?b", None, None, &[]).unwrap();
    let expected = BigUint::parse_bytes(b"1208925819614629174706176", 10).unwrap();
    assert_eq!(g.combinations(), expected);
    assert_eq!(expected, 256u32.to_biguint().unwrap().pow(10));
}

#[test]
fn pwd_year_mask_first_record_and_count() {
    let g = CharsetGenerator::new("pwd?u?l201?1", Some(1), None, &["56789"]).unwrap();
    let out = g.gen_to_vec();
    assert!(out.starts_with(b"p\npw\npwd\npwdA\n"));
    let nine: Vec<&[u8]> = out.split(|b| *b == b'\n').filter(|r| r.len() == 9).collect();
    assert_eq!(nine[0], b"pwdAa2015");
    // 1 + 1 + 1 + 26 + 676 * (1 + 1 + 1 + 1 + 5)
    assert_eq!(g.combinations(), 6113u32.to_biguint().unwrap());
}

#[test]
fn ordering_rightmost_fastest() {
    let g = CharsetGenerator::new("?1?2", None, None, &["ab", "xyz"]).unwrap();
    assert_eq!(g.gen_to_vec(), b"ax\nay\naz\nbx\nby\nbz\n".to_vec());
}

#[test]
fn batches_concatenate_to_whole_output() {
    let g = CharsetGenerator::new("?l?l?d", Some(1), None, &[]).unwrap();
    let mut st = g.start();
    let mut buf = StackBuf::new();
    let mut out = vec![];
    while !st.is_done() {
        g.gen_batch(&mut st, &mut buf);
        out.extend_from_slice(buf.getdata());
        buf.clear();
    }
    assert_eq!(out, g.gen_to_vec());

    let w = WordlistGenerator::new("?w1?d", vec![wordlist1()], &[]).unwrap();
    let mut st = w.start();
    let mut out = vec![];
    while !st.is_done() {
        w.gen_batch(&mut st, &mut buf);
        out.extend_from_slice(buf.getdata());
        buf.clear();
    }
    assert_eq!(out, w.gen_to_vec());
    assert_eq!(out.iter().filter(|b| **b == b'\n').count(), 100);
}

#[test]
fn wordlist_splice_shrinks_and_grows() {
    let short_long = Wordlist::from_bytes(b"a\nbbb\n");
    let w = WordlistGenerator::new("?w1?w1x", vec![short_long], &[]).unwrap();
    assert_eq!(
        String::from_utf8(w.gen_to_vec()).unwrap(),
        "aax\nabbbx\nbbbax\nbbbbbbx\n"
    );
}
