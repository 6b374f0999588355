use cracken::wordlists::Wordlist;

fn words_of(wordlist: &Wordlist) -> Vec<String> {
    let mut it = wordlist.iter();
    let mut words = vec![];
    while let Some(w) = it.next() {
        words.push(String::from_utf8(w.to_vec()).unwrap());
    }
    words
}

#[test]
fn test_wordlist_from_file() {
    let data = b"password\n12345\n123456\n12345678\nqwerty\n123123\n\n111111\nabc123\n1234567\n123456789";
    let wordlist = Wordlist::from_bytes(data);

    let words = words_of(&wordlist);

    let expected: Vec<_> = r#"12345
123456
qwerty
123123
111111
abc123
1234567
password
12345678
123456789"#
        .split("\n")
        .map(|s| s.to_owned())
        .collect();
    assert_eq!(words, expected);
    assert_eq!(wordlist.len(), 10);
    assert!(!wordlist.is_empty());
}

#[test]
fn wordlist_skips_empty_records() {
    let wordlist = Wordlist::from_bytes(b"\n\nab\n\n\nc\n");
    assert_eq!(words_of(&wordlist), vec!["c".to_string(), "ab".to_string()]);
    let empty = Wordlist::from_bytes(b"");
    assert!(empty.is_empty());
    assert!(empty.iter().next().is_none());
}

#[test]
fn wordlist_iterator_current_len() {
    let wordlist = Wordlist::from_bytes(b"abc\nd\nef\n");
    let mut it = wordlist.iter();
    assert_eq!(it.current_len(), 1);
    assert_eq!(it.next().unwrap(), b"d");
    assert_eq!(it.current_len(), 1);
    assert_eq!(it.next().unwrap(), b"ef");
    assert_eq!(it.current_len(), 2);
    assert_eq!(it.next().unwrap(), b"abc");
    assert_eq!(it.current_len(), 3);
    assert!(it.next().is_none());
    // a fresh iterator starts over
    let mut again = wordlist.iter();
    assert_eq!(again.next().unwrap(), b"d");
}

#[test]
fn wordlist_keeps_duplicates_and_order_within_length() {
    let wordlist = Wordlist::from_bytes(b"bb\naa\nbb\nc\n");
    assert_eq!(
        words_of(&wordlist),
        vec!["c".to_string(), "bb".to_string(), "aa".to_string(), "bb".to_string()]
    );
}
