use cracken::charsets::{builtin_chars, builtin_symbols, Charset, CharsetSymbol};

#[test]
fn builtin_charset_sizes() {
    assert_eq!(Charset::from_symbol('l').len(), 26);
    assert_eq!(Charset::from_symbol('u').len(), 26);
    assert_eq!(Charset::from_symbol('d').len(), 10);
    assert_eq!(Charset::from_symbol('s').len(), 33);
    assert_eq!(Charset::from_symbol('a').len(), 94);
    assert_eq!(Charset::from_symbol('b').len(), 256);
    let syms: Vec<char> = builtin_symbols().iter().map(|c| c.symbol).collect();
    assert_eq!(syms, vec!['l', 'u', 'd', 's', 'a', 'b']);
}

#[test]
fn builtin_symbol_bytes() {
    let s = builtin_chars('s');
    assert_eq!(s, b" !\"#$%&'()*+,-./:;<=>?@[\\]^_`{|}~".to_vec());
    let a = builtin_chars('a');
    assert!(!a.contains(&b' '));
    assert!(a.contains(&b'~') && a.contains(&b'0') && a.contains(&b'Z') && a.contains(&b'z'));
}

#[test]
fn charset_from_chars_dedups_and_cycles() {
    let c = Charset::from_chars(b"cabca");
    assert_eq!(c.len(), 3);
    assert_eq!(c.min_char(), b'a');
    assert_eq!(c.next(b'a'), b'b');
    assert_eq!(c.next(b'b'), b'c');
    assert_eq!(c.next(b'c'), b'a');
    let single = Charset::from_chars(b"x");
    assert_eq!(single.next(b'x'), b'x');
}

#[test]
fn charset_symbol_new() {
    let s = CharsetSymbol::new('q', b"xyz");
    assert_eq!(s.symbol, 'q');
    assert_eq!(s.chars, b"xyz".to_vec());
}
