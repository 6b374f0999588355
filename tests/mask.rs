use cracken::error::CrackenError;
use cracken::mask::{parse_mask, validate_charsets, validate_wordlists, MaskOp};

#[test]
fn test_parse_mask() {
    let valid_masks = vec![
        (
            "?d?d",
            vec![MaskOp::BuiltinCharset('d'), MaskOp::BuiltinCharset('d')],
        ),
        (
            "?l?u?a?b?s",
            vec![
                MaskOp::BuiltinCharset('l'),
                MaskOp::BuiltinCharset('u'),
                MaskOp::BuiltinCharset('a'),
                MaskOp::BuiltinCharset('b'),
                MaskOp::BuiltinCharset('s'),
            ],
        ),
        (
            "a ?ld?1?2?w2b\\?a?w1",
            vec![
                MaskOp::Char(b'a'),
                MaskOp::Char(b' '),
                MaskOp::BuiltinCharset('l'),
                MaskOp::Char(b'd'),
                MaskOp::CustomCharset(0),
                MaskOp::CustomCharset(1),
                MaskOp::Wordlist(1),
                MaskOp::Char(b'b'),
                MaskOp::Char(b'?'),
                MaskOp::Char(b'a'),
                MaskOp::Wordlist(0),
            ],
        ),
    ];

    for (mask, expected) in valid_masks {
        let mask_ops = parse_mask(mask).unwrap();
        assert_eq!(mask_ops, expected);
    }
}

#[test]
fn test_is_valid_mask() {
    let valid_masks = vec!["?d?d?d?d", "?l?u?a?b?s", "abc?l?u?a?b?sdef?1?2?3", "?a?b\\?"];
    for mask in valid_masks {
        assert!(parse_mask(mask).is_ok());
    }

    let invalid_masks = vec!["", "?", "?x", "??", "?"];
    for mask in invalid_masks {
        assert!(parse_mask(mask).is_err());
    }
}

#[test]
fn invalid_mask_error_and_message() {
    let err = parse_mask("?x").unwrap_err();
    assert_eq!(err, CrackenError::InvalidMask);
    assert_eq!(err.to_string(), "Invalid mask");
    assert_eq!(parse_mask("ab\\").unwrap_err(), CrackenError::InvalidMask);
    assert_eq!(parse_mask("?w").unwrap_err(), CrackenError::InvalidMask);
    assert_eq!(parse_mask("?w0").unwrap_err(), CrackenError::InvalidMask);
}

#[test]
fn mask_token_limit() {
    let longest = "a".repeat(511);
    assert_eq!(parse_mask(&longest).unwrap().len(), 511);
    let too_long = "a".repeat(512);
    assert!(parse_mask(&too_long).is_err());
    // an escaped byte is one token
    let escaped = "\\?".repeat(511);
    assert_eq!(parse_mask(&escaped).unwrap().len(), 511);
}

#[test]
fn mask_literal_bytes_above_ascii() {
    let ops = parse_mask("é?d").unwrap();
    assert_eq!(
        ops,
        vec![MaskOp::Char(0xc3), MaskOp::Char(0xa9), MaskOp::BuiltinCharset('d')]
    );
}

#[test]
fn validate_custom_charsets_and_wordlists() {
    let ops = parse_mask("?1?3?w2").unwrap();
    assert!(validate_charsets(&ops, 3).is_ok());
    let err = validate_charsets(&ops, 2).unwrap_err();
    assert_eq!(err, CrackenError::UnspecifiedCustomCharset { index: 2, provided: 2 });
    assert_eq!(
        err.to_string(),
        "mask contains unspecified custom charset: ?3 but only 2 custom charsets defined - please add use -c \"<chars>\""
    );
    assert!(validate_wordlists(&ops, 2).is_ok());
    let err = validate_wordlists(&ops, 1).unwrap_err();
    assert_eq!(err, CrackenError::UnspecifiedWordlist { index: 1, provided: 1 });
    assert_eq!(
        err.to_string(),
        "mask contains unspecified wordlist: ?w2 but only 1 wordlists defined - please add -w <wordlist_file>"
    );
    assert!(validate_charsets(&parse_mask("?d").unwrap(), 0).is_ok());
}
