use vstd::prelude::*;

verus! {

/// Errors reported by the mask compiler, the generators and the entropy estimator.
#[derive(Debug, Clone, Copy, PartialEq, Eq, Structural)]
pub enum CrackenError {
    /// The mask does not follow the mask grammar.
    InvalidMask,
    /// The charset generator's check of the largest custom charset index: the mask names the
    /// custom charset of zero-based `index`, but only `provided` were given.
    CustomCharsetCount { index: usize, provided: usize },
    /// The mask check of `validate_charsets` and of the mixed generator: the mask names the
    /// custom charset of zero-based `index`, but only `provided` were given.
    UnspecifiedCustomCharset { index: usize, provided: usize },
    /// The mask names the wordlist of zero-based `index`, but only `provided` were given.
    UnspecifiedWordlist { index: usize, provided: usize },
    /// The custom charset of zero-based `index` holds no bytes.
    EmptyCustomCharset { index: usize },
    /// The wordlist of zero-based `index` holds no words.
    EmptyWordlist { index: usize },
    /// The minimal length is zero, above the maximal length or above the mask length.
    InvalidMinLen,
    /// The maximal length is above the mask length.
    InvalidMaxLen,
    /// Length bounds were given together with wordlists.
    LengthWithWordlists,
    /// The longest word that the mask can give does not fit in `MAX_WORD_SIZE` bytes.
    WordTooLong,
    /// The command line does not follow the command grammar.
    InvalidArguments,
    /// The command reads or writes files, which only the application front end does.
    NeedsFiles,
    /// Writing the output failed.
    OutputFailed,
    /// A password holds a byte that no vocabulary set covers.
    BadPasswordChars,
}

/// Decimal digits of `n`, most significant first.
pub open spec fn decimal(n: nat) -> Seq<char>
    decreases n,
{
    if n < 10 {
        seq![digit_char(n)]
    } else {
        decimal(n / 10).push(digit_char(n % 10))
    }
}

pub open spec fn digit_char(d: nat) -> char {
    if d == 0 { '0' } else if d == 1 { '1' } else if d == 2 { '2' } else if d == 3 { '3' }
    else if d == 4 { '4' } else if d == 5 { '5' } else if d == 6 { '6' } else if d == 7 { '7' }
    else if d == 8 { '8' } else { '9' }
}

/// The text of one decimal digit.
fn digit_text(d: u128) -> (r: &'static str)
    requires
        d < 10,
    ensures
        r@ == seq![digit_char(d as nat)],
{
    if d == 0 {
        proof {
            reveal_strlit("0");
        }
        "0"
    } else if d == 1 {
        proof {
            reveal_strlit("1");
        }
        "1"
    } else if d == 2 {
        proof {
            reveal_strlit("2");
        }
        "2"
    } else if d == 3 {
        proof {
            reveal_strlit("3");
        }
        "3"
    } else if d == 4 {
        proof {
            reveal_strlit("4");
        }
        "4"
    } else if d == 5 {
        proof {
            reveal_strlit("5");
        }
        "5"
    } else if d == 6 {
        proof {
            reveal_strlit("6");
        }
        "6"
    } else if d == 7 {
        proof {
            reveal_strlit("7");
        }
        "7"
    } else if d == 8 {
        proof {
            reveal_strlit("8");
        }
        "8"
    } else {
        proof {
            reveal_strlit("9");
        }
        "9"
    }
}

/// The decimal digits of `n`.
pub(crate) fn decimal_text(n: u128) -> (r: String)
    ensures
        r@ == decimal(n as nat),
    decreases n,
{
    if n < 10 {
        String::from_str(digit_text(n))
    } else {
        let mut s = decimal_text(n / 10);
        s.append(digit_text(n % 10));
        assert(s@ == decimal((n / 10) as nat).push(digit_char((n % 10) as nat)));
        s
    }
}

impl CrackenError {
    /// Human readable text of the error.
    pub fn to_string(&self) -> (r: String)
        ensures
            r@ == self.message(),
    {
        match *self {
            CrackenError::InvalidMask => String::from_str("Invalid mask"),
            CrackenError::CustomCharsetCount { index, provided } => {
                let mut s = String::from_str("mask contains ?");
                s.append(decimal_text(index as u128 + 1).as_str());
                s.append(" charset but only ");
                s.append(decimal_text(provided as u128).as_str());
                s.append(" custom charsets defined");
                s
            },
            CrackenError::UnspecifiedCustomCharset { index, provided } => {
                let mut s = String::from_str("mask contains unspecified custom charset: ?");
                s.append(decimal_text(index as u128 + 1).as_str());
                s.append(" but only ");
                s.append(decimal_text(provided as u128).as_str());
                s.append(" custom charsets defined - please add use -c \"<chars>\"");
                s
            },
            CrackenError::UnspecifiedWordlist { index, provided } => {
                let mut s = String::from_str("mask contains unspecified wordlist: ?w");
                s.append(decimal_text(index as u128 + 1).as_str());
                s.append(" but only ");
                s.append(decimal_text(provided as u128).as_str());
                s.append(" wordlists defined - please add -w <wordlist_file>");
                s
            },
            CrackenError::EmptyCustomCharset { index } => {
                let mut s = String::from_str("custom charset ?");
                s.append(decimal_text(index as u128 + 1).as_str());
                s.append(" is empty");
                s
            },
            CrackenError::EmptyWordlist { index } => {
                let mut s = String::from_str("wordlist ?w");
                s.append(decimal_text(index as u128 + 1).as_str());
                s.append(" is empty");
                s
            },
            CrackenError::InvalidMinLen => String::from_str("minlen is invalid"),
            CrackenError::InvalidMaxLen => String::from_str("maxlen is invalid"),
            CrackenError::LengthWithWordlists => String::from_str("cannot set minlen or maxlen with wordlists"),
            CrackenError::WordTooLong => String::from_str("mask words are too long"),
            CrackenError::InvalidArguments => String::from_str("invalid arguments"),
            CrackenError::NeedsFiles => String::from_str("this command needs file access"),
            CrackenError::OutputFailed => String::from_str("error occurred writing to out"),
            CrackenError::BadPasswordChars => String::from_str("bad characters in password"),
        }
    }

    /// The text that `to_string` returns.
    pub open spec fn message(&self) -> Seq<char> {
        match *self {
            CrackenError::InvalidMask => "Invalid mask"@,
            CrackenError::CustomCharsetCount { index, provided } =>
                "mask contains ?"@ + decimal(index as nat + 1) + " charset but only "@
                    + decimal(provided as nat) + " custom charsets defined"@,
            CrackenError::UnspecifiedCustomCharset { index, provided } =>
                "mask contains unspecified custom charset: ?"@ + decimal(index as nat + 1) + " but only "@
                    + decimal(provided as nat) + " custom charsets defined - please add use -c \"<chars>\""@,
            CrackenError::UnspecifiedWordlist { index, provided } =>
                "mask contains unspecified wordlist: ?w"@ + decimal(index as nat + 1) + " but only "@
                    + decimal(provided as nat) + " wordlists defined - please add -w <wordlist_file>"@,
            CrackenError::EmptyCustomCharset { index } =>
                "custom charset ?"@ + decimal(index as nat + 1) + " is empty"@,
            CrackenError::EmptyWordlist { index } =>
                "wordlist ?w"@ + decimal(index as nat + 1) + " is empty"@,
            CrackenError::InvalidMinLen => "minlen is invalid"@,
            CrackenError::InvalidMaxLen => "maxlen is invalid"@,
            CrackenError::LengthWithWordlists => "cannot set minlen or maxlen with wordlists"@,
            CrackenError::WordTooLong => "mask words are too long"@,
            CrackenError::InvalidArguments => "invalid arguments"@,
            CrackenError::NeedsFiles => "this command needs file access"@,
            CrackenError::OutputFailed => "error occurred writing to out"@,
            CrackenError::BadPasswordChars => "bad characters in password"@,
        }
    }
}

} // verus!
