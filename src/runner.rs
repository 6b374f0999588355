use vstd::prelude::*;
use vstd::string::StrSliceExecFns;
use vstd::utf8::encode_utf8;

use num_bigint::BigUint;

use crate::bignum::big_value;
use crate::error::{decimal, CrackenError};
use crate::generators::{charset_gen_outcome, custom_bytes, get_word_generator, WordGenerator};
use crate::stackbuf::StackBuf;

verus! {

/// The subcommands of the command line.
#[derive(Debug, Clone, Copy, PartialEq, Eq, Structural)]
pub enum Subcommand {
    Generate,
    Entropy,
    Create,
}

/// An option of a subcommand: its short letter (`' '` for none), its long name, and whether
/// it takes a value.
pub struct OptionSpec {
    pub short: char,
    pub long: &'static str,
    pub takes_value: bool,
}

pub open spec fn option_view(o: OptionSpec) -> (char, Seq<char>, bool) {
    (o.short, o.long@, o.takes_value)
}

/// Options of `generate`, by index.
pub const GEN_MASKS_FILE: usize = 0;
pub const GEN_MINLEN: usize = 1;
pub const GEN_MAXLEN: usize = 2;
pub const GEN_STATS: usize = 3;
pub const GEN_CUSTOM_CHARSET: usize = 4;
pub const GEN_WORDLIST: usize = 5;
pub const GEN_OUTPUT_FILE: usize = 6;

/// Options of `entropy`, by index.
pub const ENT_SMARTLIST: usize = 0;
pub const ENT_PASSWORDS_FILE: usize = 1;
pub const ENT_SUMMARY: usize = 2;
pub const ENT_TYPE: usize = 3;

/// Options of `create`, by index.
pub const CREATE_FILE: usize = 0;
pub const CREATE_SMARTLIST: usize = 1;
pub const CREATE_TOKENIZER: usize = 2;
pub const CREATE_QUIET: usize = 3;
pub const CREATE_VOCAB_MAX_SIZE: usize = 4;
pub const CREATE_MIN_FREQUENCY: usize = 5;
pub const CREATE_NUMBERS_MAX_SIZE: usize = 6;
pub const CREATE_MIN_WORD_LEN: usize = 7;

fn opt(short: char, long: &'static str, takes_value: bool) -> (r: OptionSpec)
    ensures
        r.short == short && r.long == long && r.takes_value == takes_value,
{
    OptionSpec { short, long, takes_value }
}

/// The options of each subcommand.
pub open spec fn table_spec(sub: Subcommand) -> Seq<(char, Seq<char>, bool)> {
    match sub {
        Subcommand::Generate => seq![
            ('i', "masks-file"@, true),
            ('m', "minlen"@, true),
            ('x', "maxlen"@, true),
            ('s', "stats"@, false),
            ('c', "custom-charset"@, true),
            ('w', "wordlist"@, true),
            ('o', "output-file"@, true),
        ],
        Subcommand::Entropy => seq![
            ('f', "smartlist"@, true),
            ('p', "passwords-file"@, true),
            ('s', "summary"@, false),
            ('t', "entropy-type"@, true),
        ],
        Subcommand::Create => seq![
            ('f', "file"@, true),
            ('o', "smartlist"@, true),
            ('t', "tokenizer"@, true),
            ('q', "quiet"@, false),
            ('m', "vocab-max-size"@, true),
            (' ', "min-frequency"@, true),
            (' ', "numbers-max-size"@, true),
            ('l', "min-word-len"@, true),
        ],
    }
}

/// The options that `sub` accepts.
pub fn option_table(sub: Subcommand) -> (r: Vec<OptionSpec>)
    ensures
        table_view(r@) == table_spec(sub),
{
    let mut t: Vec<OptionSpec> = Vec::new();
    match sub {
        Subcommand::Generate => {
            t.push(opt('i', "masks-file", true));
            t.push(opt('m', "minlen", true));
            t.push(opt('x', "maxlen", true));
            t.push(opt('s', "stats", false));
            t.push(opt('c', "custom-charset", true));
            t.push(opt('w', "wordlist", true));
            t.push(opt('o', "output-file", true));
        },
        Subcommand::Entropy => {
            t.push(opt('f', "smartlist", true));
            t.push(opt('p', "passwords-file", true));
            t.push(opt('s', "summary", false));
            t.push(opt('t', "entropy-type", true));
        },
        Subcommand::Create => {
            t.push(opt('f', "file", true));
            t.push(opt('o', "smartlist", true));
            t.push(opt('t', "tokenizer", true));
            t.push(opt('q', "quiet", false));
            t.push(opt('m', "vocab-max-size", true));
            t.push(opt(' ', "min-frequency", true));
            t.push(opt(' ', "numbers-max-size", true));
            t.push(opt('l', "min-word-len", true));
        },
    }
    assert(table_view(t@) =~= table_spec(sub));
    t
}

/// A parsed command line.
pub struct ParsedArgs {
    pub subcommand: Subcommand,
    /// Each option given, by its index in the table, with its value if it takes one.
    pub options: Vec<(usize, Option<String>)>,
    /// The arguments that are not options, in order.
    pub positionals: Vec<String>,
}

/// How one argument reads: a long option `--name[=value]`, a short option `-c[[=]value]`,
/// or a positional argument.
pub enum Token {
    Long(Seq<char>, Option<Seq<char>>),
    Short(char, Option<Seq<char>>),
    Positional(Seq<char>),
}

/// The index of the first `=` of `s` at or after `i`.
pub open spec fn first_eq(s: Seq<char>, i: int) -> Option<int>
    decreases s.len() - i,
{
    if i < 0 || i >= s.len() {
        None
    } else if s[i] == '=' {
        Some(i)
    } else {
        first_eq(s, i + 1)
    }
}

pub open spec fn token_of(a: Seq<char>) -> Token {
    if a.len() >= 2 && a[0] == '-' && a[1] == '-' {
        let body = a.subrange(2, a.len() as int);
        match first_eq(body, 0) {
            Some(i) => Token::Long(body.subrange(0, i), Some(body.subrange(i + 1, body.len() as int))),
            None => Token::Long(body, None),
        }
    } else if a.len() >= 2 && a[0] == '-' {
        let rest = a.subrange(2, a.len() as int);
        if rest.len() == 0 {
            Token::Short(a[1], None)
        } else if rest[0] == '=' {
            Token::Short(a[1], Some(rest.subrange(1, rest.len() as int)))
        } else {
            Token::Short(a[1], Some(rest))
        }
    } else {
        Token::Positional(a)
    }
}

pub open spec fn names(entry: (char, Seq<char>, bool), tok: Token) -> bool {
    match tok {
        Token::Long(name, _) => entry.1 == name,
        Token::Short(c, _) => c != ' ' && entry.0 == c,
        Token::Positional(_) => false,
    }
}

/// The index of the first option at or after `k` that `tok` names, if any.
pub open spec fn lookup(table: Seq<(char, Seq<char>, bool)>, tok: Token, k: int) -> Option<int>
    decreases table.len() - k,
{
    if k < 0 || k >= table.len() {
        None
    } else if names(table[k], tok) {
        Some(k)
    } else {
        lookup(table, tok, k + 1)
    }
}

pub open spec fn token_value(tok: Token) -> Option<Seq<char>> {
    match tok {
        Token::Long(_, v) => v,
        Token::Short(_, v) => v,
        Token::Positional(_) => None,
    }
}

/// Parses `args` from index `i`, given the options and positionals read so far.
pub open spec fn parse_from(
    table: Seq<(char, Seq<char>, bool)>,
    args: Seq<Seq<char>>,
    i: int,
    opts: Seq<(usize, Option<Seq<char>>)>,
    pos: Seq<Seq<char>>,
) -> Option<(Seq<(usize, Option<Seq<char>>)>, Seq<Seq<char>>)>
    decreases args.len() - i,
{
    if i < 0 || i >= args.len() {
        Some((opts, pos))
    } else {
        let tok = token_of(args[i]);
        match tok {
            Token::Positional(a) => parse_from(table, args, i + 1, opts, pos.push(a)),
            _ => match lookup(table, tok, 0) {
                None => None,
                Some(k) => if table[k].2 {
                    match token_value(tok) {
                        Some(v) => parse_from(table, args, i + 1, opts.push((k as usize, Some(v))), pos),
                        None => if i + 1 < args.len() {
                            parse_from(table, args, i + 2, opts.push((k as usize, Some(args[i + 1]))), pos)
                        } else {
                            None
                        },
                    }
                } else {
                    match token_value(tok) {
                        Some(_) => None,
                        None => parse_from(table, args, i + 1, opts.push((k as usize, None)), pos),
                    }
                },
            },
        }
    }
}

/// The subcommand that the first argument after the program name selects, and where the
/// options start; `generate` is the default.
pub open spec fn subcommand_of(args: Seq<Seq<char>>) -> Option<(Subcommand, int)> {
    if args.len() < 2 {
        None
    } else if args[1] == "generate"@ {
        Some((Subcommand::Generate, 2))
    } else if args[1] == "entropy"@ {
        Some((Subcommand::Entropy, 2))
    } else if args[1] == "create"@ {
        Some((Subcommand::Create, 2))
    } else if args[1] == "--help"@ {
        None
    } else {
        Some((Subcommand::Generate, 1))
    }
}

pub open spec fn table_view(t: Seq<OptionSpec>) -> Seq<(char, Seq<char>, bool)> {
    t.map_values(|o: OptionSpec| option_view(o))
}

pub open spec fn strs_view(args: Seq<&str>) -> Seq<Seq<char>> {
    args.map_values(|a: &str| a@)
}

pub open spec fn opts_view(opts: Seq<(usize, Option<String>)>) -> Seq<(usize, Option<Seq<char>>)> {
    opts.map_values(|o: (usize, Option<String>)| (o.0, match o.1 { Some(v) => Some(v@), None => None }))
}

pub open spec fn strings_view(v: Seq<String>) -> Seq<Seq<char>> {
    v.map_values(|s: String| s@)
}

fn chars_eq(a: &str, b: &str) -> (r: bool)
    ensures
        r == (a@ == b@),
{
    let n = a.unicode_len();
    if n != b.unicode_len() {
        return false;
    }
    let mut i: usize = 0;
    while i < n
        invariant
            n == a@.len() && n == b@.len(),
            i <= n,
            forall|k: int| 0 <= k < i ==> a@[k] == b@[k],
        decreases n - i,
    {
        if a.get_char(i) != b.get_char(i) {
            return false;
        }
        i = i + 1;
    }
    assert(a@ =~= b@);
    true
}

fn owned(s: &str) -> (r: String)
    ensures
        r@ == s@,
{
    String::from_str(s)
}

/// How argument `a` reads.
fn read_token(a: &str) -> (r: (u8, char, String, Option<String>))
    ensures
        r.0 == 0 ==> token_of(a@) == Token::Long(r.2@, match r.3 { Some(v) => Some(v@), None => None }),
        r.0 == 1 ==> token_of(a@) == Token::Short(r.1, match r.3 { Some(v) => Some(v@), None => None }),
        r.0 == 2 ==> token_of(a@) == Token::Positional(r.2@),
        r.0 <= 2,
{
    let n = a.unicode_len();
    if n >= 2 && a.get_char(0) == '-' && a.get_char(1) == '-' {
        let body = a.substring_char(2, n);
        let m = body.unicode_len();
        assert(body@ == a@.subrange(2, a@.len() as int));
        let mut i: usize = 0;
        while i < m
            invariant
                m == body@.len(),
                i <= m,
                first_eq(body@, 0) == first_eq(body@, i as int),
                body@ == a@.subrange(2, a@.len() as int),
                a@.len() >= 2 && a@[0] == '-' && a@[1] == '-',
            decreases m - i,
        {
            if body.get_char(i) == '=' {
                assert(first_eq(body@, i as int) == Some(i as int));
                let name = owned(body.substring_char(0, i));
                let value = owned(body.substring_char(i + 1, m));
                return (0, ' ', name, Some(value));
            }
            i = i + 1;
        }
        (0, ' ', owned(body), None)
    } else if n >= 2 && a.get_char(0) == '-' {
        let c = a.get_char(1);
        let ghost rest = a@.subrange(2, n as int);
        if n > 2 {
            assert(rest[0] == a@[2]);
            assert(rest.subrange(1, rest.len() as int) == a@.subrange(3, n as int));
        } else {
            assert(rest.len() == 0);
        }
        if n == 2 {
            (1, c, String::new(), None)
        } else if a.get_char(2) == '=' {
            (1, c, String::new(), Some(owned(a.substring_char(3, n))))
        } else {
            (1, c, String::new(), Some(owned(a.substring_char(2, n))))
        }
    } else {
        (2, ' ', owned(a), None)
    }
}

/// The option of `table` that an option token names, if any.
fn find_option(table: &Vec<OptionSpec>, form: u8, c: char, name: &String) -> (r: Option<usize>)
    requires
        form <= 1,
    ensures
        r is Some ==> r->0 < table@.len(),
        ({
            let tok = if form == 0 { Token::Long(name@, None) } else { Token::Short(c, None) };
            match lookup(table_view(table@), tok, 0) {
                None => r is None,
                Some(k) => r == Some(k as usize),
            }
        }),
{
    let ghost tok = if form == 0 { Token::Long(name@, None) } else { Token::Short(c, None) };
    let mut k: usize = 0;
    while k < table.len()
        invariant
            k <= table@.len(),
            form <= 1,
            tok == (if form == 0 { Token::Long(name@, None) } else { Token::Short(c, None) }),
            lookup(table_view(table@), tok, 0) == lookup(table_view(table@), tok, k as int),
        decreases table@.len() - k,
    {
        let e = &table[k];
        let hit = if form == 0 { chars_eq(e.long, name.as_str()) } else { c != ' ' && e.short == c };
        assert(table_view(table@)[k as int] == option_view(table@[k as int]));
        if hit {
            return Some(k);
        }
        k = k + 1;
    }
    None
}

/// The parse of a whole command line: subcommand, options and positionals.
pub open spec fn command_parse(args: Seq<Seq<char>>) -> Option<(Subcommand, Seq<(usize, Option<Seq<char>>)>, Seq<Seq<char>>)> {
    match subcommand_of(args) {
        None => None,
        Some(sc) => match parse_from(table_spec(sc.0), args, sc.1, Seq::empty(), Seq::empty()) {
            None => None,
            Some(parsed) => if parsed.1.len() > 1 { None } else { Some((sc.0, parsed.0, parsed.1)) },
        },
    }
}

/// Parses a command line whose first argument is the program name.
pub fn parse_command_line(args: &Vec<&str>) -> (r: Result<ParsedArgs, CrackenError>)
    ensures
        r is Err <==> command_parse(strs_view(args@)) is None,
        r is Err ==> r->Err_0 == CrackenError::InvalidArguments,
        r is Ok ==> {
            let c = command_parse(strs_view(args@))->0;
            &&& r->Ok_0.subcommand == c.0
            &&& opts_view(r->Ok_0.options@) == c.1
            &&& strings_view(r->Ok_0.positionals@) == c.2
        },
{
    let ghost av = strs_view(args@);
    if args.len() < 2 {
        return Err(CrackenError::InvalidArguments);
    }
    assert(av[1] == args@[1]@);
    let first = args[1];
    let (sub, start): (Subcommand, usize) = if chars_eq(first, "generate") {
        (Subcommand::Generate, 2)
    } else if chars_eq(first, "entropy") {
        (Subcommand::Entropy, 2)
    } else if chars_eq(first, "create") {
        (Subcommand::Create, 2)
    } else if chars_eq(first, "--help") {
        return Err(CrackenError::InvalidArguments);
    } else {
        (Subcommand::Generate, 1)
    };
    let table = option_table(sub);
    let ghost tv = table_spec(sub);
    let mut options: Vec<(usize, Option<String>)> = Vec::new();
    let mut positionals: Vec<String> = Vec::new();
    let mut i: usize = start;
    proof {
        assert(opts_view(options@) =~= Seq::<(usize, Option<Seq<char>>)>::empty());
        assert(strings_view(positionals@) =~= Seq::<Seq<char>>::empty());
    }
    while i < args.len()
        invariant
            av == strs_view(args@),
            subcommand_of(av) == Some((sub, start as int)),
            tv == table_spec(sub),
            table_view(table@) == tv,
            start <= i <= args@.len(),
            parse_from(tv, av, start as int, Seq::empty(), Seq::empty()) == parse_from(tv, av, i as int,
                opts_view(options@), strings_view(positionals@)),
        decreases args@.len() - i,
    {
        let a = args[i];
        assert(av[i as int] == a@);
        let (form, c, name, value) = read_token(a);
        if form == 2 {
            let ghost before = positionals@;
            positionals.push(name);
            proof {
                assert(strings_view(positionals@) == strings_view(before).push(a@));
            }
            i = i + 1;
        } else {
            let ghost tok = token_of(a@);
            let found = find_option(&table, form, c, &name);
            proof {
                let probe = if form == 0 { Token::Long(name@, None) } else { Token::Short(c, None) };
                lemma_lookup_ignores_value(tv, tok, probe, 0);
                lemma_lookup_range(tv, tok, 0);
            }
            let k = match found {
                Some(k) => k,
                None => {
                    return Err(CrackenError::InvalidArguments);
                },
            };
            assert(tv[k as int] == option_view(table@[k as int]));
            assert(lookup(tv, tok, 0) == Some(k as int));
            assert(tok !is Positional);
            let ghost tv_value = token_value(tok);
            assert(tv_value == match value { Some(v) => Some(v@), None => None::<Seq<char>> });
            let ghost before = options@;
            if table[k].takes_value {
                match value {
                    Some(v) => {
                        assert(tv_value == Some(v@));
                        options.push((k, Some(v)));
                        proof {
                            assert(opts_view(options@) == opts_view(before).push((k, Some(token_value(tok)->0))));
                        }
                        i = i + 1;
                    },
                    None => {
                        assert(tv_value is None);
                        if i + 1 >= args.len() {
                            return Err(CrackenError::InvalidArguments);
                        }
                        assert(av[i + 1] == args@[i + 1]@);
                        options.push((k, Some(owned(args[i + 1]))));
                        proof {
                            assert(opts_view(options@) == opts_view(before).push((k, Some(av[i + 1]))));
                        }
                        i = i + 2;
                    },
                }
            } else {
                if value.is_some() {
                    return Err(CrackenError::InvalidArguments);
                }
                options.push((k, None));
                proof {
                    assert(opts_view(options@) == opts_view(before).push((k, None)));
                }
                i = i + 1;
            }
        }
    }
    if positionals.len() > 1 {
        return Err(CrackenError::InvalidArguments);
    }
    Ok(ParsedArgs { subcommand: sub, options, positionals })
}

proof fn lemma_lookup_range(table: Seq<(char, Seq<char>, bool)>, tok: Token, k: int)
    ensures
        lookup(table, tok, k) is Some ==> k <= lookup(table, tok, k)->0 < table.len(),
    decreases table.len() - k,
{
    if 0 <= k < table.len() {
        lemma_lookup_range(table, tok, k + 1);
    }
}

/// Which option a token names does not depend on its value.
proof fn lemma_lookup_ignores_value(table: Seq<(char, Seq<char>, bool)>, a: Token, b: Token, k: int)
    requires
        match (a, b) {
            (Token::Long(x, _), Token::Long(y, _)) => x == y,
            (Token::Short(x, _), Token::Short(y, _)) => x == y,
            _ => false,
        },
    ensures
        lookup(table, a, k) == lookup(table, b, k),
    decreases table.len() - k,
{
    if 0 <= k < table.len() {
        lemma_lookup_ignores_value(table, a, b, k + 1);
    }
}

/// The value last given for option `k`.
pub open spec fn last_value(opts: Seq<(usize, Option<Seq<char>>)>, k: usize) -> Option<Seq<char>>
    decreases opts.len(),
{
    if opts.len() == 0 {
        None
    } else if opts.last().0 == k && opts.last().1 is Some {
        opts.last().1
    } else {
        last_value(opts.drop_last(), k)
    }
}

/// Every value given for option `k`, in order.
pub open spec fn all_values(opts: Seq<(usize, Option<Seq<char>>)>, k: usize) -> Seq<Seq<char>>
    decreases opts.len(),
{
    if opts.len() == 0 {
        Seq::empty()
    } else if opts.last().0 == k && opts.last().1 is Some {
        all_values(opts.drop_last(), k).push(opts.last().1->0)
    } else {
        all_values(opts.drop_last(), k)
    }
}

/// Option `k` was given.
pub open spec fn present(opts: Seq<(usize, Option<Seq<char>>)>, k: usize) -> bool {
    exists|i: int| 0 <= i < opts.len() && (#[trigger] opts[i]).0 == k
}

impl ParsedArgs {
    pub fn value_of(&self, k: usize) -> (r: Option<String>)
        ensures
            match last_value(opts_view(self.options@), k) {
                None => r is None,
                Some(v) => r is Some && r->0@ == v,
            },
    {
        let mut r: Option<String> = None;
        let mut i: usize = 0;
        while i < self.options.len()
            invariant
                i <= self.options@.len(),
                match last_value(opts_view(self.options@.take(i as int)), k) {
                    None => r is None,
                    Some(v) => r is Some && r->0@ == v,
                },
            decreases self.options@.len() - i,
        {
            assert(opts_view(self.options@.take(i + 1)).drop_last() == opts_view(self.options@.take(i as int)));
            let o = &self.options[i];
            if o.0 == k {
                match &o.1 {
                    Some(v) => {
                        r = Some(v.clone());
                    },
                    None => {},
                }
            }
            i = i + 1;
        }
        assert(self.options@.take(self.options@.len() as int) == self.options@);
        r
    }

    pub fn values_of(&self, k: usize) -> (r: Vec<String>)
        ensures
            strings_view(r@) == all_values(opts_view(self.options@), k),
    {
        let mut r: Vec<String> = Vec::new();
        let mut i: usize = 0;
        while i < self.options.len()
            invariant
                i <= self.options@.len(),
                strings_view(r@) == all_values(opts_view(self.options@.take(i as int)), k),
            decreases self.options@.len() - i,
        {
            assert(opts_view(self.options@.take(i + 1)).drop_last() == opts_view(self.options@.take(i as int)));
            let o = &self.options[i];
            if o.0 == k {
                match &o.1 {
                    Some(v) => {
                        let ghost before = r@;
                        r.push(v.clone());
                        assert(strings_view(r@) == strings_view(before).push(v@));
                    },
                    None => {},
                }
            }
            i = i + 1;
        }
        assert(self.options@.take(self.options@.len() as int) == self.options@);
        r
    }

    pub fn is_present(&self, k: usize) -> (r: bool)
        ensures
            r == present(opts_view(self.options@), k),
    {
        let mut i: usize = 0;
        while i < self.options.len()
            invariant
                i <= self.options@.len(),
                forall|j: int| 0 <= j < i ==> self.options@[j].0 != k,
            decreases self.options@.len() - i,
        {
            if self.options[i].0 == k {
                assert(opts_view(self.options@)[i as int].0 == k);
                return true;
            }
            i = i + 1;
        }
        assert forall|j: int| 0 <= j < opts_view(self.options@).len() implies (#[trigger] opts_view(self.options@)[j]).0 != k by {
            assert(self.options@[j].0 != k);
        }
        false
    }
}

/// The number that the decimal digits `s` spell.
pub open spec fn digits_value(s: Seq<char>) -> nat
    decreases s.len(),
{
    if s.len() == 0 {
        0
    } else {
        (digits_value(s.drop_last()) * 10 + (s.last() as u32 - '0' as u32)) as nat
    }
}

pub open spec fn all_digits(s: Seq<char>) -> bool {
    forall|i: int| 0 <= i < s.len() ==> '0' <= #[trigger] s[i] <= '9'
}

/// The number that `s` spells, when it is one or more decimal digits and fits in `usize`.
pub fn parse_number(s: &str) -> (r: Option<usize>)
    ensures
        r is Some <==> (s@.len() > 0 && all_digits(s@) && digits_value(s@) <= usize::MAX),
        r is Some ==> r->0 == digits_value(s@),
{
    let n = s.unicode_len();
    if n == 0 {
        return None;
    }
    let mut v: usize = 0;
    let mut i: usize = 0;
    while i < n
        invariant
            n == s@.len(),
            i <= n,
            all_digits(s@.take(i as int)),
            v == digits_value(s@.take(i as int)),
        decreases n - i,
    {
        let c = s.get_char(i);
        assert(s@.take(i + 1).drop_last() == s@.take(i as int));
        assert(s@.take(i + 1).last() == c);
        if !('0' <= c && c <= '9') {
            assert(!all_digits(s@)) by {
                assert(s@[i as int] == c);
            }
            return None;
        }
        let d = (c as u32 - '0' as u32) as usize;
        if v > (usize::MAX - d) / 10 {
            proof {
                if all_digits(s@) {
                    lemma_digits_grow(s@, i as int + 1);
                }
                assert(digits_value(s@.take(i + 1)) == v * 10 + d);
                assert(v * 10 + d > usize::MAX) by (nonlinear_arith)
                    requires
                        v > (usize::MAX - d) / 10,
                        d <= 9,
                ;
            }
            return None;
        }
        assert(v * 10 + d <= usize::MAX) by (nonlinear_arith)
            requires
                v <= (usize::MAX - d) / 10,
                d <= 9,
        ;
        v = v * 10 + d;
        i = i + 1;
    }
    assert(s@.take(n as int) == s@);
    Some(v)
}

/// The value of a prefix is at most the value of the whole.
proof fn lemma_digits_grow(s: Seq<char>, i: int)
    requires
        0 <= i <= s.len(),
        all_digits(s),
    ensures
        digits_value(s.take(i)) <= digits_value(s),
    decreases s.len() - i,
{
    if i < s.len() {
        lemma_digits_grow(s, i + 1);
        assert(s.take(i + 1).drop_last() == s.take(i));
        let a = digits_value(s.take(i));
        let c = s.take(i + 1).last();
        assert(c == s[i]);
        assert('0' <= c <= '9');
        let d = c as u32 - '0' as u32;
        assert(digits_value(s.take(i + 1)) == a * 10 + d);
        assert(a * 10 + d >= a) by (nonlinear_arith)
            requires
                d >= 0,
                a >= 0,
        ;
    } else {
        assert(s.take(i) == s);
    }
}

/// Why a write failed.
pub enum WriteFailure {
    BrokenPipe,
    Other,
}

/// `std::io::Stdout`, a handle to standard output, carried as an opaque value.
#[verifier::external_type_specification]
#[verifier::external_body]
pub struct ExStdout(std::io::Stdout);

/// Relies on `std::io::stdout`: a handle to standard output of the process.
#[verifier::external_body]
fn stdout_handle() -> std::io::Stdout {
    std::io::stdout()
}

/// Relies on `Write::write_all` for `Stdout`: the bytes are written, or the error kind says
/// why not; the outcome depends on where standard output leads.
#[verifier::external_body]
fn write_all_to(out: &mut std::io::Stdout, data: &[u8]) -> (r: Result<(), WriteFailure>) {
    match std::io::Write::write_all(out, data) {
        Ok(()) => Ok(()),
        Err(e) => match e.kind() {
            std::io::ErrorKind::BrokenPipe => Err(WriteFailure::BrokenPipe),
            _ => Err(WriteFailure::Other),
        },
    }
}

/// What a run does after a write: `None` to go on; a closed pipe ends the run with
/// success; any other failure ends it with `OutputFailed`.
pub fn after_write(w: Result<(), WriteFailure>) -> (r: Option<Result<(), CrackenError>>)
    ensures
        w is Ok ==> r is None,
        w is Err && w->Err_0 is BrokenPipe ==> r == Some(Ok::<(), CrackenError>(())),
        w is Err && w->Err_0 is Other ==> r == Some(Err::<(), CrackenError>(CrackenError::OutputFailed)),
{
    match w {
        Ok(()) => None,
        Err(WriteFailure::BrokenPipe) => Some(Ok(())),
        Err(WriteFailure::Other) => Some(Err(CrackenError::OutputFailed)),
    }
}

/// Relies on `Display for BigUint`: the decimal digits of the number.
#[verifier::external_body]
fn big_text(b: &BigUint) -> (r: String)
    ensures
        r@ == decimal(big_value(*b)),
{
    b.to_string()
}

/// Writes every record of a run to standard output, a buffer at a time; each write
/// outcome is handled by `after_write`.
fn print_records(generator: &WordGenerator) -> (r: Result<(), CrackenError>)
    requires
        generator.wf(),
    ensures
        r is Ok || r == Err::<(), CrackenError>(CrackenError::OutputFailed),
{
    let mut out = stdout_handle();
    let mut buf = StackBuf::new();
    match generator {
        WordGenerator::Charset(g) => {
            let mut st = g.start();
            while !st.is_done()
                invariant
                    g.wf(),
                    g.state_inv(&st),
                    buf.wf(),
                    !st.finished() ==> st.pos() < g.stream().len(),
                    st.pos() <= g.stream().len(),
                decreases g.stream().len() - st.pos(),
            {
                buf.clear();
                g.gen_batch(&mut st, &mut buf);
                if let Some(end) = after_write(write_all_to(&mut out, buf.getdata())) {
                    return end;
                }
            }
        },
        WordGenerator::Wordlist(g) => {
            let mut st = g.start();
            while !st.is_done()
                invariant
                    g.wf(),
                    g.state_inv(&st),
                    buf.wf(),
                    !st.finished() ==> st.pos() < g.stream().len(),
                    st.pos() <= g.stream().len(),
                decreases g.stream().len() - st.pos(),
            {
                buf.clear();
                g.gen_batch(&mut st, &mut buf);
                if let Some(end) = after_write(write_all_to(&mut out, buf.getdata())) {
                    return end;
                }
            }
        },
    }
    Ok(())
}

/// A number option: `Some(None)` when absent, `Some(Some(n))` when its value is the
/// decimal digits of `n`, `None` when its value is not such a number.
pub open spec fn number_arg(v: Option<Seq<char>>) -> Option<Option<usize>> {
    match v {
        None => Some(None),
        Some(s) => if s.len() > 0 && all_digits(s) && digits_value(s) <= usize::MAX {
            Some(Some(digits_value(s) as usize))
        } else {
            None
        },
    }
}

/// The generate options that only a front end with file access can serve.
pub open spec fn needs_files(opts: Seq<(usize, Option<Seq<char>>)>) -> bool {
    present(opts, GEN_MASKS_FILE) || present(opts, GEN_WORDLIST) || present(opts, GEN_OUTPUT_FILE)
}

/// How a generation run ends, given what building the generator gives: with its error,
/// or with success or `OutputFailed`, as the writes went.
pub open spec fn generate_result(r: Result<(), CrackenError>, built: Result<(usize, usize), CrackenError>) -> bool {
    match built {
        Err(e) => r == Err::<(), CrackenError>(e),
        Ok(_) => r is Ok || r == Err::<(), CrackenError>(CrackenError::OutputFailed),
    }
}

/// Runs a command line whose first argument is the program name. Generation to standard
/// output and `--stats` run here; commands that read or write files (wordlists, mask
/// files, output files, `entropy`, `create`) are left to a front end that has file
/// access, and give `NeedsFiles`.
pub fn run(args: Option<Vec<&str>>) -> (r: Result<(), CrackenError>)
    ensures
        args is None ==> r == Err::<(), CrackenError>(CrackenError::InvalidArguments),
        args is Some && command_parse(strs_view(args->0@)) is None ==> r == Err::<(), CrackenError>(
            CrackenError::InvalidArguments),
        args is Some && command_parse(strs_view(args->0@)) is Some ==> {
            let c = command_parse(strs_view(args->0@))->0;
            &&& c.0 != Subcommand::Generate ==> r == Err::<(), CrackenError>(CrackenError::NeedsFiles)
            &&& c.0 == Subcommand::Generate && (present(c.1, GEN_MASKS_FILE) || present(c.1, GEN_WORDLIST)
                || present(c.1, GEN_OUTPUT_FILE)) ==> r == Err::<(), CrackenError>(CrackenError::NeedsFiles)
            &&& c.0 == Subcommand::Generate && !needs_files(c.1) && c.2.len() == 0 ==> r == Err::<(), CrackenError>(
                CrackenError::InvalidArguments)
            &&& c.0 == Subcommand::Generate && !needs_files(c.1) && c.2.len() > 0 ==> {
                let lo = number_arg(last_value(c.1, GEN_MINLEN));
                let hi = number_arg(last_value(c.1, GEN_MAXLEN));
                let cs = all_values(c.1, GEN_CUSTOM_CHARSET);
                &&& (lo is None || hi is None || cs.len() > 9) ==> r == Err::<(), CrackenError>(CrackenError::InvalidArguments)
                &&& (lo is Some && hi is Some && cs.len() <= 9) ==> generate_result(r, charset_gen_outcome(encode_utf8(c.2[0]),
                    lo->0, hi->0, cs.map_values(|v: Seq<char>| encode_utf8(v))))
            }
        },
{
    let args = match args {
        Some(a) => a,
        None => {
            return Err(CrackenError::InvalidArguments);
        },
    };
    let parsed = parse_command_line(&args)?;
    match parsed.subcommand {
        Subcommand::Generate => {},
        _ => {
            return Err(CrackenError::NeedsFiles);
        },
    }
    let files = parsed.is_present(GEN_MASKS_FILE) || parsed.is_present(GEN_WORDLIST) || parsed.is_present(GEN_OUTPUT_FILE);
    if files {
        return Err(CrackenError::NeedsFiles);
    }
    if parsed.positionals.len() == 0 {
        return Err(CrackenError::InvalidArguments);
    }
    let minlen = match parsed.value_of(GEN_MINLEN) {
        Some(v) => match parse_number(v.as_str()) {
            Some(n) => Some(n),
            None => {
                return Err(CrackenError::InvalidArguments);
            },
        },
        None => None,
    };
    let maxlen = match parsed.value_of(GEN_MAXLEN) {
        Some(v) => match parse_number(v.as_str()) {
            Some(n) => Some(n),
            None => {
                return Err(CrackenError::InvalidArguments);
            },
        },
        None => None,
    };
    let charsets = parsed.values_of(GEN_CUSTOM_CHARSET);
    if charsets.len() > 9 {
        return Err(CrackenError::InvalidArguments);
    }
    let mut custom: Vec<&str> = Vec::new();
    let mut i: usize = 0;
    while i < charsets.len()
        invariant
            i <= charsets@.len(),
            custom@.len() == i,
            forall|j: int| 0 <= j < i ==> (#[trigger] custom@[j])@ == charsets@[j]@,
        decreases charsets@.len() - i,
    {
        custom.push(charsets[i].as_str());
        i = i + 1;
    }
    let mask = parsed.positionals[0].as_str();
    proof {
        let c = command_parse(strs_view(args@))->0;
        assert(mask@ == c.2[0]);
        assert(custom_bytes(custom@) =~= all_values(c.1, GEN_CUSTOM_CHARSET).map_values(|v: Seq<char>| encode_utf8(v))) by {
            assert forall|j: int| 0 <= j < custom@.len() implies custom_bytes(custom@)[j]
                == encode_utf8(strings_view(charsets@)[j]) by {
                assert(custom@[j]@ == charsets@[j]@);
            }
        }
    }
    let generator = get_word_generator(mask, minlen, maxlen, custom.as_slice(), Vec::new())?;
    if parsed.is_present(GEN_STATS) {
        let mut text = big_text(&generator.combinations());
        text.append("\n");
        let mut out = stdout_handle();
        return match after_write(write_all_to(&mut out, text.as_str().as_bytes())) {
            Some(end) => end,
            None => Ok(()),
        };
    }
    print_records(&generator)
}

} // verus!
