use vstd::prelude::*;
use vstd::string::StringSliceAdditionalSpecFns;

use crate::error::CrackenError;
use crate::MAX_WORD_SIZE;

verus! {

/// One position of a compiled mask.
#[derive(Debug, Clone, Copy, PartialEq, Eq, Structural)]
pub enum MaskOp {
    /// A literal byte.
    Char(u8),
    /// A builtin charset, by its symbol `l u d s a b`.
    BuiltinCharset(char),
    /// A custom charset, by its index from zero.
    CustomCharset(usize),
    /// A wordlist, by its index from zero.
    Wordlist(usize),
}

/// The builtin charset that the byte after `?` names, if any.
pub open spec fn builtin_of(b: u8) -> Option<char> {
    if b == 0x6c {
        Some('l')
    } else if b == 0x75 {
        Some('u')
    } else if b == 0x64 {
        Some('d')
    } else if b == 0x73 {
        Some('s')
    } else if b == 0x61 {
        Some('a')
    } else if b == 0x62 {
        Some('b')
    } else {
        None
    }
}

/// A decimal digit from `1` to `9`.
pub open spec fn is_index_digit(b: u8) -> bool {
    0x31 <= b <= 0x39
}

pub open spec fn prepend(op: MaskOp, rest: Option<Seq<MaskOp>>) -> Option<Seq<MaskOp>> {
    match rest {
        Some(r) => Some(seq![op] + r),
        None => None,
    }
}

/// The operations that the mask bytes `m` stand for, or `None` where `m` breaks the
/// grammar `( "\" ANY | "?" [ludsab1-9] | "?w" [1-9] | ANY but "?" and "\" )*`.
pub open spec fn parse_spec(m: Seq<u8>) -> Option<Seq<MaskOp>>
    decreases m.len(),
{
    if m.len() == 0 {
        Some(Seq::empty())
    } else if m[0] == 0x5c {
        if m.len() >= 2 {
            prepend(MaskOp::Char(m[1]), parse_spec(m.subrange(2, m.len() as int)))
        } else {
            None
        }
    } else if m[0] == 0x3f {
        if m.len() >= 2 && builtin_of(m[1]) is Some {
            prepend(
                MaskOp::BuiltinCharset(builtin_of(m[1])->0),
                parse_spec(m.subrange(2, m.len() as int)),
            )
        } else if m.len() >= 2 && is_index_digit(m[1]) {
            prepend(
                MaskOp::CustomCharset((m[1] - 0x31) as usize),
                parse_spec(m.subrange(2, m.len() as int)),
            )
        } else if m.len() >= 3 && m[1] == 0x77 && is_index_digit(m[2]) {
            prepend(
                MaskOp::Wordlist((m[2] - 0x31) as usize),
                parse_spec(m.subrange(3, m.len() as int)),
            )
        } else {
            None
        }
    } else {
        prepend(MaskOp::Char(m[0]), parse_spec(m.subrange(1, m.len() as int)))
    }
}

/// A valid mask: it follows the grammar and has from 1 to `MAX_WORD_SIZE - 1` tokens.
pub open spec fn mask_valid(m: Seq<u8>) -> bool {
    &&& parse_spec(m) is Some
    &&& 1 <= parse_spec(m)->0.len() <= MAX_WORD_SIZE - 1
}

/// The largest custom charset index among `ops`, if any.
pub open spec fn max_custom(ops: Seq<MaskOp>) -> Option<usize>
    decreases ops.len(),
{
    if ops.len() == 0 {
        None
    } else {
        let rest = max_custom(ops.drop_last());
        match ops.last() {
            MaskOp::CustomCharset(i) => match rest {
                Some(j) => Some(if i > j { i } else { j }),
                None => Some(i),
            },
            _ => rest,
        }
    }
}

/// The largest wordlist index among `ops`, if any.
pub open spec fn max_wordlist(ops: Seq<MaskOp>) -> Option<usize>
    decreases ops.len(),
{
    if ops.len() == 0 {
        None
    } else {
        let rest = max_wordlist(ops.drop_last());
        match ops.last() {
            MaskOp::Wordlist(i) => match rest {
                Some(j) => Some(if i > j { i } else { j }),
                None => Some(i),
            },
            _ => rest,
        }
    }
}

/// Every custom charset index among `ops` is below `n`.
pub open spec fn customs_below(ops: Seq<MaskOp>, n: nat) -> bool {
    forall|k: int, i: usize| 0 <= k < ops.len() && ops[k] == MaskOp::CustomCharset(i) ==> i < n
}

/// Every wordlist index among `ops` is below `n`.
pub open spec fn wordlists_below(ops: Seq<MaskOp>, n: nat) -> bool {
    forall|k: int, i: usize| 0 <= k < ops.len() && ops[k] == MaskOp::Wordlist(i) ==> i < n
}

proof fn lemma_max_custom(ops: Seq<MaskOp>, n: nat)
    ensures
        customs_below(ops, n) <==> match max_custom(ops) {
            None => true,
            Some(m) => m < n,
        },
        max_custom(ops) is Some ==> exists|k: int| 0 <= k < ops.len() && ops[k] == MaskOp::CustomCharset(max_custom(ops)->0),
    decreases ops.len(),
{
    if ops.len() > 0 {
        let pre = ops.drop_last();
        lemma_max_custom(pre, n);
        assert forall|k: int| 0 <= k < pre.len() implies pre[k] == ops[k] by {}
        if max_custom(pre) is Some {
            let k = choose|k: int| 0 <= k < pre.len() && pre[k] == MaskOp::CustomCharset(max_custom(pre)->0);
            assert(ops[k] == MaskOp::CustomCharset(max_custom(pre)->0));
        }
        assert(ops[ops.len() - 1] == ops.last());
        if customs_below(ops, n) {
            assert forall|k: int, i: usize| 0 <= k < pre.len() && pre[k] == MaskOp::CustomCharset(i) implies i < n by {
                assert(ops[k] == pre[k]);
            }
        }
    }
}

proof fn lemma_max_wordlist(ops: Seq<MaskOp>, n: nat)
    ensures
        wordlists_below(ops, n) <==> match max_wordlist(ops) {
            None => true,
            Some(m) => m < n,
        },
        max_wordlist(ops) is Some ==> exists|k: int| 0 <= k < ops.len() && ops[k] == MaskOp::Wordlist(max_wordlist(ops)->0),
    decreases ops.len(),
{
    if ops.len() > 0 {
        let pre = ops.drop_last();
        lemma_max_wordlist(pre, n);
        assert forall|k: int| 0 <= k < pre.len() implies pre[k] == ops[k] by {}
        if max_wordlist(pre) is Some {
            let k = choose|k: int| 0 <= k < pre.len() && pre[k] == MaskOp::Wordlist(max_wordlist(pre)->0);
            assert(ops[k] == MaskOp::Wordlist(max_wordlist(pre)->0));
        }
        assert(ops[ops.len() - 1] == ops.last());
        if wordlists_below(ops, n) {
            assert forall|k: int, i: usize| 0 <= k < pre.len() && pre[k] == MaskOp::Wordlist(i) implies i < n by {
                assert(ops[k] == pre[k]);
            }
        }
    }
}

fn builtin_symbol_of(b: u8) -> (r: Option<char>)
    ensures
        r == builtin_of(b),
{
    if b == 0x6c {
        Some('l')
    } else if b == 0x75 {
        Some('u')
    } else if b == 0x64 {
        Some('d')
    } else if b == 0x73 {
        Some('s')
    } else if b == 0x61 {
        Some('a')
    } else if b == 0x62 {
        Some('b')
    } else {
        None
    }
}

/// Parses `mask` into the operations it stands for.
pub fn parse_mask(mask: &str) -> (r: Result<Vec<MaskOp>, CrackenError>)
    ensures
        r is Ok <==> mask_valid(mask.spec_bytes()),
        r is Ok ==> parse_spec(mask.spec_bytes()) == Some(r->Ok_0@),
        r is Err ==> r->Err_0 == CrackenError::InvalidMask,
{
    let m = mask.as_bytes();
    let n = m.len();
    let mut ops: Vec<MaskOp> = Vec::new();
    let mut i: usize = 0;
    assert(m@.subrange(0, n as int) == m@);
    assert(parse_spec(m@) is Some ==> ops@ + parse_spec(m@)->0 == parse_spec(m@)->0);
    while i < n
        invariant
            n == m@.len(),
            m@ == mask.spec_bytes(),
            i <= n,
            ops@.len() <= i,
            parse_spec(m@) == (match parse_spec(m@.subrange(i as int, n as int)) {
                Some(r) => Some(ops@ + r),
                None => None::<Seq<MaskOp>>,
            }),
        decreases n - i,
    {
        let ghost rest = m@.subrange(i as int, n as int);
        assert(rest[0] == m@[i as int]);
        let b = m[i];
        let op;
        let step: usize;
        if b == 0x5c {
            if i + 1 >= n {
                return Err(CrackenError::InvalidMask);
            }
            assert(rest[1] == m@[i + 1]);
            op = MaskOp::Char(m[i + 1]);
            step = 2;
        } else if b == 0x3f {
            if i + 1 >= n {
                return Err(CrackenError::InvalidMask);
            }
            let c = m[i + 1];
            assert(rest[1] == c);
            match builtin_symbol_of(c) {
                Some(s) => {
                    op = MaskOp::BuiltinCharset(s);
                    step = 2;
                },
                None => {
                    if 0x31 <= c && c <= 0x39 {
                        op = MaskOp::CustomCharset((c - 0x31) as usize);
                        step = 2;
                    } else if c == 0x77 && i + 2 < n && 0x31 <= m[i + 2] && m[i + 2] <= 0x39 {
                        assert(rest[2] == m@[i + 2]);
                        op = MaskOp::Wordlist((m[i + 2] - 0x31) as usize);
                        step = 3;
                    } else {
                        if c == 0x77 && i + 2 < n {
                            assert(rest[2] == m@[i + 2]);
                        }
                        return Err(CrackenError::InvalidMask);
                    }
                },
            }
        } else {
            op = MaskOp::Char(b);
            step = 1;
        }
        assert(rest.subrange(step as int, rest.len() as int) == m@.subrange(i + step, n as int));
        assert(parse_spec(rest) == prepend(op, parse_spec(m@.subrange(i + step, n as int))));
        let ghost before = ops@;
        ops.push(op);
        proof {
            match parse_spec(m@.subrange(i + step, n as int)) {
                Some(r) => {
                    assert(before + (seq![op] + r) == ops@ + r);
                },
                None => {},
            }
        }
        i = i + step;
    }
    assert(m@.subrange(n as int, n as int) == Seq::<u8>::empty());
    assert(ops@ + Seq::<MaskOp>::empty() == ops@);
    if ops.len() == 0 || ops.len() > MAX_WORD_SIZE - 1 {
        return Err(CrackenError::InvalidMask);
    }
    Ok(ops)
}

/// Checks that every custom charset that `mask` names is among the `customer_charests_len`
/// given ones.
pub fn validate_charsets(mask: &[MaskOp], customer_charests_len: usize) -> (r: Result<(), CrackenError>)
    ensures
        r is Ok <==> customs_below(mask@, customer_charests_len as nat),
        r is Err ==> max_custom(mask@) is Some && r->Err_0 == (CrackenError::UnspecifiedCustomCharset {
            index: max_custom(mask@)->0,
            provided: customer_charests_len,
        }),
{
    let mut best: Option<usize> = None;
    let mut i: usize = 0;
    while i < mask.len()
        invariant
            i <= mask@.len(),
            best == max_custom(mask@.subrange(0, i as int)),
        decreases mask@.len() - i,
    {
        assert(mask@.subrange(0, i + 1).drop_last() == mask@.subrange(0, i as int));
        if let MaskOp::CustomCharset(idx) = mask[i] {
            best = match best {
                Some(j) => Some(if idx > j { idx } else { j }),
                None => Some(idx),
            };
        }
        i = i + 1;
    }
    assert(mask@.subrange(0, mask@.len() as int) == mask@);
    proof {
        lemma_max_custom(mask@, customer_charests_len as nat);
    }
    match best {
        None => Ok(()),
        Some(n) => {
            if n >= customer_charests_len {
                proof {
                    let k = choose|k: int| 0 <= k < mask@.len() && mask@[k] == MaskOp::CustomCharset(n);
                    assert(mask@[k] == MaskOp::CustomCharset(n));
                }
                Err(CrackenError::UnspecifiedCustomCharset { index: n, provided: customer_charests_len })
            } else {
                Ok(())
            }
        },
    }
}

/// Checks that every wordlist that `mask` names is among the `wordlists_len` given ones.
pub fn validate_wordlists(mask: &[MaskOp], wordlists_len: usize) -> (r: Result<(), CrackenError>)
    ensures
        r is Ok <==> wordlists_below(mask@, wordlists_len as nat),
        r is Err ==> max_wordlist(mask@) is Some && r->Err_0 == (CrackenError::UnspecifiedWordlist {
            index: max_wordlist(mask@)->0,
            provided: wordlists_len,
        }),
{
    let mut best: Option<usize> = None;
    let mut i: usize = 0;
    while i < mask.len()
        invariant
            i <= mask@.len(),
            best == max_wordlist(mask@.subrange(0, i as int)),
        decreases mask@.len() - i,
    {
        assert(mask@.subrange(0, i + 1).drop_last() == mask@.subrange(0, i as int));
        if let MaskOp::Wordlist(idx) = mask[i] {
            best = match best {
                Some(j) => Some(if idx > j { idx } else { j }),
                None => Some(idx),
            };
        }
        i = i + 1;
    }
    assert(mask@.subrange(0, mask@.len() as int) == mask@);
    proof {
        lemma_max_wordlist(mask@, wordlists_len as nat);
    }
    match best {
        None => Ok(()),
        Some(n) => {
            if n >= wordlists_len {
                proof {
                    let k = choose|k: int| 0 <= k < mask@.len() && mask@[k] == MaskOp::Wordlist(n);
                    assert(mask@[k] == MaskOp::Wordlist(n));
                }
                Err(CrackenError::UnspecifiedWordlist { index: n, provided: wordlists_len })
            } else {
                Ok(())
            }
        },
    }
}

} // verus!
