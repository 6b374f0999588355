use vstd::prelude::*;

verus! {

/// A builtin charset: its mask symbol and its bytes.
pub struct CharsetSymbol {
    pub symbol: char,
    pub chars: Vec<u8>,
}

/// True iff `s` is one of the builtin mask symbols `l u d s a b`.
pub open spec fn is_builtin_symbol(s: char) -> bool {
    s == 'l' || s == 'u' || s == 'd' || s == 's' || s == 'a' || s == 'b'
}

/// The 33 printable ASCII bytes that are neither letters nor digits, space included.
pub open spec fn is_symbol_byte(b: u8) -> bool {
    (32 <= b <= 47) || (58 <= b <= 64) || (91 <= b <= 96) || (123 <= b <= 126)
}

pub open spec fn is_lower_byte(b: u8) -> bool {
    0x61 <= b <= 0x7a
}

pub open spec fn is_upper_byte(b: u8) -> bool {
    0x41 <= b <= 0x5a
}

pub open spec fn is_digit_byte(b: u8) -> bool {
    0x30 <= b <= 0x39
}

/// Membership of byte `b` in the builtin charset named `symbol`.
pub open spec fn in_builtin(symbol: char, b: u8) -> bool {
    if symbol == 'l' {
        is_lower_byte(b)
    } else if symbol == 'u' {
        is_upper_byte(b)
    } else if symbol == 'd' {
        is_digit_byte(b)
    } else if symbol == 's' {
        is_symbol_byte(b)
    } else if symbol == 'a' {
        is_lower_byte(b) || is_upper_byte(b) || is_digit_byte(b) || (is_symbol_byte(b) && b != 32)
    } else {
        symbol == 'b'
    }
}

/// Strictly ascending bytes: sorted and without duplicates.
pub open spec fn strictly_sorted(s: Seq<u8>) -> bool {
    forall|i: int, j: int| 0 <= i < j < s.len() ==> s[i] < s[j]
}

fn builtin_member(symbol: char, b: u8) -> (r: bool)
    ensures
        r == in_builtin(symbol, b),
{
    let lower = 0x61 <= b && b <= 0x7a;
    let upper = 0x41 <= b && b <= 0x5a;
    let digit = 0x30 <= b && b <= 0x39;
    let sym = (32 <= b && b <= 47) || (58 <= b && b <= 64) || (91 <= b && b <= 96) || (123 <= b
        && b <= 126);
    if symbol == 'l' {
        lower
    } else if symbol == 'u' {
        upper
    } else if symbol == 'd' {
        digit
    } else if symbol == 's' {
        sym
    } else if symbol == 'a' {
        lower || upper || digit || (sym && b != 32)
    } else {
        symbol == 'b'
    }
}

/// The bytes of the builtin charset `symbol`, ascending.
pub fn builtin_chars(symbol: char) -> (r: Vec<u8>)
    ensures
        strictly_sorted(r@),
        forall|b: u8| r@.contains(b) <==> in_builtin(symbol, b),
{
    let mut r: Vec<u8> = Vec::new();
    let mut b: u16 = 0;
    while b < 256
        invariant
            b <= 256,
            strictly_sorted(r@),
            forall|i: int| 0 <= i < r@.len() ==> (r@[i] as u16) < b,
            forall|x: u8| (x as u16) < b ==> (r@.contains(x) <==> in_builtin(symbol, x)),
            forall|x: u8| r@.contains(x) ==> (x as u16) < b,
        decreases 256 - b,
    {
        let c = b as u8;
        let ghost before = r@;
        if builtin_member(symbol, c) {
            r.push(c);
        }
        assert forall|x: u8| #[trigger] r@.contains(x) <==> (before.contains(x) || (x == c
            && in_builtin(symbol, c))) by {
            if r@.contains(x) {
                let k = choose|k: int| 0 <= k < r@.len() && r@[k] == x;
                if k < before.len() {
                    assert(before[k] == x);
                }
            }
            if before.contains(x) {
                let k = choose|k: int| 0 <= k < before.len() && before[k] == x;
                assert(r@[k] == x);
            }
            if x == c && in_builtin(symbol, c) {
                assert(r@[r@.len() - 1] == x);
            }
        }
        b = b + 1;
    }
    r
}

impl CharsetSymbol {
    pub fn new(symbol: char, chars: &[u8]) -> (r: CharsetSymbol)
        ensures
            r.symbol == symbol,
            r.chars@ == chars@,
    {
        CharsetSymbol { symbol, chars: vstd::slice::slice_to_vec(chars) }
    }
}

/// The six builtin charsets, in the order `l u d s a b`.
pub fn builtin_symbols() -> (r: Vec<CharsetSymbol>)
    ensures
        r@.len() == 6,
        r@[0].symbol == 'l' && r@[1].symbol == 'u' && r@[2].symbol == 'd',
        r@[3].symbol == 's' && r@[4].symbol == 'a' && r@[5].symbol == 'b',
        forall|i: int| 0 <= i < 6 ==> strictly_sorted(#[trigger] r@[i].chars@),
        forall|i: int, b: u8| 0 <= i < 6 ==> (#[trigger] r@[i].chars@.contains(b) <==> in_builtin(r@[i].symbol, b)),
{
    let mut r: Vec<CharsetSymbol> = Vec::new();
    r.push(CharsetSymbol { symbol: 'l', chars: builtin_chars('l') });
    r.push(CharsetSymbol { symbol: 'u', chars: builtin_chars('u') });
    r.push(CharsetSymbol { symbol: 'd', chars: builtin_chars('d') });
    r.push(CharsetSymbol { symbol: 's', chars: builtin_chars('s') });
    r.push(CharsetSymbol { symbol: 'a', chars: builtin_chars('a') });
    r.push(CharsetSymbol { symbol: 'b', chars: builtin_chars('b') });
    r
}

/// A set of bytes with a jump table from each member to the next one, cyclically.
pub struct Charset {
    pub jmp_table: Vec<u8>,
    pub min_char: u8,
    pub len: usize,
    pub sorted: Ghost<Seq<u8>>,
}

impl View for Charset {
    type V = Seq<u8>;

    /// The members, ascending.
    open spec fn view(&self) -> Seq<u8> {
        self.sorted@
    }
}

impl Charset {
    pub open spec fn wf(&self) -> bool {
        &&& self.jmp_table@.len() == 256
        &&& strictly_sorted(self@)
        &&& self@.len() >= 1
        &&& self.len == self@.len()
        &&& self.min_char == self@[0]
        &&& forall|i: int|
            0 <= i < self@.len() ==> #[trigger] self.jmp_table@[self@[i] as int] == self@[(i + 1)
                % (self@.len() as int)]
    }

    /// Number of members.
    pub fn len(&self) -> (r: usize)
        requires
            self.wf(),
        ensures
            r == self@.len(),
    {
        self.len
    }

    /// Smallest member.
    pub fn min_char(&self) -> (r: u8)
        requires
            self.wf(),
        ensures
            r == self@[0],
    {
        self.min_char
    }

    /// The member that follows `b` cyclically.
    pub fn next(&self, b: u8) -> (r: u8)
        requires
            self.wf(),
        ensures
            r == self.jmp_table@[b as int],
    {
        self.jmp_table[b as usize]
    }

    pub fn from_chars(chars: &[u8]) -> (r: Charset)
        requires
            chars@.len() > 0,
        ensures
            r.wf(),
            forall|b: u8| r@.contains(b) <==> chars@.contains(b),
    {
        // which bytes are present
        let mut present: Vec<bool> = Vec::new();
        let mut b: usize = 0;
        while b < 256
            invariant
                b <= 256,
                present@.len() == b,
                forall|x: int| 0 <= x < b ==> !present@[x],
            decreases 256 - b,
        {
            present.push(false);
            b = b + 1;
        }
        let mut i: usize = 0;
        while i < chars.len()
            invariant
                i <= chars@.len(),
                present@.len() == 256,
                forall|x: u8| present@[x as int] <==> exists|k: int| 0 <= k < i && #[trigger] chars@[k] == x,
            decreases chars@.len() - i,
        {
            let c = chars[i];
            present.set(c as usize, true);
            assert forall|x: u8| present@[x as int] <==> exists|k: int| 0 <= k < i + 1 && #[trigger] chars@[k] == x by {
                if x == c {
                    assert(chars@[i as int] == x);
                }
            }
            i = i + 1;
        }
        assert forall|x: u8| present@[x as int] <==> chars@.contains(x) by {
            if chars@.contains(x) {
                let k = choose|k: int| 0 <= k < chars@.len() && chars@[k] == x;
                assert(chars@[k] == x);
            }
        }
        // the members, ascending
        let mut sorted: Vec<u8> = Vec::new();
        let mut b: usize = 0;
        while b < 256
            invariant
                b <= 256,
                present@.len() == 256,
                strictly_sorted(sorted@),
                forall|k: int| 0 <= k < sorted@.len() ==> (sorted@[k] as usize) < b,
                forall|x: u8| (x as usize) < b ==> (sorted@.contains(x) <==> present@[x as int]),
                forall|x: u8| sorted@.contains(x) ==> (x as usize) < b,
            decreases 256 - b,
        {
            let c = b as u8;
            let ghost before = sorted@;
            if present[b] {
                sorted.push(c);
            }
            assert forall|x: u8| #[trigger] sorted@.contains(x) <==> (before.contains(x) || (x == c
                && present@[c as int])) by {
                if sorted@.contains(x) {
                    let k = choose|k: int| 0 <= k < sorted@.len() && sorted@[k] == x;
                    if k < before.len() {
                        assert(before[k] == x);
                    }
                }
                if before.contains(x) {
                    let k = choose|k: int| 0 <= k < before.len() && before[k] == x;
                    assert(sorted@[k] == x);
                }
                if x == c && present@[c as int] {
                    assert(sorted@[sorted@.len() - 1] == x);
                }
            }
            b = b + 1;
        }
        assert(sorted@.len() > 0) by {
            assert(present@[chars@[0] as int]);
            assert(sorted@.contains(chars@[0]));
        }
        let k = sorted.len();
        let mut jmp_table: Vec<u8> = Vec::new();
        let mut b: usize = 0;
        while b < 256
            invariant
                b <= 256,
                jmp_table@.len() == b,
            decreases 256 - b,
        {
            jmp_table.push(0);
            b = b + 1;
        }
        let mut i: usize = 0;
        while i < k
            invariant
                k == sorted@.len(),
                k > 0,
                i <= k,
                jmp_table@.len() == 256,
                strictly_sorted(sorted@),
                forall|j: int| 0 <= j < i ==> #[trigger] jmp_table@[sorted@[j] as int] == sorted@[(j + 1) % (k as int)],
            decreases k - i,
        {
            let nxt = if i + 1 < k { sorted[i + 1] } else { sorted[0] };
            assert(nxt == sorted@[(i + 1) % (k as int)]) by {
                if i + 1 == k {
                    assert((k as int) % (k as int) == 0) by (nonlinear_arith) requires k > 0;
                } else {
                    assert((i + 1) as int % (k as int) == i + 1) by (nonlinear_arith) requires 0 <= i + 1 < k;
                }
            }
            jmp_table.set(sorted[i] as usize, nxt);
            assert forall|j: int| 0 <= j < i + 1 implies #[trigger] jmp_table@[sorted@[j] as int] == sorted@[(j + 1) % (k as int)] by {
                if j < i {
                    assert(sorted@[j] != sorted@[i as int]);
                }
            }
            i = i + 1;
        }
        Charset { jmp_table, min_char: sorted[0], len: k, sorted: Ghost(sorted@) }
    }

    pub fn from_symbol(symbol: char) -> (r: Charset)
        requires
            is_builtin_symbol(symbol),
        ensures
            r.wf(),
            forall|b: u8| r@.contains(b) <==> in_builtin(symbol, b),
    {
        let chars = builtin_chars(symbol);
        assert(chars@.len() > 0) by {
            let b: u8 = if symbol == 'l' { 0x61 } else if symbol == 'u' { 0x41 } else if symbol == 's' { 32 } else { 0x30 };
            assert(in_builtin(symbol, b));
            assert(chars@.contains(b));
        }
        Charset::from_chars(chars.as_slice())
    }
}

} // verus!
