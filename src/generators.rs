use vstd::prelude::*;
use vstd::string::StringSliceAdditionalSpecFns;

use num_bigint::BigUint;

use crate::bignum::{big_add, big_from_u64, big_mul_u64, big_value};
use crate::charsets::{in_builtin, is_builtin_symbol, Charset};
use crate::error::CrackenError;
use crate::mask::{mask_valid, max_custom, parse_mask, parse_spec, MaskOp};
use crate::odometer::{
    advance, digits_valid, is_step, lemma_advance, lemma_advance_is_step, lemma_odometer_complete,
    lemma_odometer_entry, lemma_odometer_first, lemma_odometer_injective, lemma_odometer_len,
    odometer, positive, product, zeros,
};
use crate::stackbuf::StackBuf;
use crate::wordlist_gen::WordlistGenerator;
use crate::wordlists::Wordlist;
use crate::{BUFFER_SIZE, MAX_WORD_SIZE};

verus! {

/// The bytes of each custom charset.
pub open spec fn custom_bytes(custom_charsets: Seq<&str>) -> Seq<Seq<u8>> {
    custom_charsets.map_values(|s: &str| s.spec_bytes())
}

/// Membership of `b` in the charset that `op` stands for.
pub open spec fn op_member(op: MaskOp, customs: Seq<Seq<u8>>, b: u8) -> bool {
    match op {
        MaskOp::Char(c) => b == c,
        MaskOp::BuiltinCharset(s) => in_builtin(s, b),
        MaskOp::CustomCharset(i) => customs[i as int].contains(b),
        MaskOp::Wordlist(_) => false,
    }
}

/// The error that a single operation brings when only charsets are at hand.
pub open spec fn op_error(op: MaskOp, customs: Seq<Seq<u8>>) -> Option<CrackenError> {
    match op {
        MaskOp::Wordlist(i) => Some(CrackenError::UnspecifiedWordlist { index: i, provided: 0 }),
        MaskOp::CustomCharset(i) => if customs[i as int].len() == 0 {
            Some(CrackenError::EmptyCustomCharset { index: i })
        } else {
            None
        },
        _ => None,
    }
}

/// The error of the leftmost operation that brings one.
pub open spec fn first_op_error(ops: Seq<MaskOp>, customs: Seq<Seq<u8>>) -> Option<CrackenError>
    decreases ops.len(),
{
    if ops.len() == 0 {
        None
    } else {
        match first_op_error(ops.drop_last(), customs) {
            Some(e) => Some(e),
            None => op_error(ops.last(), customs),
        }
    }
}

/// What building a charset generator gives: the length range, or the error.
pub open spec fn charset_gen_outcome(
    mask: Seq<u8>,
    minlen: Option<usize>,
    maxlen: Option<usize>,
    customs: Seq<Seq<u8>>,
) -> Result<(usize, usize), CrackenError> {
    if !mask_valid(mask) {
        Err(CrackenError::InvalidMask)
    } else {
        let ops = parse_spec(mask)->0;
        let n = ops.len() as usize;
        let lo = match minlen { Some(v) => v, None => n };
        let hi = match maxlen { Some(v) => v, None => n };
        if max_custom(ops) is Some && max_custom(ops)->0 >= customs.len() {
            Err(CrackenError::CustomCharsetCount { index: max_custom(ops)->0, provided: customs.len() as usize })
        } else if first_op_error(ops, customs) is Some {
            Err(first_op_error(ops, customs)->0)
        } else if !(0 < lo && lo <= hi && lo <= n) {
            Err(CrackenError::InvalidMinLen)
        } else if hi > n {
            Err(CrackenError::InvalidMaxLen)
        } else {
            Ok((lo, hi))
        }
    }
}

/// The number of members of each charset.
pub open spec fn radix_of(cs: Seq<Charset>) -> Seq<nat> {
    Seq::new(cs.len(), |i: int| cs[i]@.len())
}

/// The word that digit vector `d` picks from the charsets.
pub open spec fn render(cs: Seq<Charset>, d: Seq<nat>) -> Seq<u8> {
    Seq::new(d.len(), |i: int| cs[i]@[d[i] as int])
}

/// The records of length `len`: each word over the first `len` charsets, in counting
/// order, followed by a newline.
pub open spec fn length_records(cs: Seq<Charset>, len: nat) -> Seq<Seq<u8>> {
    odometer(radix_of(cs).take(len as int)).map_values(|d: Seq<nat>| render(cs, d).push(10u8))
}

/// The records of every length from `minlen` to `len`, shortest first.
pub open spec fn records_upto(cs: Seq<Charset>, minlen: nat, len: int) -> Seq<Seq<u8>>
    decreases len,
{
    if len < minlen || len <= 0 {
        Seq::empty()
    } else {
        records_upto(cs, minlen, len - 1) + length_records(cs, len as nat)
    }
}

/// `g` is the generator that `CharsetGenerator::new` builds from these arguments: its
/// mask, its length range, and for each mask position the charset that the operation there
/// stands for.
pub open spec fn charset_gen_built(
    g: CharsetGenerator,
    mask: &str,
    minlen: Option<usize>,
    maxlen: Option<usize>,
    customs: Seq<Seq<u8>>,
) -> bool {
    let ops = parse_spec(mask.spec_bytes())->0;
    let lens = charset_gen_outcome(mask.spec_bytes(), minlen, maxlen, customs)->Ok_0;
    &&& g.wf()
    &&& g.mask@ == mask@
    &&& g.minlen == lens.0 && g.maxlen == lens.1
    &&& g.charsets@.len() == ops.len()
    &&& forall|i: int, b: u8| 0 <= i < ops.len() ==> (#[trigger] g.charsets@[i]@.contains(b) <==> op_member(ops[i], customs, b))
}

/// Generator for masks of charsets only.
pub struct CharsetGenerator {
    pub mask: String,
    pub minlen: usize,
    pub maxlen: usize,
    pub charsets: Vec<Charset>,
    pub min_word: Vec<u8>,
}

/// Where a charset generator stands in its output.
pub struct CharsetGenState {
    pwdlen: usize,
    word: Vec<u8>,
    done: bool,
    idx: Ghost<nat>,
    pos: Ghost<nat>,
}

impl CharsetGenState {
    /// How many records were produced before this state.
    pub closed spec fn pos(&self) -> nat {
        self.pos@
    }

    pub closed spec fn finished(&self) -> bool {
        self.done
    }

    pub fn is_done(&self) -> (r: bool)
        ensures
            r == self.finished(),
    {
        self.done
    }
}

impl CharsetGenerator {
    pub open spec fn wf(&self) -> bool {
        &&& 1 <= self.minlen <= self.maxlen <= self.charsets@.len() <= MAX_WORD_SIZE - 1
        &&& forall|i: int| 0 <= i < self.charsets@.len() ==> (#[trigger] self.charsets@[i]).wf()
        &&& self.min_word@.len() == self.charsets@.len()
        &&& forall|i: int| 0 <= i < self.charsets@.len() ==> #[trigger] self.min_word@[i] == self.charsets@[i]@[0]
    }

    /// Every record that a run produces, in order.
    pub open spec fn stream(&self) -> Seq<Seq<u8>> {
        records_upto(self.charsets@, self.minlen as nat, self.maxlen as int)
    }

    /// The number of words of each length from `minlen` to `len`.
    pub open spec fn count_upto(&self, len: int) -> nat
        decreases len,
    {
        if len < self.minlen || len <= 0 {
            0
        } else {
            self.count_upto(len - 1) + product(radix_of(self.charsets@).take(len))
        }
    }

    pub fn new(
        mask: &str,
        minlen: Option<usize>,
        maxlen: Option<usize>,
        custom_charsets: &[&str],
    ) -> (r: Result<CharsetGenerator, CrackenError>)
        ensures
            r is Ok <==> charset_gen_outcome(mask.spec_bytes(), minlen, maxlen, custom_bytes(custom_charsets@)) is Ok,
            r is Err ==> r->Err_0 == charset_gen_outcome(mask.spec_bytes(), minlen, maxlen, custom_bytes(custom_charsets@))->Err_0,
            r is Ok ==> charset_gen_built(r->Ok_0, mask, minlen, maxlen, custom_bytes(custom_charsets@)),
    {
        let ghost customs = custom_bytes(custom_charsets@);
        let ops = match parse_mask(mask) {
            Ok(ops) => ops,
            Err(e) => {
                return Err(e);
            },
        };
        let n = ops.len();
        // the largest custom charset index
        let mut best: Option<usize> = None;
        let mut i: usize = 0;
        while i < n
            invariant
                n == ops@.len(),
                i <= n,
                best == max_custom(ops@.subrange(0, i as int)),
            decreases n - i,
        {
            assert(ops@.subrange(0, i + 1).drop_last() == ops@.subrange(0, i as int));
            if let MaskOp::CustomCharset(idx) = ops[i] {
                best = match best {
                    Some(j) => Some(if idx > j { idx } else { j }),
                    None => Some(idx),
                };
            }
            i = i + 1;
        }
        assert(ops@.subrange(0, n as int) == ops@);
        if let Some(m) = best {
            if m >= custom_charsets.len() {
                return Err(CrackenError::CustomCharsetCount { index: m, provided: custom_charsets.len() });
            }
        }
        // one charset per operation
        let mut charsets: Vec<Charset> = Vec::new();
        let mut min_word: Vec<u8> = Vec::new();
        let mut i: usize = 0;
        while i < n
            invariant
                n == ops@.len(),
                ops@ == parse_spec(mask.spec_bytes())->0,
                mask_valid(mask.spec_bytes()),
                customs == custom_bytes(custom_charsets@),
                max_custom(ops@) is Some ==> max_custom(ops@)->0 < customs.len(),
                i <= n,
                charsets@.len() == i,
                min_word@.len() == i,
                first_op_error(ops@.subrange(0, i as int), customs) is None,
                forall|j: int| 0 <= j < i ==> (#[trigger] charsets@[j]).wf(),
                forall|j: int| 0 <= j < i ==> #[trigger] min_word@[j] == charsets@[j]@[0],
                forall|j: int, b: u8| 0 <= j < i ==> (#[trigger] charsets@[j]@.contains(b) <==> op_member(ops@[j], customs, b)),
            decreases n - i,
        {
            assert(ops@.subrange(0, i + 1).drop_last() == ops@.subrange(0, i as int));
            assert(ops@.subrange(0, i + 1).last() == ops@[i as int]);
            let cs = match ops[i] {
                MaskOp::Char(c) => {
                    let one: Vec<u8> = vec![c];
                    let r = Charset::from_chars(one.as_slice());
                    assert forall|b: u8| one@.contains(b) <==> b == c by {
                        if b == c {
                            assert(one@[0] == b);
                        }
                    }
                    r
                },
                MaskOp::BuiltinCharset(s) => {
                    proof {
                        lemma_parsed_builtin(mask.spec_bytes(), i as int);
                    }
                    Charset::from_symbol(s)
                },
                MaskOp::CustomCharset(idx) => {
                    proof {
                        lemma_custom_le_max(ops@, i as int);
                    }
                    let chars: &str = custom_charsets[idx];
                    let bytes = chars.as_bytes();
                    assert(customs[idx as int] == bytes@);
                    if bytes.len() == 0 {
                        proof {
                            lemma_first_error_prefix(ops@, i + 1, customs);
                        }
                        return Err(CrackenError::EmptyCustomCharset { index: idx });
                    }
                    Charset::from_chars(bytes)
                },
                MaskOp::Wordlist(idx) => {
                    proof {
                        lemma_first_error_prefix(ops@, i + 1, customs);
                    }
                    return Err(CrackenError::UnspecifiedWordlist { index: idx, provided: 0 });
                },
            };
            min_word.push(cs.min_char);
            charsets.push(cs);
            i = i + 1;
        }
        assert(ops@.subrange(0, n as int) == ops@);
        let lo = match minlen {
            Some(v) => v,
            None => n,
        };
        let hi = match maxlen {
            Some(v) => v,
            None => n,
        };
        if !(0 < lo && lo <= hi && lo <= n) {
            return Err(CrackenError::InvalidMinLen);
        }
        if hi > n {
            return Err(CrackenError::InvalidMaxLen);
        }
        let mut text = String::new();
        text.append(mask);
        Ok(CharsetGenerator { mask: text, minlen: lo, maxlen: hi, charsets, min_word })
    }
}

/// An error found in a prefix of the operations is the error of all of them.
proof fn lemma_first_error_prefix(ops: Seq<MaskOp>, j: int, customs: Seq<Seq<u8>>)
    requires
        0 <= j <= ops.len(),
        first_op_error(ops.subrange(0, j), customs) is Some,
    ensures
        first_op_error(ops, customs) == first_op_error(ops.subrange(0, j), customs),
    decreases ops.len(),
{
    if j < ops.len() {
        assert(ops.drop_last().subrange(0, j) == ops.subrange(0, j));
        lemma_first_error_prefix(ops.drop_last(), j, customs);
    } else {
        assert(ops.subrange(0, j) == ops);
    }
}

impl CharsetGenerator {
    /// `st` is a state of a run of this generator.
    pub closed spec fn state_inv(&self, st: &CharsetGenState) -> bool {
        let cs = self.charsets@;
        let len = st.pwdlen as int;
        let radix = radix_of(cs).take(len);
        if st.done {
            st.pos@ == self.stream().len()
        } else {
            &&& self.minlen <= st.pwdlen <= self.maxlen
            &&& st.word@.len() == len + 1
            &&& st.word@[len] == 10
            &&& st.idx@ < odometer(radix).len()
            &&& st.word@.take(len) == render(cs, odometer(radix)[st.idx@ as int])
            &&& st.pos@ == records_upto(cs, self.minlen as nat, len - 1).len() + st.idx@
        }
    }

    proof fn lemma_radix_positive(&self, len: int)
        requires
            self.wf(),
            0 <= len <= self.charsets@.len(),
        ensures
            positive(radix_of(self.charsets@).take(len)),
            radix_of(self.charsets@).take(len).len() == len,
    {
        let radix = radix_of(self.charsets@).take(len);
        assert forall|i: int| 0 <= i < radix.len() implies #[trigger] radix[i] >= 1 by {
            assert(self.charsets@[i].wf());
        }
    }

    /// The state before the first record of words of length `len`.
    fn state_at_length(&self, len: usize, pos: Ghost<nat>) -> (st: CharsetGenState)
        requires
            self.wf(),
            self.minlen <= len <= self.maxlen,
            pos@ == records_upto(self.charsets@, self.minlen as nat, len - 1).len(),
        ensures
            self.state_inv(&st),
            !st.finished(),
            st.pos() == pos@,
    {
        let mut word: Vec<u8> = Vec::new();
        let mut i: usize = 0;
        while i < len
            invariant
                self.wf(),
                len <= self.charsets@.len(),
                i <= len,
                word@.len() == i,
                forall|j: int| 0 <= j < i ==> #[trigger] word@[j] == self.charsets@[j]@[0],
            decreases len - i,
        {
            word.push(self.min_word[i]);
            i = i + 1;
        }
        word.push(10);
        proof {
            let radix = radix_of(self.charsets@).take(len as int);
            self.lemma_radix_positive(len as int);
            lemma_odometer_first(radix);
            assert(word@.take(len as int) == render(self.charsets@, odometer(radix)[0]));
        }
        CharsetGenState { pwdlen: len, word, done: false, idx: Ghost(0), pos }
    }

    /// The state before the first record.
    pub fn start(&self) -> (st: CharsetGenState)
        requires
            self.wf(),
        ensures
            self.state_inv(&st),
            !st.finished(),
            st.pos() == 0,
            st.pos() < self.stream().len(),
    {
        proof {
            assert(records_upto(self.charsets@, self.minlen as nat, self.minlen - 1).len() == 0);
        }
        let st = self.state_at_length(self.minlen, Ghost(0));
        proof {
            self.lemma_pos_bound(&st);
        }
        st
    }

    proof fn lemma_stream_at(&self, len: int, idx: int)
        requires
            self.wf(),
            self.minlen <= len <= self.maxlen,
            0 <= idx < length_records(self.charsets@, len as nat).len(),
        ensures
            records_upto(self.charsets@, self.minlen as nat, len - 1).len() + idx < self.stream().len(),
            self.stream()[records_upto(self.charsets@, self.minlen as nat, len - 1).len() + idx]
                == length_records(self.charsets@, len as nat)[idx],
            records_upto(self.charsets@, self.minlen as nat, len).len()
                == records_upto(self.charsets@, self.minlen as nat, len - 1).len() + length_records(self.charsets@, len as nat).len(),
    {
        let cs = self.charsets@;
        let lo = self.minlen as nat;
        let k = records_upto(cs, lo, len - 1).len() + idx;
        assert(records_upto(cs, lo, len) == records_upto(cs, lo, len - 1) + length_records(cs, len as nat));
        lemma_records_prefix(cs, lo, len, self.maxlen as int);
    }

    /// Writes the current record and moves to the next one.
    fn emit_one(&self, st: &mut CharsetGenState, buf: &mut StackBuf)
        requires
            self.wf(),
            self.state_inv(old(st)),
            !old(st).finished(),
            old(buf).wf(),
            old(buf)@.len() + old(st).pwdlen + 1 <= BUFFER_SIZE,
        ensures
            self.state_inv(final(st)),
            final(buf).wf(),
            old(st).pos() < self.stream().len(),
            final(st).pos() == old(st).pos() + 1,
            final(buf)@ == old(buf)@ + self.stream()[old(st).pos() as int],
    {
        let ghost cs = self.charsets@;
        let len = st.pwdlen;
        let ghost radix = radix_of(cs).take(len as int);
        let ghost idx = st.idx@;
        let ghost d = odometer(radix)[idx as int];
        proof {
            self.lemma_radix_positive(len as int);
            lemma_odometer_entry(radix, idx as int);
            self.lemma_stream_at(len as int, idx as int);
            assert(st.word@ == render(cs, d).push(10));
            assert(self.stream()[st.pos@ as int] == st.word@);
        }
        buf.write(st.word.as_slice());
        proof {
            assert(radix.take(len as int) == radix);
            assert(d.take(len as int) == d);
            assert(advance(radix, d).0 + zeros(0) == advance(radix, d).0);
        }
        let mut p: usize = len;
        let mut stop = false;
        while p > 0 && !stop
            invariant
                self.wf(),
                cs == self.charsets@,
                len <= self.charsets@.len(),
                radix == radix_of(cs).take(len as int),
                positive(radix),
                digits_valid(radix, d),
                p <= len,
                st.pos@ == old(st).pos@,
                st.idx@ == idx,
                st.pwdlen == len,
                !st.done,
                st.word@.len() == len + 1,
                st.word@[len as int] == 10,
                stop ==> st.word@.take(len as int) == render(cs, advance(radix, d).0) && !advance(radix, d).1,
                !stop ==> forall|q: int| 0 <= q < p ==> #[trigger] st.word@[q] == cs[q]@[d[q] as int],
                !stop ==> forall|q: int| p <= q < len ==> #[trigger] st.word@[q] == cs[q]@[0],
                !stop ==> advance(radix, d) == (advance(radix.take(p as int), d.take(p as int)).0 + zeros(
                    (len - p) as nat), advance(radix.take(p as int), d.take(p as int)).1),
            decreases 2 * p + (if stop { 0int } else { 1int }),
        {
            let q = p - 1;
            let old_c = st.word[q];
            let new_c = self.charsets[q].next(old_c);
            let ghost k: int = cs[q as int]@.len() as int;
            let ghost dq: int = d[q as int] as int;
            proof {
                assert(cs[q as int].wf());
                assert(radix[q as int] == k);
                assert(dq < k);
                assert(cs[q as int].jmp_table@[cs[q as int]@[dq] as int] == cs[q as int]@[(dq + 1) % k]);
                let rp = radix.take(p as int);
                let dp = d.take(p as int);
                assert(rp.drop_last() == radix.take(q as int));
                assert(dp.drop_last() == d.take(q as int));
                assert(dp.last() == d[q as int]);
                assert(rp[dp.len() - 1] == k);
                if dq + 1 < k {
                    assert((dq + 1) % k == dq + 1) by (nonlinear_arith)
                        requires 0 <= dq + 1 < k;
                    assert(old_c < new_c);
                } else {
                    assert((dq + 1) % k == 0) by (nonlinear_arith)
                        requires dq + 1 == k, k > 0;
                    assert(new_c == cs[q as int]@[0]);
                    if dq > 0 {
                        assert(cs[q as int]@[0] < cs[q as int]@[dq]);
                    }
                    assert(!(old_c < new_c));
                    assert(zeros((len - q - 1) as nat).push(0) == zeros((len - q) as nat)) by {
                        assert(zeros((len - q - 1) as nat).push(0) =~= zeros((len - q) as nat));
                    }
                    let a = advance(radix.take(q as int), d.take(q as int));
                    assert(a.0.push(0) + zeros((len - p) as nat) == a.0 + zeros((len - q) as nat));
                }
            }
            st.word.set(q, new_c);
            if old_c < new_c {
                stop = true;
                proof {
                    let nd = d.take(q as int).push(d[q as int] + 1) + zeros((len - p) as nat);
                    assert(advance(radix, d).0 == nd);
                    assert(st.word@.take(len as int) =~= render(cs, nd));
                }
            } else {
                p = q;
            }
        }
        proof {
            if !stop {
                assert(radix.take(0) == Seq::<nat>::empty());
                assert(d.take(0) == Seq::<nat>::empty());
                assert(Seq::<nat>::empty() + zeros(len as nat) == zeros(len as nat));
                assert(advance(radix, d) == (zeros(len as nat), true));
            }
            lemma_advance(radix, idx as int);
        }
        if stop {
            st.idx = Ghost((idx + 1) as nat);
            st.pos = Ghost(st.pos@ + 1);
        } else {
            proof {
                assert(idx + 1 == odometer(radix).len());
                assert(length_records(cs, len as nat).len() == odometer(radix).len());
                assert(records_upto(cs, self.minlen as nat, len as int).len() == st.pos@ + 1);
            }
            if len < self.maxlen {
                *st = self.state_at_length(len + 1, Ghost(st.pos@ + 1));
            } else {
                st.done = true;
                st.pos = Ghost(st.pos@ + 1);
            }
        }
    }

    /// Writes records while the buffer has room for them; the state moves past them.
    pub fn gen_batch(&self, st: &mut CharsetGenState, buf: &mut StackBuf)
        requires
            self.wf(),
            self.state_inv(old(st)),
            old(buf).wf(),
        ensures
            self.state_inv(final(st)),
            final(buf).wf(),
            old(st).pos() <= final(st).pos() <= self.stream().len(),
            final(buf)@ == old(buf)@ + self.stream().subrange(old(st).pos() as int, final(st).pos() as int).flatten(),
            final(st).finished() <==> final(st).pos() == self.stream().len(),
            !old(st).finished() && old(buf)@.len() + MAX_WORD_SIZE <= BUFFER_SIZE ==> final(st).pos() > old(st).pos(),
    {
        proof {
            self.lemma_pos_bound(st);
            assert(self.stream().subrange(st.pos@ as int, st.pos@ as int) == Seq::<Seq<u8>>::empty());
        }
        while !st.done && buf.pos() + st.pwdlen + 1 <= BUFFER_SIZE
            invariant
                self.wf(),
                self.state_inv(st),
                buf.wf(),
                old(st).pos() <= st.pos() <= self.stream().len(),
                st.finished() <==> st.pos() == self.stream().len(),
                buf@ == old(buf)@ + self.stream().subrange(old(st).pos() as int, st.pos() as int).flatten(),
                !old(st).finished() && old(buf)@.len() + MAX_WORD_SIZE <= BUFFER_SIZE && st.pos() == old(st).pos()
                    ==> buf@.len() + MAX_WORD_SIZE <= BUFFER_SIZE && !st.finished(),
            decreases self.stream().len() - st.pos(),
        {
            let ghost start_pos = st.pos@;
            self.emit_one(st, buf);
            proof {
                self.lemma_pos_bound(st);
                let s = self.stream();
                assert(s.subrange(old(st).pos() as int, start_pos as int + 1) == s.subrange(old(st).pos() as int, start_pos as int).push(s[start_pos as int]));
                s.subrange(old(st).pos() as int, start_pos as int).lemma_flatten_push(s[start_pos as int]);
            }
        }
    }

    proof fn lemma_pos_bound(&self, st: &CharsetGenState)
        requires
            self.wf(),
            self.state_inv(st),
        ensures
            st.pos() <= self.stream().len(),
            st.finished() <==> st.pos() == self.stream().len(),
            !st.finished() ==> st.pwdlen + 1 <= MAX_WORD_SIZE,
    {
        if !st.done {
            let len = st.pwdlen as int;
            self.lemma_radix_positive(len);
            lemma_odometer_len(radix_of(self.charsets@).take(len));
            self.lemma_stream_at(len, st.idx@ as int);
        }
    }

    /// The whole output of a run.
    pub fn gen_to_vec(&self) -> (r: Vec<u8>)
        requires
            self.wf(),
        ensures
            r@ == self.stream().flatten(),
    {
        let mut out: Vec<u8> = Vec::new();
        let mut st = self.start();
        let mut buf = StackBuf::new();
        proof {
            self.lemma_pos_bound(&st);
            assert(self.stream().subrange(0, 0) == Seq::<Seq<u8>>::empty());
        }
        while !st.is_done()
            invariant
                self.wf(),
                self.state_inv(&st),
                st.finished() <==> st.pos() == self.stream().len(),
                st.pos() <= self.stream().len(),
                buf.wf(),
                buf@ == Seq::<u8>::empty(),
                out@ == self.stream().subrange(0, st.pos() as int).flatten(),
            decreases self.stream().len() - st.pos(),
        {
            let ghost start_pos = st.pos();
            self.gen_batch(&mut st, &mut buf);
            let data = buf.getdata();
            let mut i: usize = 0;
            while i < data.len()
                invariant
                    i <= data@.len(),
                    start_pos <= st.pos() <= self.stream().len(),
                    out@ == self.stream().subrange(0, start_pos as int).flatten() + data@.subrange(0, i as int),
                decreases data@.len() - i,
            {
                out.push(data[i]);
                assert(data@.subrange(0, i + 1) == data@.subrange(0, i as int).push(data@[i as int]));
                i = i + 1;
            }
            proof {
                assert(data@.subrange(0, data@.len() as int) == data@);
                lemma_flatten_split(self.stream(), start_pos as int, st.pos() as int);
            }
            buf.clear();
        }
        proof {
            assert(self.stream().subrange(0, self.stream().len() as int) == self.stream());
        }
        out
    }

    /// The number of words a run produces: the sum, for each length from `minlen` to
    /// `maxlen`, of the product of the sizes of the charsets up to that length.
    pub fn combinations(&self) -> (r: BigUint)
        requires
            self.wf(),
        ensures
            big_value(r) == self.count_upto(self.maxlen as int),
    {
        let mut total = big_from_u64(0);
        let mut prod = big_from_u64(1);
        let mut len: usize = 0;
        proof {
            assert(radix_of(self.charsets@).take(0).len() == 0);
        }
        while len < self.maxlen
            invariant
                self.wf(),
                len <= self.maxlen,
                big_value(prod) == product(radix_of(self.charsets@).take(len as int)),
                big_value(total) == self.count_upto(len as int),
            decreases self.maxlen - len,
        {
            let k = self.charsets[len].len() as u64;
            prod = big_mul_u64(&prod, k);
            proof {
                let radix = radix_of(self.charsets@);
                assert(radix.take(len + 1).drop_last() == radix.take(len as int));
                assert(radix.take(len + 1).last() == k);
            }
            len = len + 1;
            if len >= self.minlen {
                total = big_add(&total, &prod);
            }
        }
        total
    }
}

/// A generator for charset masks or for mixed masks.
pub enum WordGenerator {
    Charset(CharsetGenerator),
    Wordlist(WordlistGenerator),
}

impl WordGenerator {
    pub open spec fn wf(&self) -> bool {
        match self {
            WordGenerator::Charset(g) => g.wf(),
            WordGenerator::Wordlist(g) => g.wf(),
        }
    }

    /// Every record that a run produces, in order.
    pub open spec fn stream(&self) -> Seq<Seq<u8>> {
        match self {
            WordGenerator::Charset(g) => g.stream(),
            WordGenerator::Wordlist(g) => g.stream(),
        }
    }

    /// The number of words a run produces.
    pub fn combinations(&self) -> (r: BigUint)
        requires
            self.wf(),
        ensures
            big_value(r) == self.stream().len(),
    {
        match self {
            WordGenerator::Charset(g) => {
                proof {
                    lemma_count_agreement(g);
                }
                g.combinations()
            },
            WordGenerator::Wordlist(g) => {
                proof {
                    crate::wordlist_gen::lemma_mixed_count_agreement(g);
                }
                g.combinations()
            },
        }
    }

    /// The whole output of a run.
    pub fn gen_to_vec(&self) -> (r: Vec<u8>)
        requires
            self.wf(),
        ensures
            r@ == self.stream().flatten(),
    {
        match self {
            WordGenerator::Charset(g) => g.gen_to_vec(),
            WordGenerator::Wordlist(g) => g.gen_to_vec(),
        }
    }
}

/// Picks the generator for the arguments: charsets only when no wordlist is given; length
/// bounds cannot go with wordlists.
pub fn get_word_generator(
    mask: &str,
    minlen: Option<usize>,
    maxlen: Option<usize>,
    custom_charsets: &[&str],
    wordlists: Vec<Wordlist>,
) -> (r: Result<WordGenerator, CrackenError>)
    requires
        forall|j: int| 0 <= j < wordlists@.len() ==> (#[trigger] wordlists@[j]).wf(),
    ensures
        r is Ok ==> r->Ok_0.wf(),
        wordlists@.len() == 0 ==> (r is Ok <==> charset_gen_outcome(mask.spec_bytes(), minlen, maxlen,
            custom_bytes(custom_charsets@)) is Ok) && (r is Ok ==> r->Ok_0 is Charset) && (r is Err ==> r->Err_0
            == charset_gen_outcome(mask.spec_bytes(), minlen, maxlen, custom_bytes(custom_charsets@))->Err_0),
        wordlists@.len() == 0 && r is Ok ==> charset_gen_built(r->Ok_0->Charset_0, mask, minlen, maxlen,
            custom_bytes(custom_charsets@)),
        wordlists@.len() > 0 && r is Ok ==> crate::wordlist_gen::wordlist_gen_built(r->Ok_0->Wordlist_0, mask,
            wordlists@, custom_bytes(custom_charsets@)),
        wordlists@.len() > 0 && (minlen is Some || maxlen is Some) ==> r == Err::<WordGenerator, CrackenError>(
            CrackenError::LengthWithWordlists),
        wordlists@.len() > 0 && minlen is None && maxlen is None ==> (r is Ok <==> crate::wordlist_gen::wordlist_gen_outcome(
            mask.spec_bytes(), wordlists@, custom_bytes(custom_charsets@)) is Ok) && (r is Ok ==> r->Ok_0 is Wordlist)
            && (r is Err ==> r->Err_0 == crate::wordlist_gen::wordlist_gen_outcome(mask.spec_bytes(), wordlists@,
            custom_bytes(custom_charsets@))->Err_0),
{
    if wordlists.len() == 0 {
        match CharsetGenerator::new(mask, minlen, maxlen, custom_charsets) {
            Ok(g) => Ok(WordGenerator::Charset(g)),
            Err(e) => Err(e),
        }
    } else if minlen.is_some() || maxlen.is_some() {
        Err(CrackenError::LengthWithWordlists)
    } else {
        match WordlistGenerator::new(mask, wordlists, custom_charsets) {
            Ok(g) => Ok(WordGenerator::Wordlist(g)),
            Err(e) => Err(e),
        }
    }
}

/// Where record `k` of the stream comes from: the words of length `len`, at `idx`.
proof fn lemma_record_origin(g: &CharsetGenerator, k: int) -> (li: (int, int))
    requires
        g.wf(),
        0 <= k < g.stream().len(),
    ensures
        g.minlen <= li.0 <= g.maxlen,
        0 <= li.1 < odometer(radix_of(g.charsets@).take(li.0)).len(),
        k == records_upto(g.charsets@, g.minlen as nat, li.0 - 1).len() + li.1,
        g.stream()[k] == render(g.charsets@, odometer(radix_of(g.charsets@).take(li.0))[li.1]).push(10),
{
    record_origin_upto(g, k, g.maxlen as int)
}

proof fn record_origin_upto(g: &CharsetGenerator, k: int, hi: int) -> (li: (int, int))
    requires
        g.wf(),
        hi <= g.maxlen,
        0 <= k < records_upto(g.charsets@, g.minlen as nat, hi).len(),
    ensures
        g.minlen <= li.0 <= hi,
        0 <= li.1 < odometer(radix_of(g.charsets@).take(li.0)).len(),
        k == records_upto(g.charsets@, g.minlen as nat, li.0 - 1).len() + li.1,
        records_upto(g.charsets@, g.minlen as nat, hi)[k]
            == render(g.charsets@, odometer(radix_of(g.charsets@).take(li.0))[li.1]).push(10),
    decreases hi,
{
    let cs = g.charsets@;
    let lo = g.minlen as nat;
    let base = records_upto(cs, lo, hi - 1).len();
    assert(records_upto(cs, lo, hi) == records_upto(cs, lo, hi - 1) + length_records(cs, hi as nat));
    if k < base {
        let li = record_origin_upto(g, k, hi - 1);
        assert(records_upto(cs, lo, hi)[k] == records_upto(cs, lo, hi - 1)[k]);
        li
    } else {
        (hi, k - base)
    }
}

proof fn lemma_render_injective(cs: Seq<Charset>, radix: Seq<nat>, a: Seq<nat>, b: Seq<nat>)
    requires
        forall|i: int| 0 <= i < cs.len() ==> (#[trigger] cs[i]).wf(),
        radix.len() <= cs.len(),
        forall|i: int| 0 <= i < radix.len() ==> #[trigger] radix[i] == cs[i]@.len(),
        digits_valid(radix, a),
        digits_valid(radix, b),
        a != b,
    ensures
        render(cs, a) != render(cs, b),
{
    assert(a.len() == b.len());
    assert(!(a =~= b));
    let i = choose|i: int| 0 <= i < a.len() && a[i] != b[i];
    assert(cs[i].wf());
    assert(a[i] < radix[i] && b[i] < radix[i]);
    if a[i] < b[i] {
        assert(cs[i]@[a[i] as int] < cs[i]@[b[i] as int]);
    } else {
        assert(cs[i]@[b[i] as int] < cs[i]@[a[i] as int]);
    }
    assert(render(cs, a)[i] != render(cs, b)[i]);
}

/// The number of records a run produces is the count that `combinations` returns; each
/// ends with a newline, and where no charset holds the newline byte it is the record's
/// only one.
pub proof fn lemma_count_agreement(g: &CharsetGenerator)
    requires
        g.wf(),
    ensures
        g.stream().len() == g.count_upto(g.maxlen as int),
        forall|k: int| 0 <= k < g.stream().len() ==> (#[trigger] g.stream()[k]).len() >= 1 && g.stream()[k].last() == 10,
        (forall|i: int| 0 <= i < g.charsets@.len() ==> !(#[trigger] g.charsets@[i]@).contains(10u8)) ==>
            forall|k: int, j: int| 0 <= k < g.stream().len() && 0 <= j < g.stream()[k].len() - 1 ==> #[trigger] g.stream()[k][j] != 10,
{
    lemma_stream_count(g, g.maxlen as int);
    assert forall|k: int| 0 <= k < g.stream().len() implies (#[trigger] g.stream()[k]).len() >= 1 && g.stream()[k].last() == 10 by {
        let li = lemma_record_origin(g, k);
    }
    if forall|i: int| 0 <= i < g.charsets@.len() ==> !(#[trigger] g.charsets@[i]@).contains(10u8) {
        assert forall|k: int, j: int| 0 <= k < g.stream().len() && 0 <= j < g.stream()[k].len() - 1 implies #[trigger] g.stream()[k][j] != 10 by {
            let li = lemma_record_origin(g, k);
            let radix = radix_of(g.charsets@).take(li.0);
            g.lemma_radix_positive(li.0);
            lemma_odometer_entry(radix, li.1);
            let d = odometer(radix)[li.1];
            assert(g.stream()[k][j] == g.charsets@[j]@[d[j] as int]);
            assert(d[j] < g.charsets@[j]@.len());
            assert(g.charsets@[j]@.contains(g.stream()[k][j]));
        }
    }
}

proof fn lemma_stream_count(g: &CharsetGenerator, hi: int)
    requires
        g.wf(),
        hi <= g.maxlen,
    ensures
        records_upto(g.charsets@, g.minlen as nat, hi).len() == g.count_upto(hi),
    decreases hi,
{
    if !(hi < g.minlen || hi <= 0) {
        lemma_stream_count(g, hi - 1);
        lemma_odometer_len(radix_of(g.charsets@).take(hi));
    }
}

/// A word is produced exactly when its length lies between `minlen` and `maxlen` and each
/// of its bytes belongs to the charset of its position; no record is produced twice.
pub proof fn lemma_coverage(g: &CharsetGenerator, w: Seq<u8>)
    requires
        g.wf(),
    ensures
        (exists|k: int| 0 <= k < g.stream().len() && g.stream()[k] == w.push(10)) <==> (g.minlen <= w.len()
            <= g.maxlen && forall|i: int| 0 <= i < w.len() ==> #[trigger] g.charsets@[i]@.contains(w[i])),
        forall|a: int, b: int| 0 <= a < b < g.stream().len() ==> #[trigger] g.stream()[a] != #[trigger] g.stream()[b],
{
    let cs = g.charsets@;
    if exists|k: int| 0 <= k < g.stream().len() && g.stream()[k] == w.push(10) {
        let k = choose|k: int| 0 <= k < g.stream().len() && g.stream()[k] == w.push(10);
        let li = lemma_record_origin(g, k);
        let radix = radix_of(cs).take(li.0);
        g.lemma_radix_positive(li.0);
        lemma_odometer_entry(radix, li.1);
        let d = odometer(radix)[li.1];
        assert(w == render(cs, d)) by {
            assert(w == w.push(10).drop_last());
            assert(render(cs, d) == render(cs, d).push(10).drop_last());
        }
        assert forall|i: int| 0 <= i < w.len() implies #[trigger] cs[i]@.contains(w[i]) by {
            assert(d[i] < radix[i]);
            assert(w[i] == cs[i]@[d[i] as int]);
        }
    }
    if g.minlen <= w.len() <= g.maxlen && forall|i: int| 0 <= i < w.len() ==> #[trigger] cs[i]@.contains(w[i]) {
        let len = w.len() as int;
        let radix = radix_of(cs).take(len);
        g.lemma_radix_positive(len);
        let d = Seq::new(w.len(), |i: int| choose|j: nat| j < cs[i]@.len() && cs[i]@[j as int] == w[i]);
        assert forall|i: int| 0 <= i < d.len() implies #[trigger] d[i] < radix[i] && cs[i]@[d[i] as int] == w[i] by {
            assert(cs[i]@.contains(w[i]));
            let j0 = choose|j: int| 0 <= j < cs[i]@.len() && cs[i]@[j] == w[i];
            assert(exists|j: nat| j < cs[i]@.len() && cs[i]@[j as int] == w[i]) by {
                assert((j0 as nat) < cs[i]@.len() && cs[i]@[(j0 as nat) as int] == w[i]);
            }
        }
        assert(render(cs, d) == w);
        lemma_odometer_complete(radix, d);
        let idx = choose|n: int| 0 <= n < odometer(radix).len() && odometer(radix)[n] == d;
        g.lemma_stream_at(len, idx);
        let k = records_upto(cs, g.minlen as nat, len - 1).len() + idx;
        assert(g.stream()[k] == w.push(10));
    }
    assert forall|a: int, b: int| 0 <= a < b < g.stream().len() implies #[trigger] g.stream()[a] != #[trigger] g.stream()[b] by {
        let la = lemma_record_origin(g, a);
        let lb = lemma_record_origin(g, b);
        let ra = radix_of(cs).take(la.0);
        let rb = radix_of(cs).take(lb.0);
        g.lemma_radix_positive(la.0);
        g.lemma_radix_positive(lb.0);
        lemma_odometer_entry(ra, la.1);
        lemma_odometer_entry(rb, lb.1);
        if la.0 == lb.0 {
            assert(la.1 != lb.1);
            lemma_odometer_injective(ra, la.1, lb.1);
            lemma_render_injective(cs, ra, odometer(ra)[la.1], odometer(rb)[lb.1]);
            let x = render(cs, odometer(ra)[la.1]);
            let y = render(cs, odometer(rb)[lb.1]);
            assert(x.push(10).drop_last() == x);
            assert(y.push(10).drop_last() == y);
        } else {
            assert(g.stream()[a].len() != g.stream()[b].len());
        }
    }
}

/// Consecutive records: either the next word length starts, with every position at the
/// smallest byte of its charset, or exactly one position `p` moves to the next byte of
/// its charset, the positions left of it stay, and every position right of it had gone
/// through its whole charset and starts over.
pub proof fn lemma_ordering(g: &CharsetGenerator, k: int)
    requires
        g.wf(),
        0 <= k,
        k + 1 < g.stream().len(),
    ensures
        ({
            let a = g.stream()[k].drop_last();
            let b = g.stream()[k + 1].drop_last();
            let cs = g.charsets@;
            ||| (b.len() == a.len() + 1 && forall|i: int| 0 <= i < b.len() ==> #[trigger] b[i] == cs[i]@[0])
            ||| (b.len() == a.len() && exists|p: int| #![trigger a[p]] 0 <= p < a.len()
                    && (forall|q: int| 0 <= q < p ==> #[trigger] b[q] == a[q])
                    && a[p] < b[p] && cs[p]@.contains(b[p])
                    && (forall|c: u8| #[trigger] cs[p]@.contains(c) ==> !(a[p] < c < b[p]))
                    && (forall|q: int| p < q < a.len() ==> #[trigger] a[q] == cs[q]@.last() && b[q] == cs[q]@[0]))
        }),
{
    let cs = g.charsets@;
    let li = lemma_record_origin(g, k);
    let len = li.0;
    let idx = li.1;
    let radix = radix_of(cs).take(len);
    g.lemma_radix_positive(len);
    lemma_odometer_entry(radix, idx);
    lemma_advance(radix, idx);
    let d = odometer(radix)[idx];
    let a = g.stream()[k].drop_last();
    let b = g.stream()[k + 1].drop_last();
    assert(a == render(cs, d));
    if idx + 1 < odometer(radix).len() {
        g.lemma_stream_at(len, idx + 1);
        lemma_odometer_entry(radix, idx + 1);
        let e = odometer(radix)[idx + 1];
        assert(b == render(cs, e));
        lemma_advance_is_step(radix, d);
        let p = choose|p: int| is_step(radix, d, e, p);
        assert(cs[p].wf());
        assert(b[p] == cs[p]@[d[p] as int + 1]);
        assert(a[p] < b[p]);
        assert forall|c: u8| #[trigger] cs[p]@.contains(c) implies !(a[p] < c < b[p]) by {
            let j = choose|j: int| 0 <= j < cs[p]@.len() && cs[p]@[j] == c;
            if j <= d[p] {
                if j < d[p] {
                    assert(cs[p]@[j] < cs[p]@[d[p] as int]);
                }
            } else {
                if j > d[p] + 1 {
                    assert(cs[p]@[d[p] as int + 1] < cs[p]@[j]);
                }
            }
        }
        assert forall|q: int| p < q < a.len() implies #[trigger] a[q] == cs[q]@.last() && b[q] == cs[q]@[0] by {
            assert(d[q] + 1 == radix[q]);
        }
        assert forall|q: int| 0 <= q < p implies #[trigger] b[q] == a[q] by {
            assert(e[q] == d[q]);
        }
    } else {
        lemma_odometer_len(radix);
        assert(length_records(cs, len as nat).len() == odometer(radix).len());
        g.lemma_stream_at(len, idx);
        if len == g.maxlen {
            assert(records_upto(cs, g.minlen as nat, len) == g.stream());
        }
        assert(len + 1 <= g.maxlen);
        let r1 = radix_of(cs).take(len + 1);
        g.lemma_radix_positive(len + 1);
        lemma_odometer_first(r1);
        g.lemma_stream_at(len + 1, 0);
        assert(b == render(cs, zeros((len + 1) as nat)));
    }
}

/// Each records range up to `len` is a prefix of the range up to `hi`.
proof fn lemma_records_prefix(cs: Seq<Charset>, lo: nat, len: int, hi: int)
    requires
        len <= hi,
    ensures
        records_upto(cs, lo, len).len() <= records_upto(cs, lo, hi).len(),
        forall|k: int| 0 <= k < records_upto(cs, lo, len).len() ==> #[trigger] records_upto(cs, lo, hi)[k]
            == records_upto(cs, lo, len)[k],
    decreases hi - len,
{
    if len < hi {
        lemma_records_prefix(cs, lo, len, hi - 1);
        if !(hi < lo || hi <= 0) {
            assert(records_upto(cs, lo, hi) == records_upto(cs, lo, hi - 1) + length_records(cs, hi as nat));
        }
    }
}

/// Flattening a range splits at any point inside it.
pub proof fn lemma_flatten_split(s: Seq<Seq<u8>>, a: int, b: int)
    requires
        0 <= a <= b <= s.len(),
    ensures
        s.subrange(0, b).flatten() == s.subrange(0, a).flatten() + s.subrange(a, b).flatten(),
    decreases b - a,
{
    if a == b {
        assert(s.subrange(a, b) == Seq::<Seq<u8>>::empty());
        assert(s.subrange(0, b) == s.subrange(0, a));
        assert(s.subrange(0, a).flatten() + Seq::<u8>::empty() == s.subrange(0, a).flatten());
    } else {
        lemma_flatten_split(s, a, b - 1);
        assert(s.subrange(0, b) == s.subrange(0, b - 1).push(s[b - 1]));
        assert(s.subrange(a, b) == s.subrange(a, b - 1).push(s[b - 1]));
        s.subrange(0, b - 1).lemma_flatten_push(s[b - 1]);
        s.subrange(a, b - 1).lemma_flatten_push(s[b - 1]);
    }
}

proof fn lemma_custom_le_max(ops: Seq<MaskOp>, k: int)
    requires
        0 <= k < ops.len(),
        ops[k] is CustomCharset,
    ensures
        max_custom(ops) is Some,
        ops[k]->CustomCharset_0 <= max_custom(ops)->0,
    decreases ops.len(),
{
    if k < ops.len() - 1 {
        lemma_custom_le_max(ops.drop_last(), k);
    }
}

/// A builtin operation that the parser gives names a builtin charset.
pub(crate) proof fn lemma_parsed_builtin(m: Seq<u8>, k: int)
    requires
        parse_spec(m) is Some,
        0 <= k < parse_spec(m)->0.len(),
        parse_spec(m)->0[k] is BuiltinCharset,
    ensures
        is_builtin_symbol(parse_spec(m)->0[k]->BuiltinCharset_0),
    decreases m.len(),
{
    let ops = parse_spec(m)->0;
    if m[0] == 0x5c {
        if k > 0 {
            lemma_parsed_builtin(m.subrange(2, m.len() as int), k - 1);
        }
    } else if m[0] == 0x3f {
        if m.len() >= 3 && m[1] == 0x77 && crate::mask::builtin_of(m[1]) is None && !crate::mask::is_index_digit(m[1]) {
            if k > 0 {
                lemma_parsed_builtin(m.subrange(3, m.len() as int), k - 1);
            }
        } else if k > 0 {
            lemma_parsed_builtin(m.subrange(2, m.len() as int), k - 1);
        }
    } else {
        if k > 0 {
            lemma_parsed_builtin(m.subrange(1, m.len() as int), k - 1);
        }
    }
}

} // verus!
