use vstd::prelude::*;
use vstd::seq_lib::lemma_flatten_concat;
use vstd::string::StringSliceAdditionalSpecFns;

use num_bigint::BigUint;

use crate::bignum::{big_from_u64, big_mul_u64, big_value};
use crate::charsets::Charset;
use crate::error::CrackenError;
use crate::generators::{custom_bytes, lemma_flatten_split, op_member};
use crate::mask::{customs_below, mask_valid, max_custom, max_wordlist, parse_mask, parse_spec, validate_charsets, validate_wordlists, wordlists_below, MaskOp};
use crate::odometer::{
    advance, digits_valid, lemma_advance, lemma_odometer_entry, lemma_odometer_first, lemma_odometer_len,
    odometer, positive, product, zeros,
};
use crate::stackbuf::StackBuf;
use crate::wordlists::{Wordlist, WordlistIterator};
use crate::{BUFFER_SIZE, MAX_WORD_SIZE};

verus! {

/// What a position of a mixed mask draws from.
pub enum WordlistItem {
    Charset(Charset),
    /// A wordlist of the generator, by index.
    Wordlist(usize),
}

/// The byte strings that a position can take, in enumeration order.
pub open spec fn item_options(item: WordlistItem, wls: Seq<Wordlist>) -> Seq<Seq<u8>> {
    match item {
        WordlistItem::Charset(c) => c@.map_values(|b: u8| seq![b]),
        WordlistItem::Wordlist(j) => wls[j as int]@,
    }
}

/// `g` is the generator that `WordlistGenerator::new` builds from these arguments: its
/// mask, its wordlists, and for each mask position the wordlist it names or the charset
/// that the operation there stands for.
pub open spec fn wordlist_gen_built(g: WordlistGenerator, mask: &str, wls: Seq<Wordlist>, customs: Seq<Seq<u8>>) -> bool {
    let ops = parse_spec(mask.spec_bytes())->0;
    &&& g.wf()
    &&& g.mask@ == mask@
    &&& g.wordlists@ == wls
    &&& g.items@.len() == ops.len()
    &&& forall|i: int| 0 <= i < ops.len() ==> match ops[i] {
        MaskOp::Wordlist(j) => #[trigger] g.items@[i] == WordlistItem::Wordlist(j),
        _ => g.items@[i] is Charset && forall|b: u8| (g.items@[i]->Charset_0@.contains(b) <==> op_member(ops[i], customs, b)),
    }
}

/// Generator for masks that mix charsets and wordlists.
pub struct WordlistGenerator {
    pub mask: String,
    pub items: Vec<WordlistItem>,
    pub wordlists: Vec<Wordlist>,
}

impl WordlistGenerator {
    pub open spec fn options(&self, i: int) -> Seq<Seq<u8>> {
        item_options(self.items@[i], self.wordlists@)
    }

    /// How many options each position has.
    pub open spec fn radix(&self) -> Seq<nat> {
        Seq::new(self.items@.len(), |i: int| self.options(i).len())
    }

    /// The options that digit vector `d` picks, position by position.
    pub open spec fn pieces(&self, d: Seq<nat>) -> Seq<Seq<u8>> {
        Seq::new(d.len(), |i: int| self.options(i)[d[i] as int])
    }

    /// The word that digit vector `d` stands for.
    pub open spec fn render(&self, d: Seq<nat>) -> Seq<u8> {
        self.pieces(d).flatten()
    }

    /// Every record that a run produces, in order.
    pub open spec fn stream(&self) -> Seq<Seq<u8>> {
        odometer(self.radix()).map_values(|d: Seq<nat>| self.render(d).push(10u8))
    }

    pub open spec fn item_wf(&self, i: int) -> bool {
        match self.items@[i] {
            WordlistItem::Charset(c) => c.wf(),
            WordlistItem::Wordlist(j) => j < self.wordlists@.len() && self.wordlists@[j as int].wf()
                && self.wordlists@[j as int]@.len() >= 1,
        }
    }

    pub open spec fn wf(&self) -> bool {
        &&& 1 <= self.items@.len() <= MAX_WORD_SIZE - 1
        &&& forall|i: int| 0 <= i < self.items@.len() ==> #[trigger] self.item_wf(i)
        &&& forall|d: Seq<nat>| #[trigger] digits_valid(self.radix(), d) ==> self.render(d).len() + 1 <= MAX_WORD_SIZE
    }

    proof fn lemma_radix_positive(&self)
        requires
            self.wf(),
        ensures
            positive(self.radix()),
            self.radix().len() == self.items@.len(),
    {
        assert forall|i: int| 0 <= i < self.radix().len() implies #[trigger] self.radix()[i] >= 1 by {
            assert(self.item_wf(i));
        }
    }

    /// The number of words a run produces: the product of the option counts.
    pub fn combinations(&self) -> (r: BigUint)
        requires
            self.wf(),
        ensures
            big_value(r) == product(self.radix()),
    {
        let mut prod = big_from_u64(1);
        let mut i: usize = 0;
        proof {
            assert(self.radix().take(0).len() == 0);
        }
        while i < self.items.len()
            invariant
                self.wf(),
                i <= self.items@.len(),
                big_value(prod) == product(self.radix().take(i as int)),
            decreases self.items@.len() - i,
        {
            proof {
                assert(self.item_wf(i as int));
            }
            let k: usize = match &self.items[i] {
                WordlistItem::Charset(c) => c.len(),
                WordlistItem::Wordlist(j) => self.wordlists[*j].len(),
            };
            prod = big_mul_u64(&prod, k as u64);
            proof {
                let radix = self.radix();
                assert(radix.take(i + 1).drop_last() == radix.take(i as int));
                assert(radix.take(i + 1).last() == k);
            }
            i = i + 1;
        }
        proof {
            assert(self.radix().take(self.items@.len() as int) == self.radix());
        }
        prod
    }
}


/// Moves `count` bytes from `from` to `to`; the ranges may overlap.
fn move_bytes(word: &mut Vec<u8>, from: usize, to: usize, count: usize)
    requires
        from + count <= old(word)@.len(),
        to + count <= old(word)@.len(),
    ensures
        final(word)@.len() == old(word)@.len(),
        forall|i: int| 0 <= i < count ==> #[trigger] final(word)@[to + i] == old(word)@[from + i],
        forall|i: int| 0 <= i < old(word)@.len() && !(to <= i < to + count) ==> #[trigger] final(word)@[i] == old(word)@[i],
{
    let total = word.len();
    if to <= from {
        let mut i: usize = 0;
        while i < count
            invariant
                to <= from,
                total == old(word)@.len(),
                from + count <= old(word)@.len(),
                to + count <= old(word)@.len(),
                i <= count,
                word@.len() == old(word)@.len(),
                forall|k: int| 0 <= k < i ==> #[trigger] word@[to + k] == old(word)@[from + k],
                forall|j: int| 0 <= j < old(word)@.len() && !(to <= j < to + i) ==> #[trigger] word@[j] == old(word)@[j],
            decreases count - i,
        {
            let b = word[from + i];
            word.set(to + i, b);
            i = i + 1;
        }
    } else {
        let mut i: usize = count;
        while i > 0
            invariant
                to > from,
                total == old(word)@.len(),
                from + count <= old(word)@.len(),
                to + count <= old(word)@.len(),
                i <= count,
                word@.len() == old(word)@.len(),
                forall|k: int| i <= k < count ==> #[trigger] word@[to + k] == old(word)@[from + k],
                forall|j: int| 0 <= j < old(word)@.len() && !(to + i <= j < to + count) ==> #[trigger] word@[j] == old(word)@[j],
            decreases i,
        {
            let b = word[from + i - 1];
            word.set(to + i - 1, b);
            i = i - 1;
        }
    }
}

/// Writes `w` at `start`.
fn copy_into(word: &mut Vec<u8>, start: usize, w: &[u8])
    requires
        start + w@.len() <= old(word)@.len(),
    ensures
        final(word)@.len() == old(word)@.len(),
        forall|i: int| 0 <= i < w@.len() ==> #[trigger] final(word)@[start + i] == w@[i],
        forall|i: int| 0 <= i < old(word)@.len() && !(start <= i < start + w@.len()) ==> #[trigger] final(word)@[i] == old(word)@[i],
{
    let total = word.len();
    let mut i: usize = 0;
    while i < w.len()
        invariant
            total == old(word)@.len(),
            start + w@.len() <= old(word)@.len(),
            i <= w@.len(),
            word@.len() == old(word)@.len(),
            forall|k: int| 0 <= k < i ==> #[trigger] word@[start + k] == w@[k],
            forall|j: int| 0 <= j < old(word)@.len() && !(start <= j < start + i) ==> #[trigger] word@[j] == old(word)@[j],
        decreases w@.len() - i,
    {
        word.set(start + i, w[i]);
        i = i + 1;
    }
}

/// The current choice of one position.
#[derive(Clone, Copy)]
pub enum Position<'a> {
    CharsetPos(u8),
    WordlistPos(WordlistIterator<'a>),
}

/// Where a mixed generator stands in its output.
pub struct WordlistGenState<'a> {
    word: Vec<u8>,
    word_len: usize,
    positions: Vec<Position<'a>>,
    done: bool,
    idx: Ghost<nat>,
}

impl<'a> WordlistGenState<'a> {
    /// How many records were produced before this state.
    pub closed spec fn pos(&self) -> nat {
        self.idx@
    }

    pub closed spec fn finished(&self) -> bool {
        self.done
    }

    pub fn is_done(&self) -> (r: bool)
        ensures
            r == self.finished(),
    {
        self.done
    }
}

impl WordlistGenerator {
    /// Position `i` holds the choice of digit `di`.
    pub closed spec fn pos_ok(&self, i: int, p: Position, di: nat) -> bool {
        match (self.items@[i], p) {
            (WordlistItem::Charset(c), Position::CharsetPos(ch)) => di < c@.len() && ch == c@[di as int],
            (WordlistItem::Wordlist(j), Position::WordlistPos(it)) => it.inv() && it.words() == self.wordlists@[j as int]@
                && it.index() == di + 1 && di < self.wordlists@[j as int]@.len(),
            _ => false,
        }
    }

    pub closed spec fn live_inv(&self, st: &WordlistGenState) -> bool {
        let radix = self.radix();
        let d = odometer(radix)[st.idx@ as int];
        &&& st.idx@ < odometer(radix).len()
        &&& st.word_len == self.render(d).len() + 1
        &&& st.word@.take(st.word_len as int) == self.render(d).push(10)
        &&& forall|i: int| 0 <= i < self.items@.len() ==> #[trigger] self.pos_ok(i, st.positions@[i], d[i])
    }

    pub closed spec fn state_inv(&self, st: &WordlistGenState) -> bool {
        let radix = self.radix();
        &&& st.word@.len() == MAX_WORD_SIZE
        &&& st.word_len <= MAX_WORD_SIZE
        &&& st.positions@.len() == self.items@.len()
        &&& st.done ==> st.idx@ == self.stream().len()
        &&& !st.done ==> self.live_inv(st)
    }
}

impl WordlistGenerator {
    proof fn lemma_render_push(&self, d: Seq<nat>, i: int)
        requires
            0 <= i < d.len(),
        ensures
            self.render(d.take(i + 1)) == self.render(d.take(i)) + self.options(i)[d[i] as int],
    {
        assert(self.pieces(d.take(i + 1)) == self.pieces(d.take(i)).push(self.options(i)[d[i] as int]));
        self.pieces(d.take(i)).lemma_flatten_push(self.options(i)[d[i] as int]);
    }

    /// A word splits at any position into what comes before, the piece there, and the rest.
    proof fn lemma_render_split(&self, d: Seq<nat>, q: int)
        requires
            0 <= q < d.len(),
        ensures
            self.render(d) == self.render(d.take(q)) + self.options(q)[d[q] as int] + self.pieces(d).subrange(q + 1, d.len() as int).flatten(),
    {
        let ps = self.pieces(d);
        let rest = ps.subrange(q + 1, d.len() as int);
        assert(ps == self.pieces(d.take(q)).push(self.options(q)[d[q] as int]) + rest);
        lemma_flatten_concat(self.pieces(d.take(q)).push(self.options(q)[d[q] as int]), rest);
        self.pieces(d.take(q)).lemma_flatten_push(self.options(q)[d[q] as int]);
    }

    proof fn lemma_render_mono(&self, d: Seq<nat>, i: int)
        requires
            0 <= i <= d.len(),
        ensures
            self.render(d.take(i)).len() <= self.render(d).len(),
        decreases d.len() - i,
    {
        if i < d.len() {
            self.lemma_render_mono(d, i + 1);
            self.lemma_render_push(d, i);
        } else {
            assert(d.take(i) == d);
        }
    }

    /// The state before the first record.
    pub fn start<'a>(&'a self) -> (st: WordlistGenState<'a>)
        requires
            self.wf(),
        ensures
            self.state_inv(&st),
            !st.finished(),
            st.pos() == 0,
            st.pos() < self.stream().len(),
    {
        let n = self.items.len();
        let ghost radix = self.radix();
        let ghost z = zeros(n as nat);
        proof {
            self.lemma_radix_positive();
            lemma_odometer_first(radix);
            lemma_odometer_entry(radix, 0);
        }
        let mut word: Vec<u8> = Vec::new();
        let mut k: usize = 0;
        while k < MAX_WORD_SIZE
            invariant
                k <= MAX_WORD_SIZE,
                word@.len() == k,
            decreases MAX_WORD_SIZE - k,
        {
            word.push(10);
            k = k + 1;
        }
        let mut positions: Vec<Position<'a>> = Vec::new();
        let mut wl: usize = 0;
        let mut i: usize = 0;
        proof {
            assert(z.take(0) == Seq::<nat>::empty());
            assert(self.pieces(z.take(0)) == Seq::<Seq<u8>>::empty());
        }
        while i < n
            invariant
                self.wf(),
                n == self.items@.len(),
                radix == self.radix(),
                z == zeros(n as nat),
                digits_valid(radix, z),
                i <= n,
                word@.len() == MAX_WORD_SIZE,
                positions@.len() == i,
                wl == self.render(z.take(i as int)).len(),
                word@.take(wl as int) == self.render(z.take(i as int)),
                forall|j: int| 0 <= j < i ==> #[trigger] self.pos_ok(j, positions@[j], 0),
            decreases n - i,
        {
            proof {
                assert(self.item_wf(i as int));
                self.lemma_render_push(z, i as int);
                self.lemma_render_mono(z, i + 1);
                assert(self.render(z).len() + 1 <= MAX_WORD_SIZE);
            }
            let ghost before = word@;
            match &self.items[i] {
                WordlistItem::Charset(c) => {
                    let ch = c.min_char();
                    word.set(wl, ch);
                    positions.push(Position::CharsetPos(ch));
                    proof {
                        assert(self.options(i as int)[0] == seq![ch]);
                        assert(word@.take(wl + 1) =~= self.render(z.take(i as int)) + seq![ch]);
                    }
                    wl = wl + 1;
                },
                WordlistItem::Wordlist(j) => {
                    let mut it = self.wordlists[*j].iter();
                    let w = it.next();
                    let w = match w {
                        Some(w) => w,
                        None => {
                            proof {
                                assert(false);
                            }
                            return WordlistGenState { word, word_len: 0, positions, done: true, idx: Ghost(0) };
                        },
                    };
                    copy_into(&mut word, wl, w);
                    positions.push(Position::WordlistPos(it));
                    proof {
                        assert(self.options(i as int)[0] == w@);
                        let target = self.render(z.take(i as int)) + w@;
                        assert forall|x: int| 0 <= x < wl + w@.len() implies #[trigger] word@[x] == target[x] by {
                            if x < wl {
                                assert(before[x] == before.take(wl as int)[x]);
                            } else {
                                assert(word@[wl + (x - wl)] == w@[x - wl]);
                            }
                        }
                        assert(word@.take(wl + w@.len()) =~= target);
                    }
                    wl = wl + w.len();
                },
            }
            proof {
                assert forall|j: int| 0 <= j < i + 1 implies #[trigger] self.pos_ok(j, positions@[j], 0) by {
                    if j < i {
                        assert(positions@[j] == old_positions_at(positions@, j));
                    }
                }
            }
            i = i + 1;
        }
        proof {
            assert(z.take(n as int) == z);
        }
        word.set(wl, 10);
        proof {
            assert(word@.take(wl + 1) =~= self.render(z).push(10));
            assert(odometer(radix)[0] == z);
            lemma_odometer_len(radix);
        }
        WordlistGenState { word, word_len: wl + 1, positions, done: false, idx: Ghost(0) }
    }
}

impl WordlistGenerator {
    /// The pieces after position `q` agree where the digits agree.
    proof fn lemma_rest_same(&self, a: Seq<nat>, b: Seq<nat>, q: int)
        requires
            a.len() == b.len(),
            0 <= q < a.len(),
            forall|x: int| q < x < a.len() ==> a[x] == b[x],
        ensures
            self.pieces(a).subrange(q + 1, a.len() as int) == self.pieces(b).subrange(q + 1, b.len() as int),
    {
        assert(self.pieces(a).subrange(q + 1, a.len() as int) =~= self.pieces(b).subrange(q + 1, b.len() as int));
    }

    /// The working word and the positions of `st` stand for digit vector `cur`.
    pub closed spec fn word_is(&self, st: &WordlistGenState, cur: Seq<nat>) -> bool {
        &&& digits_valid(self.radix(), cur)
        &&& st.word@.len() == MAX_WORD_SIZE
        &&& st.positions@.len() == self.items@.len()
        &&& st.word_len == self.render(cur).len() + 1
        &&& st.word@.take(st.word_len as int) == self.render(cur).push(10)
        &&& forall|i: int| 0 <= i < self.items@.len() ==> #[trigger] self.pos_ok(i, st.positions@[i], cur[i])
    }

    /// Moves position `q` to its next option, or back to its first one; the flag says which.
    /// The piece of `q` ends at byte `end` of the working word; the result says where it starts.
    #[verifier::rlimit(50)]
    fn step_position<'a>(&'a self, st: &mut WordlistGenState<'a>, q: usize, end: usize, cur: Ghost<Seq<nat>>) -> (res: (bool, usize))
        requires
            self.wf(),
            self.word_is(old(st), cur@),
            q < self.items@.len(),
            end == self.render(cur@.take(q + 1)).len(),
        ensures
            res.0 <==> cur@[q as int] + 1 >= self.radix()[q as int],
            self.word_is(final(st), cur@.update(q as int, if res.0 { 0nat } else { (cur@[q as int] + 1) as nat })),
            res.1 == self.render(cur@.take(q as int)).len(),
            final(st).idx == old(st).idx,
            final(st).done == old(st).done,
    {
        let n = self.items.len();
        let ghost radix = self.radix();
        let ghost cur = cur@;
        let ghost dq: int = cur[q as int] as int;
        let ghost k: int = radix[q as int] as int;
        proof {
            assert(self.item_wf(q as int));
            assert(self.pos_ok(q as int, st.positions@[q as int], cur[q as int]));
            self.lemma_render_push(cur, q as int);
            self.lemma_render_split(cur, q as int);
            self.lemma_render_mono(cur, q as int);
            assert(dq < k);
        }
        let ghost old_word = st.word@;
        let ghost old_len = st.word_len;
        let ghost head = self.render(cur.take(q as int));
        let ghost rest = self.pieces(cur).subrange(q + 1, n as int).flatten();
        let ghost old_piece = self.options(q as int)[dq];
        match st.positions[q] {
            Position::CharsetPos(old_c) => {
                let c = match &self.items[q] {
                    WordlistItem::Charset(c) => c,
                    WordlistItem::Wordlist(_) => {
                        proof {
                            assert(false);
                        }
                        return (false, 0);
                    },
                };
                let new_c = c.next(old_c);
                proof {
                    assert(k == c@.len());
                    assert(c.jmp_table@[c@[dq] as int] == c@[(dq + 1) % k]);
                    if dq + 1 < k {
                        assert((dq + 1) % k == dq + 1) by (nonlinear_arith)
                            requires 0 <= dq + 1 < k;
                        assert(old_c < new_c);
                    } else {
                        assert((dq + 1) % k == 0) by (nonlinear_arith)
                            requires dq + 1 == k, k > 0;
                        if dq > 0 {
                            assert(c@[0] < c@[dq]);
                        }
                        assert(!(old_c < new_c));
                    }
                    assert(old_piece == seq![old_c]);
                }
                st.word.set(end - 1, new_c);
                st.positions.set(q, Position::CharsetPos(new_c));
                let wrapped = !(old_c < new_c);
                proof {
                    let new_digit: nat = if wrapped { 0 } else { (dq + 1) as nat };
                    assert(self.options(q as int)[new_digit as int] == seq![new_c]);
                    let new_cur = cur.update(q as int, new_digit);
                    assert(new_cur.take(q as int) == cur.take(q as int));
                    self.lemma_rest_same(cur, new_cur, q as int);
                    self.lemma_render_split(new_cur, q as int);
                    let target = self.render(new_cur).push(10);
                    assert forall|x: int| 0 <= x < old_len implies #[trigger] st.word@[x] == target[x] by {
                        if x != end - 1 {
                            assert(old_word[x] == old_word.take(old_len as int)[x]);
                        }
                    }
                    assert(st.word@.take(old_len as int) =~= target);
                    assert forall|i: int| 0 <= i < n implies #[trigger] self.pos_ok(i, st.positions@[i], new_cur[i]) by {
                        if i != q {
                            assert(self.pos_ok(i, old_positions_at(old(st).positions@, i), cur[i]));
                        }
                    }
                }
                (wrapped, end - 1)
            },
            Position::WordlistPos(it0) => {
                let j = match &self.items[q] {
                    WordlistItem::Wordlist(j) => *j,
                    WordlistItem::Charset(_) => {
                        proof {
                            assert(false);
                        }
                        return (false, 0);
                    },
                };
                let wl = &self.wordlists[j];
                let mut it = it0;
                let prev_len = it.current_len();
                let wrapped: bool;
                let w = match it.next() {
                    Some(w) => {
                        wrapped = false;
                        w
                    },
                    None => {
                        it = wl.iter();
                        wrapped = true;
                        match it.next() {
                            Some(w) => w,
                            None => {
                                proof {
                                    assert(false);
                                }
                                return (false, 0);
                            },
                        }
                    },
                };
                let ghost new_digit: nat = if wrapped { 0 } else { (dq + 1) as nat };
                let ghost new_cur = cur.update(q as int, new_digit);
                proof {
                    assert(k == wl@.len());
                    assert(old_piece == wl@[dq]);
                    assert(prev_len == old_piece.len());
                    assert(w@ == self.options(q as int)[new_digit as int]);
                    assert(digits_valid(radix, new_cur));
                    assert(self.render(new_cur).len() + 1 <= MAX_WORD_SIZE);
                    assert(new_cur.take(q as int) == cur.take(q as int));
                    self.lemma_rest_same(cur, new_cur, q as int);
                    self.lemma_render_split(new_cur, q as int);
                }
                let wlen = w.len();
                let start = end - prev_len;
                let count = st.word_len - end;
                move_bytes(&mut st.word, end, start + wlen, count);
                let ghost moved = st.word@;
                copy_into(&mut st.word, start, w);
                st.word_len = start + wlen + count;
                st.positions.set(q, Position::WordlistPos(it));
                proof {
                    let target = self.render(new_cur).push(10);
                    assert(target == head + w@ + rest.push(10));
                    assert(old_word.take(old_len as int) == head + old_piece + rest.push(10));
                    assert forall|x: int| 0 <= x < st.word_len implies #[trigger] st.word@[x] == target[x] by {
                        if x < start {
                            assert(old_word[x] == old_word.take(old_len as int)[x]);
                        } else if x < start + wlen {
                            assert(st.word@[start + (x - start)] == w@[x - start]);
                        } else {
                            let y = x - start - wlen;
                            assert(moved[start + wlen + y] == old_word[end + y]);
                            assert(old_word[end + y] == old_word.take(old_len as int)[end + y]);
                        }
                    }
                    assert(st.word@.take(st.word_len as int) =~= target);
                    assert forall|i: int| 0 <= i < n implies #[trigger] self.pos_ok(i, st.positions@[i], new_cur[i]) by {
                        if i != q {
                            assert(self.pos_ok(i, old_positions_at(old(st).positions@, i), cur[i]));
                        }
                    }
                }
                (wrapped, start)
            },
        }
    }

    /// Writes the current record and moves to the next one.
    fn emit_one<'a>(&'a self, st: &mut WordlistGenState<'a>, buf: &mut StackBuf)
        requires
            self.wf(),
            self.state_inv(old(st)),
            !old(st).finished(),
            old(buf).wf(),
            old(buf)@.len() + old(st).word_len <= BUFFER_SIZE,
        ensures
            self.state_inv(final(st)),
            final(buf).wf(),
            old(st).pos() < self.stream().len(),
            final(st).pos() == old(st).pos() + 1,
            final(buf)@ == old(buf)@ + self.stream()[old(st).pos() as int],
    {
        let n = self.items.len();
        let ghost radix = self.radix();
        let ghost idx = st.idx@;
        let ghost d = odometer(radix)[idx as int];
        proof {
            self.lemma_radix_positive();
            lemma_odometer_entry(radix, idx as int);
            lemma_odometer_len(radix);
            assert(self.stream()[idx as int] == self.render(d).push(10));
        }
        let rec = vstd::slice::slice_subrange(st.word.as_slice(), 0, st.word_len);
        assert(rec@ == st.word@.take(st.word_len as int));
        buf.write(rec);
        let mut p: usize = n;
        let mut end: usize = st.word_len - 1;
        let mut stop = false;
        let ghost mut cur = d;
        proof {
            assert(radix.take(n as int) == radix);
            assert(d.take(n as int) == d);
            assert(cur.take(n as int) == cur);
            assert(advance(radix, d).0 + zeros(0) == advance(radix, d).0);
        }
        while p > 0 && !stop
            invariant
                self.wf(),
                n == self.items@.len(),
                radix == self.radix(),
                positive(radix),
                digits_valid(radix, d),
                p <= n,
                st.idx@ == idx,
                !st.done,
                self.word_is(st, cur),
                stop ==> cur == advance(radix, d).0 && !advance(radix, d).1,
                !stop ==> end == self.render(cur.take(p as int)).len(),
                !stop ==> cur.take(p as int) == d.take(p as int),
                !stop ==> forall|x: int| p <= x < n ==> #[trigger] cur[x] == 0,
                !stop ==> cur.len() == n,
                !stop ==> advance(radix, d) == (advance(radix.take(p as int), d.take(p as int)).0 + zeros(
                    (n - p) as nat), advance(radix.take(p as int), d.take(p as int)).1),
            decreases 2 * p + (if stop { 0int } else { 1int }),
        {
            let q = p - 1;
            let ghost dq: int = d[q as int] as int;
            proof {
                assert(cur[q as int] == d[q as int]) by {
                    assert(cur.take(p as int)[q as int] == d.take(p as int)[q as int]);
                }
                assert(cur.take(q + 1) == cur.take(p as int));
                let rp = radix.take(p as int);
                let dp = d.take(p as int);
                assert(rp.drop_last() == radix.take(q as int));
                assert(dp.drop_last() == d.take(q as int));
                assert(dp.last() == d[q as int]);
                assert(rp[dp.len() - 1] == radix[q as int]);
                if dq + 1 >= radix[q as int] {
                    assert(zeros((n - q - 1) as nat).push(0) =~= zeros((n - q) as nat));
                    let a = advance(radix.take(q as int), d.take(q as int));
                    assert(a.0.push(0) + zeros((n - p) as nat) == a.0 + zeros((n - q) as nat));
                }
            }
            let res = self.step_position(st, q, end, Ghost(cur));
            let ghost new_cur = cur.update(q as int, if res.0 { 0nat } else { (cur[q as int] + 1) as nat });
            if !res.0 {
                stop = true;
                proof {
                    let nd = d.take(q as int).push((dq + 1) as nat) + zeros((n - p) as nat);
                    assert(advance(radix, d).0 == nd);
                    assert(new_cur =~= nd) by {
                        assert forall|x: int| 0 <= x < n implies new_cur[x] == nd[x] by {
                            if x < q {
                                assert(cur[x] == cur.take(p as int)[x]);
                                assert(d.take(p as int)[x] == d[x]);
                            }
                        }
                    }
                }
            } else {
                proof {
                    assert(new_cur.take(q as int) == d.take(q as int)) by {
                        assert forall|x: int| 0 <= x < q implies new_cur.take(q as int)[x] == d.take(q as int)[x] by {
                            assert(cur.take(p as int)[x] == d.take(p as int)[x]);
                        }
                        assert(new_cur.take(q as int) =~= d.take(q as int));
                    }
                    assert(new_cur.take(q as int) == cur.take(q as int));
                }
                end = res.1;
                p = q;
            }
            proof {
                cur = new_cur;
            }
        }
        proof {
            if !stop {
                assert(radix.take(0) == Seq::<nat>::empty());
                assert(d.take(0) == Seq::<nat>::empty());
                assert(Seq::<nat>::empty() + zeros(n as nat) == zeros(n as nat));
                assert(advance(radix, d) == (zeros(n as nat), true));
            }
            lemma_advance(radix, idx as int);
        }
        if stop {
            st.idx = Ghost((idx + 1) as nat);
            proof {
                lemma_odometer_entry(radix, idx as int + 1);
            }
        } else {
            st.done = true;
            st.idx = Ghost((idx + 1) as nat);
        }
    }
}

impl WordlistGenerator {
    proof fn lemma_pos_bound(&self, st: &WordlistGenState)
        requires
            self.wf(),
            self.state_inv(st),
        ensures
            st.pos() <= self.stream().len(),
            st.finished() <==> st.pos() == self.stream().len(),
            !st.finished() ==> st.word_len <= MAX_WORD_SIZE,
    {
        if !st.done {
            self.lemma_radix_positive();
            lemma_odometer_entry(self.radix(), st.idx@ as int);
        }
    }

    /// Writes records while the buffer has room for them; the state moves past them.
    pub fn gen_batch<'a>(&'a self, st: &mut WordlistGenState<'a>, buf: &mut StackBuf)
        requires
            self.wf(),
            self.state_inv(old(st)),
            old(buf).wf(),
        ensures
            self.state_inv(final(st)),
            final(buf).wf(),
            old(st).pos() <= final(st).pos() <= self.stream().len(),
            final(buf)@ == old(buf)@ + self.stream().subrange(old(st).pos() as int, final(st).pos() as int).flatten(),
            final(st).finished() <==> final(st).pos() == self.stream().len(),
            !old(st).finished() && old(buf)@.len() + MAX_WORD_SIZE <= BUFFER_SIZE ==> final(st).pos() > old(st).pos(),
    {
        proof {
            self.lemma_pos_bound(st);
            assert(self.stream().subrange(st.idx@ as int, st.idx@ as int) == Seq::<Seq<u8>>::empty());
        }
        while !st.done && buf.pos() + st.word_len <= BUFFER_SIZE
            invariant
                self.wf(),
                self.state_inv(st),
                buf.wf(),
                old(st).pos() <= st.pos() <= self.stream().len(),
                st.finished() <==> st.pos() == self.stream().len(),
                buf@ == old(buf)@ + self.stream().subrange(old(st).pos() as int, st.pos() as int).flatten(),
                !old(st).finished() && old(buf)@.len() + MAX_WORD_SIZE <= BUFFER_SIZE && st.pos() == old(st).pos()
                    ==> buf@.len() + MAX_WORD_SIZE <= BUFFER_SIZE && !st.finished(),
            decreases self.stream().len() - st.pos(),
        {
            let ghost start_pos = st.idx@;
            proof {
                self.lemma_pos_bound(st);
            }
            self.emit_one(st, buf);
            proof {
                self.lemma_pos_bound(st);
                let s = self.stream();
                assert(s.subrange(old(st).pos() as int, start_pos as int + 1) == s.subrange(old(st).pos() as int, start_pos as int).push(s[start_pos as int]));
                s.subrange(old(st).pos() as int, start_pos as int).lemma_flatten_push(s[start_pos as int]);
            }
        }
    }

    /// The whole output of a run.
    pub fn gen_to_vec(&self) -> (r: Vec<u8>)
        requires
            self.wf(),
        ensures
            r@ == self.stream().flatten(),
    {
        let mut out: Vec<u8> = Vec::new();
        let mut st = self.start();
        let mut buf = StackBuf::new();
        proof {
            self.lemma_pos_bound(&st);
            assert(self.stream().subrange(0, 0) == Seq::<Seq<u8>>::empty());
        }
        while !st.is_done()
            invariant
                self.wf(),
                self.state_inv(&st),
                st.finished() <==> st.pos() == self.stream().len(),
                st.pos() <= self.stream().len(),
                buf.wf(),
                buf@ == Seq::<u8>::empty(),
                out@ == self.stream().subrange(0, st.pos() as int).flatten(),
            decreases self.stream().len() - st.pos(),
        {
            let ghost start_pos = st.pos();
            self.gen_batch(&mut st, &mut buf);
            let data = buf.getdata();
            let mut i: usize = 0;
            while i < data.len()
                invariant
                    i <= data@.len(),
                    start_pos <= st.pos() <= self.stream().len(),
                    out@ == self.stream().subrange(0, start_pos as int).flatten() + data@.subrange(0, i as int),
                decreases data@.len() - i,
            {
                out.push(data[i]);
                assert(data@.subrange(0, i + 1) == data@.subrange(0, i as int).push(data@[i as int]));
                i = i + 1;
            }
            proof {
                assert(data@.subrange(0, data@.len() as int) == data@);
                lemma_flatten_split(self.stream(), start_pos as int, st.pos() as int);
            }
            buf.clear();
        }
        proof {
            assert(self.stream().subrange(0, self.stream().len() as int) == self.stream());
        }
        out
    }
}

/// The length of the longest word of `ws`.
pub open spec fn max_word_len(ws: Seq<Seq<u8>>) -> nat
    decreases ws.len(),
{
    if ws.len() == 0 {
        0
    } else {
        let m = max_word_len(ws.drop_last());
        if ws.last().len() > m { ws.last().len() } else { m }
    }
}

/// The longest piece that operation `op` can give.
pub open spec fn op_max(op: MaskOp, wls: Seq<Wordlist>) -> nat {
    match op {
        MaskOp::Wordlist(j) => max_word_len(wls[j as int]@),
        _ => 1,
    }
}

/// The length of the longest word that `ops` can give.
pub open spec fn longest(ops: Seq<MaskOp>, wls: Seq<Wordlist>) -> nat
    decreases ops.len(),
{
    if ops.len() == 0 {
        0
    } else {
        longest(ops.drop_last(), wls) + op_max(ops.last(), wls)
    }
}

/// The error that a single operation brings, given the custom charsets and wordlists.
pub open spec fn mixed_op_error(op: MaskOp, wls: Seq<Wordlist>, customs: Seq<Seq<u8>>) -> Option<CrackenError> {
    match op {
        MaskOp::CustomCharset(i) => if customs[i as int].len() == 0 {
            Some(CrackenError::EmptyCustomCharset { index: i })
        } else {
            None
        },
        MaskOp::Wordlist(j) => if wls[j as int]@.len() == 0 {
            Some(CrackenError::EmptyWordlist { index: j })
        } else {
            None
        },
        _ => None,
    }
}

/// The error of the leftmost operation that brings one.
pub open spec fn first_mixed_error(ops: Seq<MaskOp>, wls: Seq<Wordlist>, customs: Seq<Seq<u8>>) -> Option<CrackenError>
    decreases ops.len(),
{
    if ops.len() == 0 {
        None
    } else {
        match first_mixed_error(ops.drop_last(), wls, customs) {
            Some(e) => Some(e),
            None => mixed_op_error(ops.last(), wls, customs),
        }
    }
}

/// What building a mixed generator gives.
pub open spec fn wordlist_gen_outcome(mask: Seq<u8>, wls: Seq<Wordlist>, customs: Seq<Seq<u8>>) -> Result<(), CrackenError> {
    if !mask_valid(mask) {
        Err(CrackenError::InvalidMask)
    } else {
        let ops = parse_spec(mask)->0;
        if !customs_below(ops, customs.len()) {
            Err(CrackenError::UnspecifiedCustomCharset { index: max_custom(ops)->0, provided: customs.len() as usize })
        } else if !wordlists_below(ops, wls.len()) {
            Err(CrackenError::UnspecifiedWordlist { index: max_wordlist(ops)->0, provided: wls.len() as usize })
        } else if first_mixed_error(ops, wls, customs) is Some {
            Err(first_mixed_error(ops, wls, customs)->0)
        } else if longest(ops, wls) + 1 > MAX_WORD_SIZE {
            Err(CrackenError::WordTooLong)
        } else {
            Ok(())
        }
    }
}

proof fn lemma_max_word_len(ws: Seq<Seq<u8>>)
    ensures
        forall|k: int| 0 <= k < ws.len() ==> (#[trigger] ws[k]).len() <= max_word_len(ws),
    decreases ws.len(),
{
    if ws.len() > 0 {
        lemma_max_word_len(ws.drop_last());
        assert forall|k: int| 0 <= k < ws.len() implies (#[trigger] ws[k]).len() <= max_word_len(ws) by {
            if k < ws.len() - 1 {
                assert(ws[k] == ws.drop_last()[k]);
            }
        }
    }
}

proof fn lemma_first_mixed_prefix(ops: Seq<MaskOp>, j: int, wls: Seq<Wordlist>, customs: Seq<Seq<u8>>)
    requires
        0 <= j <= ops.len(),
        first_mixed_error(ops.subrange(0, j), wls, customs) is Some,
    ensures
        first_mixed_error(ops, wls, customs) == first_mixed_error(ops.subrange(0, j), wls, customs),
    decreases ops.len(),
{
    if j < ops.len() {
        assert(ops.drop_last().subrange(0, j) == ops.subrange(0, j));
        lemma_first_mixed_prefix(ops.drop_last(), j, wls, customs);
    } else {
        assert(ops.subrange(0, j) == ops);
    }
}

/// The longest word length of a wordlist, by a pass over its words.
fn longest_word(wl: &Wordlist) -> (r: usize)
    requires
        wl.wf(),
    ensures
        r == max_word_len(wl@),
{
    let mut it = wl.iter();
    let mut best: usize = 0;
    proof {
        assert(wl@.take(0) == Seq::<Seq<u8>>::empty());
    }
    loop
        invariant
            it.inv(),
            it.words() == wl@,
            it.index() <= wl@.len(),
            best == max_word_len(wl@.take(it.index() as int)),
        decreases wl@.len() - it.index(),
    {
        let ghost i0 = it.index();
        match it.next() {
            Some(w) => {
                proof {
                    assert(wl@.take(i0 as int + 1).drop_last() == wl@.take(i0 as int));
                    assert(wl@.take(i0 as int + 1).last() == w@);
                }
                if w.len() > best {
                    best = w.len();
                }
            },
            None => {
                proof {
                    assert(wl@.take(i0 as int) == wl@);
                }
                return best;
            },
        }
    }
}

impl WordlistGenerator {
    /// Builds a generator over `mask`; the mask's `?wN` takes wordlist `N - 1` of `wordlists`.
    pub fn new(mask: &str, wordlists: Vec<Wordlist>, custom_charsets: &[&str]) -> (r: Result<WordlistGenerator, CrackenError>)
        requires
            forall|j: int| 0 <= j < wordlists@.len() ==> (#[trigger] wordlists@[j]).wf(),
        ensures
            r is Ok <==> wordlist_gen_outcome(mask.spec_bytes(), wordlists@, custom_bytes(custom_charsets@)) is Ok,
            r is Err ==> r->Err_0 == wordlist_gen_outcome(mask.spec_bytes(), wordlists@, custom_bytes(custom_charsets@))->Err_0,
            r is Ok ==> wordlist_gen_built(r->Ok_0, mask, wordlists@, custom_bytes(custom_charsets@)),
    {
        let ghost customs = custom_bytes(custom_charsets@);
        let ops = match parse_mask(mask) {
            Ok(ops) => ops,
            Err(e) => {
                return Err(e);
            },
        };
        if let Err(e) = validate_charsets(ops.as_slice(), custom_charsets.len()) {
            return Err(e);
        }
        if let Err(e) = validate_wordlists(ops.as_slice(), wordlists.len()) {
            return Err(e);
        }
        let n = ops.len();
        let mut items: Vec<WordlistItem> = Vec::new();
        let mut total: usize = 0;
        let mut i: usize = 0;
        while i < n
            invariant
                n == ops@.len(),
                ops@ == parse_spec(mask.spec_bytes())->0,
                n <= MAX_WORD_SIZE - 1,
                customs == custom_bytes(custom_charsets@),
                customs_below(ops@, customs.len()),
                wordlists_below(ops@, wordlists@.len()),
                forall|j: int| 0 <= j < wordlists@.len() ==> (#[trigger] wordlists@[j]).wf(),
                i <= n,
                items@.len() == i,
                mask_valid(mask.spec_bytes()),
                total == if longest(ops@.subrange(0, i as int), wordlists@) > MAX_WORD_SIZE {
                    (MAX_WORD_SIZE + 1) as nat
                } else {
                    longest(ops@.subrange(0, i as int), wordlists@)
                },
                first_mixed_error(ops@.subrange(0, i as int), wordlists@, customs) is None,
                forall|x: int| 0 <= x < i ==> match ops@[x] {
                    MaskOp::Wordlist(j) => #[trigger] items@[x] == WordlistItem::Wordlist(j)
                        && wordlists@[j as int]@.len() >= 1,
                    _ => items@[x] is Charset && items@[x]->Charset_0.wf() && forall|b: u8| (items@[x]->Charset_0@.contains(b)
                        <==> op_member(ops@[x], customs, b)),
                },
            decreases n - i,
        {
            assert(ops@.subrange(0, i + 1).drop_last() == ops@.subrange(0, i as int));
            assert(ops@.subrange(0, i + 1).last() == ops@[i as int]);
            let (item, size) = match ops[i] {
                MaskOp::Char(c) => {
                    let one: Vec<u8> = vec![c];
                    let r = Charset::from_chars(one.as_slice());
                    assert forall|b: u8| one@.contains(b) <==> b == c by {
                        if b == c {
                            assert(one@[0] == b);
                        }
                    }
                    (WordlistItem::Charset(r), 1usize)
                },
                MaskOp::BuiltinCharset(s) => {
                    proof {
                        crate::generators::lemma_parsed_builtin(mask.spec_bytes(), i as int);
                    }
                    (WordlistItem::Charset(Charset::from_symbol(s)), 1usize)
                },
                MaskOp::CustomCharset(idx) => {
                    assert(idx < customs.len());
                    let chars: &str = custom_charsets[idx];
                    let bytes = chars.as_bytes();
                    assert(customs[idx as int] == bytes@);
                    if bytes.len() == 0 {
                        proof {
                            lemma_first_mixed_prefix(ops@, i + 1, wordlists@, customs);
                        }
                        return Err(CrackenError::EmptyCustomCharset { index: idx });
                    }
                    (WordlistItem::Charset(Charset::from_chars(bytes)), 1usize)
                },
                MaskOp::Wordlist(j) => {
                    assert(j < wordlists@.len());
                    assert(wordlists@[j as int].wf());
                    if wordlists[j].len() == 0 {
                        proof {
                            lemma_first_mixed_prefix(ops@, i + 1, wordlists@, customs);
                        }
                        return Err(CrackenError::EmptyWordlist { index: j });
                    }
                    let m = longest_word(&wordlists[j]);
                    (WordlistItem::Wordlist(j), m)
                },
            };
            if total > MAX_WORD_SIZE || size > MAX_WORD_SIZE - total {
                total = MAX_WORD_SIZE + 1;
            } else {
                total = total + size;
            }
            items.push(item);
            i = i + 1;
        }
        assert(ops@.subrange(0, n as int) == ops@);
        if total + 1 > MAX_WORD_SIZE {
            return Err(CrackenError::WordTooLong);
        }
        let mut text = String::new();
        text.append(mask);
        let g = WordlistGenerator { mask: text, items, wordlists };
        proof {
            assert forall|x: int| 0 <= x < n implies #[trigger] g.item_wf(x) by {
                match ops@[x] {
                    MaskOp::Wordlist(j) => {},
                    _ => {},
                }
            }
            assert forall|d: Seq<nat>| #[trigger] digits_valid(g.radix(), d) implies g.render(d).len() + 1 <= MAX_WORD_SIZE by {
                g.lemma_render_bound(d, ops@, n as int);
                assert(d.take(n as int) == d);
            }
        }
        Ok(g)
    }

    proof fn lemma_render_bound(&self, d: Seq<nat>, ops: Seq<MaskOp>, i: int)
        requires
            digits_valid(self.radix(), d),
            ops.len() == self.items@.len(),
            0 <= i <= ops.len(),
            forall|x: int| 0 <= x < ops.len() ==> match ops[x] {
                MaskOp::Wordlist(j) => #[trigger] self.items@[x] == WordlistItem::Wordlist(j),
                _ => self.items@[x] is Charset,
            },
        ensures
            self.render(d.take(i)).len() <= longest(ops.subrange(0, i), self.wordlists@),
        decreases i,
    {
        if i > 0 {
            self.lemma_render_bound(d, ops, i - 1);
            self.lemma_render_push(d, i - 1);
            assert(ops.subrange(0, i).drop_last() == ops.subrange(0, i - 1));
            assert(ops.subrange(0, i).last() == ops[i - 1]);
            let x = i - 1;
            assert(d[x] < self.radix()[x]);
            match ops[x] {
                MaskOp::Wordlist(j) => {
                    lemma_max_word_len(self.wordlists@[j as int]@);
                },
                _ => {
                    let c = self.items@[x]->Charset_0;
                    assert(self.options(x)[d[x] as int] == seq![c@[d[x] as int]]);
                },
            }
        } else {
            assert(d.take(0) == Seq::<nat>::empty());
            assert(self.pieces(Seq::<nat>::empty()) == Seq::<Seq<u8>>::empty());
        }
    }
}

/// The number of records a mixed run produces is the product of the option counts that
/// `combinations` returns, and each ends with a newline.
pub proof fn lemma_mixed_count_agreement(g: &WordlistGenerator)
    requires
        g.wf(),
    ensures
        g.stream().len() == product(g.radix()),
        forall|k: int| 0 <= k < g.stream().len() ==> (#[trigger] g.stream()[k]).last() == 10,
{
    lemma_odometer_len(g.radix());
}

/// A mixed run produces exactly the concatenations of one option per position.
pub proof fn lemma_mixed_coverage(g: &WordlistGenerator, w: Seq<u8>)
    requires
        g.wf(),
    ensures
        (exists|k: int| 0 <= k < g.stream().len() && g.stream()[k] == w.push(10)) <==> (exists|d: Seq<nat>|
            digits_valid(g.radix(), d) && #[trigger] g.render(d) == w),
{
    g.lemma_radix_positive();
    if exists|k: int| 0 <= k < g.stream().len() && g.stream()[k] == w.push(10) {
        let k = choose|k: int| 0 <= k < g.stream().len() && g.stream()[k] == w.push(10);
        lemma_odometer_entry(g.radix(), k);
        let d = odometer(g.radix())[k];
        assert(g.render(d) == g.render(d).push(10).drop_last());
        assert(w == w.push(10).drop_last());
    }
    if exists|d: Seq<nat>| digits_valid(g.radix(), d) && #[trigger] g.render(d) == w {
        let d = choose|d: Seq<nat>| digits_valid(g.radix(), d) && #[trigger] g.render(d) == w;
        crate::odometer::lemma_odometer_complete(g.radix(), d);
        let k = choose|n: int| 0 <= n < odometer(g.radix()).len() && odometer(g.radix())[n] == d;
        assert(g.stream()[k] == w.push(10));
    }
}

/// Position `j` of `ps`; naming it lets the facts kept about the other positions apply.
spec fn old_positions_at<'a>(ps: Seq<Position<'a>>, j: int) -> Position<'a> {
    ps[j]
}

} // verus!
