use vstd::prelude::*;
use vstd::arithmetic::div_mod::lemma_fundamental_div_mod_converse;

verus! {

/// The nonempty newline-separated records of `data`, in order.
pub open spec fn lines(data: Seq<u8>) -> Seq<Seq<u8>> {
    let st = line_state(data);
    if st.1.len() > 0 {
        st.0.push(st.1)
    } else {
        st.0
    }
}

/// The finished nonempty records of `data` and the record still open at its end.
pub open spec fn line_state(data: Seq<u8>) -> (Seq<Seq<u8>>, Seq<u8>)
    decreases data.len(),
{
    if data.len() == 0 {
        (Seq::empty(), Seq::empty())
    } else {
        let st = line_state(data.drop_last());
        if data.last() == 10 {
            (if st.1.len() > 0 { st.0.push(st.1) } else { st.0 }, Seq::empty())
        } else {
            (st.0, st.1.push(data.last()))
        }
    }
}

/// The words of `ws` of length exactly `len`, in order.
pub open spec fn of_len(ws: Seq<Seq<u8>>, len: nat) -> Seq<Seq<u8>> {
    ws.filter(|w: Seq<u8>| w.len() == len)
}

/// The words of `ws` of lengths 1 to `max`, shortest first, in order within a length.
pub open spec fn grouped(ws: Seq<Seq<u8>>, max: nat) -> Seq<Seq<u8>>
    decreases max,
{
    if max == 0 {
        Seq::empty()
    } else {
        grouped(ws, (max - 1) as nat) + of_len(ws, max)
    }
}

/// The words of one length, back to back.
pub struct WordsBuf {
    pub len: usize,
    pub words: Vec<u8>,
    pub items: Ghost<Seq<Seq<u8>>>,
}

impl WordsBuf {
    pub open spec fn wf(&self) -> bool {
        &&& self.len >= 1
        &&& self.items@.len() >= 1
        &&& forall|i: int| 0 <= i < self.items@.len() ==> (#[trigger] self.items@[i]).len() == self.len
        &&& self.words@ == self.items@.flatten()
    }
}

/// Words grouped by length, shortest group first.
pub struct Wordlist {
    pub words_bufs: Vec<WordsBuf>,
}

/// The words of the groups, in order.
pub open spec fn words_of(bufs: Seq<WordsBuf>) -> Seq<Seq<u8>>
    decreases bufs.len(),
{
    if bufs.len() == 0 {
        Seq::empty()
    } else {
        words_of(bufs.drop_last()) + bufs.last().items@
    }
}

/// The number of words in the first `b` groups.
pub open spec fn count_before(bufs: Seq<WordsBuf>, b: int) -> nat
    decreases b,
{
    if b <= 0 {
        0
    } else {
        count_before(bufs, b - 1) + bufs[b - 1].items@.len()
    }
}

impl View for Wordlist {
    type V = Seq<Seq<u8>>;

    /// The words in iteration order.
    open spec fn view(&self) -> Seq<Seq<u8>> {
        words_of(self.words_bufs@)
    }
}

/// Word `i` of a run of words of one length sits at `i * len`.
pub proof fn lemma_uniform_flatten(items: Seq<Seq<u8>>, len: nat)
    requires
        forall|i: int| 0 <= i < items.len() ==> (#[trigger] items[i]).len() == len,
    ensures
        items.flatten().len() == items.len() * len,
        forall|i: int| 0 <= i < items.len() ==> items.flatten().subrange(i * len, i * len + len) == #[trigger] items[i],
    decreases items.len(),
{
    if items.len() > 0 {
        let pre = items.drop_last();
        lemma_uniform_flatten(pre, len);
        assert(items == pre.push(items.last()));
        pre.lemma_flatten_push(items.last());
        let f = items.flatten();
        assert(f.len() == items.len() * len) by (nonlinear_arith)
            requires
                f.len() == pre.len() * len + len,
                items.len() == pre.len() + 1,
        ;
        assert forall|i: int| 0 <= i < items.len() implies items.flatten().subrange(i * len, i * len + len) == #[trigger] items[i] by {
            if i < pre.len() {
                assert(i * len + len <= pre.len() * len) by (nonlinear_arith)
                    requires
                        0 <= i < pre.len(),
                ;
                assert(0 <= i * len) by (nonlinear_arith)
                    requires
                        0 <= i,
                ;
                assert(f.subrange(i * len, i * len + len) == pre.flatten().subrange(i * len, i * len + len));
                assert(pre[i] == items[i]);
            } else {
                assert(i * len == pre.len() * len);
                assert(f.subrange(i * len, i * len + len) == items.last());
            }
        }
    }
}

pub proof fn lemma_words_of_index(bufs: Seq<WordsBuf>, b: int, k: int)
    requires
        0 <= b < bufs.len(),
        0 <= k < bufs[b].items@.len(),
    ensures
        count_before(bufs, b) + k < words_of(bufs).len(),
        words_of(bufs)[count_before(bufs, b) + k] == bufs[b].items@[k],
    decreases bufs.len(),
{
    lemma_words_of_len(bufs);
    let pre = bufs.drop_last();
    if b < bufs.len() - 1 {
        lemma_words_of_index(pre, b, k);
        lemma_count_before_prefix(bufs, pre, b);
    } else {
        lemma_words_of_len(pre);
        lemma_count_before_prefix(bufs, pre, b);
    }
}

pub proof fn lemma_count_before_prefix(bufs: Seq<WordsBuf>, pre: Seq<WordsBuf>, b: int)
    requires
        pre.len() <= bufs.len(),
        b <= pre.len(),
        forall|j: int| 0 <= j < pre.len() ==> pre[j] == bufs[j],
    ensures
        count_before(bufs, b) == count_before(pre, b),
    decreases b,
{
    if b > 0 {
        lemma_count_before_prefix(bufs, pre, b - 1);
    }
}

pub proof fn lemma_words_of_len(bufs: Seq<WordsBuf>)
    ensures
        words_of(bufs).len() == count_before(bufs, bufs.len() as int),
    decreases bufs.len(),
{
    if bufs.len() > 0 {
        let pre = bufs.drop_last();
        lemma_words_of_len(pre);
        lemma_count_before_prefix(bufs, pre, pre.len() as int);
    }
}

impl Wordlist {
    pub open spec fn wf(&self) -> bool {
        &&& forall|b: int| 0 <= b < self.words_bufs@.len() ==> (#[trigger] self.words_bufs@[b]).wf()
        &&& forall|a: int, b: int| 0 <= a < b < self.words_bufs@.len() ==> self.words_bufs@[a].len < self.words_bufs@[b].len
        &&& self@.len() <= usize::MAX
    }

    /// Builds the list from newline-separated records; empty records are skipped.
    pub fn from_bytes(data: &[u8]) -> (r: Wordlist)
        ensures
            r.wf(),
            r@ == grouped(lines(data@), data@.len()),
    {
        let recs = split_lines(data);
        // the longest record bounds the lengths to visit
        let mut longest: usize = 0;
        let mut r: usize = 0;
        while r < recs.len()
            invariant
                r <= recs@.len(),
                longest <= data@.len(),
                forall|i: int| 0 <= i < recs@.len() ==> (#[trigger] recs@[i])@.len() <= data@.len(),
                forall|i: int| 0 <= i < r ==> (#[trigger] recs@[i])@.len() <= longest,
            decreases recs@.len() - r,
        {
            if recs[r].len() > longest {
                longest = recs[r].len();
            }
            r = r + 1;
        }
        let mut words_bufs: Vec<WordsBuf> = Vec::new();
        let mut done_len: usize = 0;
        proof {
            assert(grouped(lines(data@), 0) == Seq::<Seq<u8>>::empty());
        }
        loop
            invariant
                done_len <= longest,
                longest <= data@.len(),
                forall|i: int| 0 <= i < recs@.len() ==> (#[trigger] recs@[i])@.len() <= longest,
                recs@.len() == lines(data@).len(),
                recs@.len() <= data@.len(),
                forall|i: int| 0 <= i < recs@.len() ==> (#[trigger] recs@[i])@ == lines(data@)[i],
                forall|i: int| 0 <= i < recs@.len() ==> (#[trigger] recs@[i])@.len() <= data@.len(),
                forall|b: int| 0 <= b < words_bufs@.len() ==> (#[trigger] words_bufs@[b]).wf(),
                forall|b: int| 0 <= b < words_bufs@.len() ==> (#[trigger] words_bufs@[b]).len <= done_len,
                forall|a: int, b: int| 0 <= a < b < words_bufs@.len() ==> words_bufs@[a].len < words_bufs@[b].len,
                words_of(words_bufs@) == grouped(lines(data@), done_len as nat),
            ensures
                forall|i: int| 0 <= i < recs@.len() ==> (#[trigger] recs@[i])@.len() <= done_len,
                recs@.len() == lines(data@).len(),
                forall|i: int| 0 <= i < recs@.len() ==> (#[trigger] recs@[i])@ == lines(data@)[i],
                done_len <= data@.len(),
                forall|b: int| 0 <= b < words_bufs@.len() ==> (#[trigger] words_bufs@[b]).wf(),
                forall|a: int, b: int| 0 <= a < b < words_bufs@.len() ==> words_bufs@[a].len < words_bufs@[b].len,
                words_of(words_bufs@) == grouped(lines(data@), done_len as nat),
            decreases longest - done_len,
        {
            // the shortest length above those done
            let mut next: Option<usize> = None;
            let mut r: usize = 0;
            while r < recs.len()
                invariant
                    r <= recs@.len(),
                    match next {
                        Some(b) => done_len < b <= longest && (exists|j: int| 0 <= j < r && (#[trigger] recs@[j])@.len() == b)
                            && forall|j: int| 0 <= j < r && (#[trigger] recs@[j])@.len() > done_len ==> recs@[j]@.len() >= b,
                        None => forall|j: int| 0 <= j < r ==> (#[trigger] recs@[j])@.len() <= done_len,
                    },
                    forall|i: int| 0 <= i < recs@.len() ==> (#[trigger] recs@[i])@.len() <= longest,
                decreases recs@.len() - r,
            {
                let l = recs[r].len();
                if l > done_len {
                    next = match next {
                        Some(b) => Some(if l < b { l } else { b }),
                        None => Some(l),
                    };
                }
                r = r + 1;
            }
            let len = match next {
                Some(n) => n,
                None => {
                    break;
                },
            };
            proof {
                let ls = lines(data@);
                assert forall|i: int| 0 <= i < ls.len() implies !(done_len < (#[trigger] ls[i]).len() <= len - 1) by {
                    assert(recs@[i]@ == ls[i]);
                }
                lemma_grouped_skip(ls, done_len as nat, (len - 1) as nat);
            }
            let mut words: Vec<u8> = Vec::new();
            let ghost mut items: Seq<Seq<u8>> = Seq::empty();
            let mut i: usize = 0;
            while i < recs.len()
                invariant
                    i <= recs@.len(),
                    len >= 1,
                    recs@.len() <= data@.len(),
                    forall|j: int| 0 <= j < recs@.len() ==> (#[trigger] recs@[j])@.len() <= data@.len(),
                    items == of_len(recs@.take(i as int).map_values(|v: Vec<u8>| v@), len as nat),
                    forall|j: int| 0 <= j < items.len() ==> (#[trigger] items[j]).len() == len,
                    words@ == items.flatten(),
                    words@.len() <= i * data@.len(),
                decreases recs@.len() - i,
            {
                let ghost before = recs@.take(i as int).map_values(|v: Vec<u8>| v@);
                proof {
                    assert(recs@.take(i + 1).map_values(|v: Vec<u8>| v@) == before.push(recs@[i as int]@));
                    before.lemma_filter_push(recs@[i as int]@, |w: Seq<u8>| w.len() == len as nat);
                }
                if recs[i].len() == len {
                    let rec = &recs[i];
                    let ghost w0 = words@;
                    let mut j: usize = 0;
                    while j < rec.len()
                        invariant
                            j <= rec@.len(),
                            words@ == w0 + rec@.take(j as int),
                        decreases rec@.len() - j,
                    {
                        words.push(rec[j]);
                        assert(rec@.take(j + 1) == rec@.take(j as int).push(rec@[j as int]));
                        j = j + 1;
                    }
                    assert(rec@.take(rec@.len() as int) == rec@);
                    proof {
                        items.lemma_flatten_push(rec@);
                        items = items.push(rec@);
                        assert(words@.len() <= (i + 1) * data@.len()) by (nonlinear_arith)
                            requires
                                words@.len() == w0.len() + rec@.len(),
                                w0.len() <= i * data@.len(),
                                rec@.len() <= data@.len(),
                        ;
                    }
                } else {
                    assert(words@.len() <= (i + 1) * data@.len()) by (nonlinear_arith)
                        requires
                            words@.len() <= i * data@.len(),
                    ;
                }
                i = i + 1;
            }
            proof {
                assert(recs@.take(recs@.len() as int).map_values(|v: Vec<u8>| v@) =~= lines(data@));
                assert(grouped(lines(data@), len as nat) == grouped(lines(data@), (len - 1) as nat) + items);
                assert(grouped(lines(data@), (len - 1) as nat) == grouped(lines(data@), done_len as nat));
            }
            if words.len() > 0 {
                proof {
                    if items.len() == 0 {
                        assert(items.flatten() == Seq::<u8>::empty());
                    }
                    assert(words_of(words_bufs@.push(WordsBuf { len, words, items: Ghost(items) })).len() >= 0);
                }
                let buf = WordsBuf { len, words, items: Ghost(items) };
                let ghost prev = words_bufs@;
                words_bufs.push(buf);
                proof {
                    assert(words_bufs@.drop_last() == prev);
                }
            } else {
                proof {
                    if items.len() > 0 {
                        assert(items[0].len() == len);
                        assert(items.flatten() == items[0] + items.drop_first().flatten());
                    }
                    assert(items == Seq::<Seq<u8>>::empty());
                    assert(words_of(words_bufs@) + items == words_of(words_bufs@));
                }
            }
            done_len = len;
        }
        proof {
            let ls = lines(data@);
            assert forall|i: int| 0 <= i < ls.len() implies (#[trigger] ls[i]).len() <= done_len by {
                assert(recs@[i]@ == ls[i]);
            }
            lemma_grouped_beyond(ls, done_len as nat, data@.len());
            assert(ls.len() <= data@.len());
            lemma_grouped_len(ls, data@.len());
        }
        Wordlist { words_bufs }
    }

    pub fn iter(&self) -> (r: WordlistIterator<'_>)
        requires
            self.wf(),
        ensures
            r.words() == self@,
            r.inv(),
            r.index() == 0,
    {
        proof {
            if self.words_bufs@.len() > 0 {
                assert(0 * self.words_bufs@[0].len == 0);
            }
        }
        WordlistIterator { wordlist: self, wordbuf_pos: 0, word_pos: 0, k: Ghost(0) }
    }

    /// Number of words.
    pub fn len(&self) -> (r: usize)
        requires
            self.wf(),
        ensures
            r == self@.len(),
    {
        let mut total: usize = 0;
        let mut b: usize = 0;
        proof {
            lemma_words_of_len(self.words_bufs@);
        }
        while b < self.words_bufs.len()
            invariant
                self.wf(),
                b <= self.words_bufs@.len(),
                total == count_before(self.words_bufs@, b as int),
                count_before(self.words_bufs@, self.words_bufs@.len() as int) <= usize::MAX,
            decreases self.words_bufs@.len() - b,
        {
            let wb = &self.words_bufs[b];
            proof {
                assert(wb.wf());
                lemma_uniform_flatten(wb.items@, wb.len as nat);
                lemma_fundamental_div_mod_converse(wb.words@.len() as int, wb.len as int, wb.items@.len() as int, 0);
                lemma_count_monotone(self.words_bufs@, b + 1, self.words_bufs@.len() as int);
            }
            total = total + wb.words.len() / wb.len;
            b = b + 1;
        }
        total
    }

    pub fn is_empty(&self) -> (r: bool)
        requires
            self.wf(),
        ensures
            r == (self@.len() == 0),
    {
        self.len() == 0
    }
}

pub proof fn lemma_count_monotone(bufs: Seq<WordsBuf>, a: int, b: int)
    requires
        0 <= a <= b,
    ensures
        count_before(bufs, a) <= count_before(bufs, b),
    decreases b - a,
{
    if a < b {
        lemma_count_monotone(bufs, a, b - 1);
    }
}

/// Lengths from `lo + 1` to `hi` that no word has add nothing to the grouping.
proof fn lemma_grouped_skip(ws: Seq<Seq<u8>>, lo: nat, hi: nat)
    requires
        forall|i: int| 0 <= i < ws.len() ==> !(lo < (#[trigger] ws[i]).len() <= hi),
    ensures
        lo <= hi ==> grouped(ws, hi) == grouped(ws, lo),
    decreases hi,
{
    if lo < hi {
        lemma_grouped_skip(ws, lo, (hi - 1) as nat);
        assert forall|i: int| 0 <= i < ws.len() implies (#[trigger] ws[i]).len() != hi by {}
        lemma_filter_none(ws, |w: Seq<u8>| w.len() == hi);
        assert(grouped(ws, (hi - 1) as nat) + of_len(ws, hi) == grouped(ws, (hi - 1) as nat));
    }
}

/// Lengths that no word has add nothing to the grouping.
proof fn lemma_grouped_beyond(ws: Seq<Seq<u8>>, longest: nat, max: nat)
    requires
        forall|i: int| 0 <= i < ws.len() ==> (#[trigger] ws[i]).len() <= longest,
    ensures
        longest <= max ==> grouped(ws, max) == grouped(ws, longest),
    decreases max,
{
    if longest < max {
        lemma_grouped_beyond(ws, longest, (max - 1) as nat);
        assert forall|i: int| 0 <= i < ws.len() implies (#[trigger] ws[i]).len() != max by {}
        lemma_filter_none(ws, |w: Seq<u8>| w.len() == max);
        assert(grouped(ws, (max - 1) as nat) + of_len(ws, max) == grouped(ws, (max - 1) as nat));
    }
}

proof fn lemma_grouped_len(ws: Seq<Seq<u8>>, max: nat)
    ensures
        grouped(ws, max).len() <= ws.len(),
    decreases max,
{
    if max > 0 {
        lemma_grouped_len(ws, (max - 1) as nat);
    }
    // each word has one length, so the groups never count it twice
    lemma_grouped_count(ws, max);
}

proof fn lemma_grouped_count(ws: Seq<Seq<u8>>, max: nat)
    ensures
        grouped(ws, max).len() == ws.filter(|w: Seq<u8>| 1 <= w.len() <= max).len(),
    decreases max,
{
    if max == 0 {
        ws.lemma_all_neg_filter_empty(|w: Seq<u8>| 1 <= w.len() <= max);
        assert(ws.filter(|w: Seq<u8>| 1 <= w.len() <= max).len() == 0) by {
            lemma_filter_none(ws, |w: Seq<u8>| 1 <= w.len() <= max);
        }
    } else {
        lemma_grouped_count(ws, (max - 1) as nat);
        lemma_filter_split(ws, max);
    }
    lemma_filter_le(ws, |w: Seq<u8>| 1 <= w.len() <= max);
}

proof fn lemma_filter_none(ws: Seq<Seq<u8>>, p: spec_fn(Seq<u8>) -> bool)
    requires
        forall|i: int| 0 <= i < ws.len() ==> !p(#[trigger] ws[i]),
    ensures
        ws.filter(p).len() == 0,
    decreases ws.len(),
{
    reveal(Seq::filter);
    if ws.len() > 0 {
        lemma_filter_none(ws.drop_last(), p);
        assert(!p(ws[ws.len() - 1]));
    }
}

proof fn lemma_filter_le(ws: Seq<Seq<u8>>, p: spec_fn(Seq<u8>) -> bool)
    ensures
        ws.filter(p).len() <= ws.len(),
    decreases ws.len(),
{
    reveal(Seq::filter);
    if ws.len() > 0 {
        lemma_filter_le(ws.drop_last(), p);
    }
}

/// Words of lengths 1 to `max` split into those up to `max - 1` and those of length `max`.
proof fn lemma_filter_split(ws: Seq<Seq<u8>>, max: nat)
    requires
        max >= 1,
    ensures
        ws.filter(|w: Seq<u8>| 1 <= w.len() <= max).len() == ws.filter(|w: Seq<u8>| 1 <= w.len()
            <= (max - 1) as nat).len() + of_len(ws, max).len(),
    decreases ws.len(),
{
    reveal(Seq::filter);
    if ws.len() > 0 {
        lemma_filter_split(ws.drop_last(), max);
    }
}

/// Splits `data` into its nonempty newline-separated records.
fn split_lines(data: &[u8]) -> (r: Vec<Vec<u8>>)
    ensures
        r@.len() == lines(data@).len(),
        r@.len() <= data@.len(),
        forall|i: int| 0 <= i < r@.len() ==> (#[trigger] r@[i])@ == lines(data@)[i],
        forall|i: int| 0 <= i < r@.len() ==> (#[trigger] r@[i])@.len() <= data@.len(),
{
    let mut done: Vec<Vec<u8>> = Vec::new();
    let mut cur: Vec<u8> = Vec::new();
    let mut i: usize = 0;
    while i < data.len()
        invariant
            i <= data@.len(),
            done@.len() == line_state(data@.take(i as int)).0.len(),
            forall|j: int| 0 <= j < done@.len() ==> (#[trigger] done@[j])@ == line_state(data@.take(i as int)).0[j],
            forall|j: int| 0 <= j < done@.len() ==> (#[trigger] done@[j])@.len() <= i,
            cur@ == line_state(data@.take(i as int)).1,
            cur@.len() + done@.len() <= i,
        decreases data@.len() - i,
    {
        assert(data@.take(i + 1).drop_last() == data@.take(i as int));
        assert(data@.take(i + 1).last() == data@[i as int]);
        if data[i] == 10 {
            if cur.len() > 0 {
                let rec = cur;
                done.push(rec);
                cur = Vec::new();
            }
        } else {
            cur.push(data[i]);
        }
        i = i + 1;
    }
    assert(data@.take(data@.len() as int) == data@);
    if cur.len() > 0 {
        done.push(cur);
    }
    done
}

/// A cursor over the words of a wordlist, in iteration order.
#[derive(Clone, Copy)]
pub struct WordlistIterator<'a> {
    wordlist: &'a Wordlist,
    wordbuf_pos: usize,
    word_pos: usize,
    k: Ghost<nat>,
}

impl<'a> WordlistIterator<'a> {
    /// The words of the list this cursor walks.
    pub closed spec fn words(&self) -> Seq<Seq<u8>> {
        self.wordlist@
    }

    /// How many words were returned since the start.
    pub closed spec fn index(&self) -> nat {
        if self.wordlist.words_bufs@.len() == 0 {
            0
        } else {
            count_before(self.wordlist.words_bufs@, self.wordbuf_pos as int) + self.k@
        }
    }

    pub closed spec fn inv(&self) -> bool {
        let bufs = self.wordlist.words_bufs@;
        &&& self.wordlist.wf()
        &&& (bufs.len() == 0 ==> self.wordbuf_pos == 0 && self.word_pos == 0 && self.k@ == 0)
        &&& (bufs.len() > 0 ==> {
            &&& self.wordbuf_pos < bufs.len()
            &&& self.k@ <= bufs[self.wordbuf_pos as int].items@.len()
            &&& self.word_pos == self.k@ * bufs[self.wordbuf_pos as int].len
            &&& (self.wordbuf_pos > 0 ==> self.k@ >= 1)
        })
    }

    /// The next word, or `None` after the last one.
    pub fn next(&mut self) -> (r: Option<&'a [u8]>)
        requires
            old(self).inv(),
        ensures
            final(self).inv(),
            final(self).words() == old(self).words(),
            old(self).index() <= old(self).words().len(),
            old(self).index() < old(self).words().len() ==> r is Some && r->0@ == old(self).words()[old(self).index() as int]
                && final(self).index() == old(self).index() + 1,
            old(self).index() == old(self).words().len() ==> r is None && final(self).index() == old(self).index(),
    {
        let wl = self.wordlist;
        let ghost bufs = wl.words_bufs@;
        proof {
            self.lemma_index_bound();
        }
        if wl.words_bufs.len() == 0 {
            return None;
        }
        let word_buf = &wl.words_bufs[self.wordbuf_pos];
        proof {
            assert(word_buf.wf());
            lemma_uniform_flatten(word_buf.items@, word_buf.len as nat);
        }
        if self.word_pos < word_buf.words.len() {
            let start = self.word_pos;
            let ghost k = self.k@;
            proof {
                assert(k < word_buf.items@.len()) by (nonlinear_arith)
                    requires
                        start == k * word_buf.len,
                        start < word_buf.items@.len() * word_buf.len,
                        word_buf.len >= 1,
                ;
                assert(k * word_buf.len + word_buf.len <= word_buf.items@.len() * word_buf.len) by (nonlinear_arith)
                    requires
                        k < word_buf.items@.len(),
                ;
                lemma_words_of_index(bufs, self.wordbuf_pos as int, k as int);
            }
            self.word_pos = start + word_buf.len;
            self.k = Ghost(k + 1);
            proof {
                assert(self.word_pos == (k + 1) * word_buf.len) by (nonlinear_arith)
                    requires
                        self.word_pos == k * word_buf.len + word_buf.len,
                ;
            }
            let w = vstd::slice::slice_subrange(word_buf.words.as_slice(), start, self.word_pos);
            Some(w)
        } else if self.wordbuf_pos + 1 < wl.words_bufs.len() {
            proof {
                assert(self.k@ == word_buf.items@.len()) by (nonlinear_arith)
                    requires
                        self.word_pos == self.k@ * word_buf.len,
                        self.word_pos >= word_buf.items@.len() * word_buf.len,
                        self.k@ <= word_buf.items@.len(),
                        word_buf.len >= 1,
                ;
            }
            self.wordbuf_pos = self.wordbuf_pos + 1;
            let next_buf = &wl.words_bufs[self.wordbuf_pos];
            proof {
                assert(next_buf.wf());
                lemma_uniform_flatten(next_buf.items@, next_buf.len as nat);
                lemma_words_of_index(bufs, self.wordbuf_pos as int, 0);
                assert(0 * next_buf.len == 0);
                assert(next_buf.items@.flatten().subrange(0, next_buf.len as int) == next_buf.items@[0]);
            }
            self.word_pos = next_buf.len;
            self.k = Ghost(1);
            let w = vstd::slice::slice_subrange(next_buf.words.as_slice(), 0, next_buf.len);
            Some(w)
        } else {
            proof {
                assert(self.k@ == word_buf.items@.len()) by (nonlinear_arith)
                    requires
                        self.word_pos == self.k@ * word_buf.len,
                        self.word_pos >= word_buf.items@.len() * word_buf.len,
                        self.k@ <= word_buf.items@.len(),
                        word_buf.len >= 1,
                ;
                lemma_words_of_len(bufs);
            }
            None
        }
    }

    proof fn lemma_index_bound(&self)
        requires
            self.inv(),
        ensures
            self.index() <= self.wordlist@.len(),
            self.wordlist.words_bufs@.len() > 0 ==> (self.index() == self.wordlist@.len() <==> (
                self.wordbuf_pos + 1 == self.wordlist.words_bufs@.len() && self.k@
                == self.wordlist.words_bufs@[self.wordbuf_pos as int].items@.len())),
            self.wordlist.words_bufs@.len() > 0 && self.index() >= 1 ==> self.wordlist@[self.index() - 1].len()
                == self.wordlist.words_bufs@[self.wordbuf_pos as int].len,
            self.wordlist.words_bufs@.len() > 0 && self.index() == 0 ==> self.wordlist@[0].len()
                == self.wordlist.words_bufs@[0].len,
    {
        let bufs = self.wordlist.words_bufs@;
        lemma_words_of_len(bufs);
        if bufs.len() > 0 {
            let b = self.wordbuf_pos as int;
            lemma_count_monotone(bufs, b + 1, bufs.len() as int);
            if b + 1 < bufs.len() {
                lemma_count_monotone(bufs, b + 2, bufs.len() as int);
                assert(bufs[b + 1].wf());
            }
            assert(bufs[b].wf());
            if self.k@ >= 1 {
                lemma_words_of_index(bufs, b, self.k@ - 1);
            }
            if self.index() == 0 {
                assert(bufs[0].wf());
                lemma_words_of_index(bufs, 0, 0);
            }
        }
    }

    /// The length of the word returned last (of the first word, before any).
    pub fn current_len(&self) -> (r: usize)
        requires
            self.inv(),
            self.words().len() > 0,
        ensures
            self.index() >= 1 ==> r == self.words()[self.index() - 1].len(),
            self.index() == 0 ==> r == self.words()[0].len(),
    {
        proof {
            self.lemma_index_bound();
            if self.wordlist.words_bufs@.len() == 0 {
                assert(self.wordlist@ == Seq::<Seq<u8>>::empty());
            }
        }
        self.wordlist.words_bufs[self.wordbuf_pos].len
    }
}

} // verus!

verus! {

/// Filtering by length twice keeps the words of the second length among the first.
proof fn lemma_of_len_twice(ws: Seq<Seq<u8>>, m: nat, l: nat)
    ensures
        of_len(of_len(ws, m), l) == if l == m { of_len(ws, m) } else { Seq::empty() },
    decreases ws.len(),
{
    reveal(Seq::filter);
    if ws.len() > 0 {
        lemma_of_len_twice(ws.drop_last(), m, l);
        let sub = of_len(ws.drop_last(), m);
        if ws.last().len() == m {
            assert(of_len(ws, m) == sub.push(ws.last()));
            assert(sub.push(ws.last()).drop_last() == sub);
        }
    }
}

proof fn lemma_grouped_shape(ws: Seq<Seq<u8>>, max: nat, l: nat)
    ensures
        forall|i: int| 0 <= i < grouped(ws, max).len() ==> 1 <= (#[trigger] grouped(ws, max)[i]).len() <= max,
        forall|i: int, j: int| 0 <= i < j < grouped(ws, max).len() ==> grouped(ws, max)[i].len() <= grouped(ws, max)[j].len(),
        1 <= l <= max ==> of_len(grouped(ws, max), l) == of_len(ws, l),
    decreases max,
{
    if max > 0 {
        let m1 = (max - 1) as nat;
        lemma_grouped_shape(ws, m1, l);
        let g = grouped(ws, m1);
        let top = of_len(ws, max);
        assert forall|i: int| 0 <= i < top.len() implies (#[trigger] top[i]).len() == max by {
            ws.lemma_filter_pred(|w: Seq<u8>| w.len() == max, i);
        }
        assert(grouped(ws, max) == g + top);
        Seq::filter_distributes_over_add(g, top, |w: Seq<u8>| w.len() == l);
        lemma_of_len_twice(ws, max, l);
        if 1 <= l <= m1 {
            assert(of_len(top, l) == Seq::<Seq<u8>>::empty());
            assert(of_len(ws, l) + Seq::<Seq<u8>>::empty() == of_len(ws, l));
        }
        if l == max {
            assert forall|i: int| 0 <= i < g.len() implies (#[trigger] g[i]).len() != l by {}
            lemma_filter_none(g, |w: Seq<u8>| w.len() == l);
            assert(of_len(g, l) == Seq::<Seq<u8>>::empty());
        }
    }
}

/// Every record of `data` is nonempty and no longer than `data`.
proof fn lemma_lines_len(data: Seq<u8>)
    ensures
        forall|i: int| 0 <= i < lines(data).len() ==> 1 <= (#[trigger] lines(data)[i]).len() <= data.len(),
        forall|i: int| 0 <= i < line_state(data).0.len() ==> 1 <= (#[trigger] line_state(data).0[i]).len() <= data.len(),
        line_state(data).1.len() <= data.len(),
    decreases data.len(),
{
    if data.len() > 0 {
        lemma_lines_len(data.drop_last());
    }
}

/// Iteration order of a wordlist built from `data`: lengths never decrease, and the words
/// of each length are exactly those of `data`, once each, in the order of `data`.
pub proof fn lemma_bucketing(data: Seq<u8>)
    ensures
        ({
            let ws = grouped(lines(data), data.len());
            &&& forall|i: int, j: int| 0 <= i < j < ws.len() ==> ws[i].len() <= ws[j].len()
            &&& forall|l: nat| #[trigger] of_len(ws, l) == of_len(lines(data), l)
        }),
{
    let ls = lines(data);
    let ws = grouped(ls, data.len());
    lemma_grouped_shape(ls, data.len(), 0);
    lemma_lines_len(data);
    assert forall|l: nat| #[trigger] of_len(ws, l) == of_len(ls, l) by {
        lemma_grouped_shape(ls, data.len(), l);
        if !(1 <= l <= data.len()) {
            assert forall|i: int| 0 <= i < ws.len() implies (#[trigger] ws[i]).len() != l by {}
            assert forall|i: int| 0 <= i < ls.len() implies (#[trigger] ls[i]).len() != l by {}
            lemma_filter_none(ws, |w: Seq<u8>| w.len() == l);
            lemma_filter_none(ls, |w: Seq<u8>| w.len() == l);
        }
    }
}

} // verus!
