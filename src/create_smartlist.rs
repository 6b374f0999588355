use vstd::prelude::*;
use vstd::string::StrSliceExecFns;
use vstd::string::StringSliceAdditionalSpecFns;
use vstd::utf8::encode_utf8;

verus! {

/// Vocabulary size that a smartlist gets unless told otherwise.
pub const DEFAULT_VOCAB_SIZE: u32 = 50000;

/// Least token frequency that a smartlist keeps unless told otherwise.
pub const DEFAULT_MIN_FREQUENCY: u32 = 0;

/// The tokenizer families that can train a smartlist.
#[derive(Debug, PartialEq, Eq, PartialOrd, Ord, Hash, Copy, Clone, Structural)]
pub enum SmartlistTokenizer {
    Unigram,
    BPE,
    WordPiece,
}

/// The settings of a smartlist training run.
pub struct SmartlistBuilder {
    pub infiles: Vec<String>,
    pub tokenizers: Vec<SmartlistTokenizer>,
    pub vocab_max_size: u32,
    pub min_frequency: u32,
    pub print_progress: bool,
    pub numbers_max_size: Option<u32>,
    pub min_word_len: u32,
}

impl SmartlistBuilder {
    /// The default settings: no input, the Unigram tokenizer, `DEFAULT_VOCAB_SIZE` tokens,
    /// `DEFAULT_MIN_FREQUENCY`, progress shown, no number filter, words of one byte or more.
    pub open spec fn is_default(&self) -> bool {
        &&& self.infiles@.len() == 0
        &&& self.tokenizers@ == seq![SmartlistTokenizer::Unigram]
        &&& self.vocab_max_size == DEFAULT_VOCAB_SIZE
        &&& self.min_frequency == DEFAULT_MIN_FREQUENCY
        &&& self.print_progress
        &&& self.numbers_max_size is None
        &&& self.min_word_len == 1
    }

    pub fn new() -> (r: SmartlistBuilder)
        ensures
            r.is_default(),
    {
        let mut tokenizers: Vec<SmartlistTokenizer> = Vec::new();
        tokenizers.push(SmartlistTokenizer::Unigram);
        SmartlistBuilder {
            infiles: Vec::new(),
            tokenizers,
            vocab_max_size: DEFAULT_VOCAB_SIZE,
            min_frequency: DEFAULT_MIN_FREQUENCY,
            print_progress: true,
            numbers_max_size: None,
            min_word_len: 1,
        }
    }

    pub fn infiles(self, infiles: Vec<String>) -> (r: SmartlistBuilder)
        ensures
            r.infiles@ == infiles@,
            r.tokenizers@ == self.tokenizers@ && r.vocab_max_size == self.vocab_max_size,
            r.min_frequency == self.min_frequency && r.print_progress == self.print_progress,
            r.numbers_max_size == self.numbers_max_size && r.min_word_len == self.min_word_len,
    {
        SmartlistBuilder { infiles, ..self }
    }

    pub fn vocab_max_size(self, vocab_max_size: u32) -> (r: SmartlistBuilder)
        ensures
            r.vocab_max_size == vocab_max_size,
            r.infiles@ == self.infiles@ && r.tokenizers@ == self.tokenizers@,
            r.min_frequency == self.min_frequency && r.print_progress == self.print_progress,
            r.numbers_max_size == self.numbers_max_size && r.min_word_len == self.min_word_len,
    {
        SmartlistBuilder { vocab_max_size, ..self }
    }

    pub fn min_frequency(self, min_frequency: u32) -> (r: SmartlistBuilder)
        ensures
            r.min_frequency == min_frequency,
            r.infiles@ == self.infiles@ && r.tokenizers@ == self.tokenizers@,
            r.vocab_max_size == self.vocab_max_size && r.print_progress == self.print_progress,
            r.numbers_max_size == self.numbers_max_size && r.min_word_len == self.min_word_len,
    {
        SmartlistBuilder { min_frequency, ..self }
    }

    /// Sets the tokenizer families; each is kept once, in the order of first mention.
    pub fn tokenizers(self, tokenizers: Vec<SmartlistTokenizer>) -> (r: SmartlistBuilder)
        ensures
            r.tokenizers@ == first_mentions(tokenizers@),
            r.tokenizers@.no_duplicates(),
            r.tokenizers@.to_set() == tokenizers@.to_set(),
            r.infiles@ == self.infiles@ && r.vocab_max_size == self.vocab_max_size,
            r.min_frequency == self.min_frequency && r.print_progress == self.print_progress,
            r.numbers_max_size == self.numbers_max_size && r.min_word_len == self.min_word_len,
    {
        let mut kept: Vec<SmartlistTokenizer> = Vec::new();
        let mut i: usize = 0;
        while i < tokenizers.len()
            invariant
                i <= tokenizers@.len(),
                kept@ == first_mentions(tokenizers@.take(i as int)),
                kept@.no_duplicates(),
                kept@.to_set() == tokenizers@.take(i as int).to_set(),
            decreases tokenizers@.len() - i,
        {
            let t = tokenizers[i];
            let mut seen = false;
            let mut k: usize = 0;
            while k < kept.len()
                invariant
                    k <= kept@.len(),
                    seen <==> exists|x: int| 0 <= x < k && kept@[x] == t,
                decreases kept@.len() - k,
            {
                if kept[k] == t {
                    seen = true;
                }
                k = k + 1;
            }
            let ghost before = kept@;
            if !seen {
                kept.push(t);
                proof {
                    assert forall|a: int, b: int| 0 <= a < b < kept@.len() implies kept@[a] != kept@[b] by {
                        if b == before.len() {
                            assert(kept@[a] == before[a]);
                        }
                    }
                    before.lemma_push_to_set_commute(t);
                }
            } else {
                proof {
                    let x = choose|x: int| 0 <= x < before.len() && before[x] == t;
                    assert(before.to_set().contains(t));
                    assert(before.to_set().insert(t) =~= before.to_set());
                }
            }
            proof {
                assert(tokenizers@.take(i + 1) == tokenizers@.take(i as int).push(t));
                assert(tokenizers@.take(i + 1).drop_last() == tokenizers@.take(i as int));
                assert(seen <==> before.contains(t)) by {
                    if before.contains(t) {
                        let x = choose|x: int| 0 <= x < before.len() && before[x] == t;
                        assert(before[x] == t);
                    }
                }
                tokenizers@.take(i as int).lemma_push_to_set_commute(t);
            }
            i = i + 1;
        }
        assert(tokenizers@.take(tokenizers@.len() as int) == tokenizers@);
        SmartlistBuilder { tokenizers: kept, ..self }
    }

    pub fn print_progress(self, print_progress: bool) -> (r: SmartlistBuilder)
        ensures
            r.print_progress == print_progress,
            r.infiles@ == self.infiles@ && r.tokenizers@ == self.tokenizers@,
            r.vocab_max_size == self.vocab_max_size && r.min_frequency == self.min_frequency,
            r.numbers_max_size == self.numbers_max_size && r.min_word_len == self.min_word_len,
    {
        SmartlistBuilder { print_progress, ..self }
    }

    pub fn numbers_max_size(self, numbers_max_size: Option<u32>) -> (r: SmartlistBuilder)
        ensures
            r.numbers_max_size == numbers_max_size,
            r.infiles@ == self.infiles@ && r.tokenizers@ == self.tokenizers@,
            r.vocab_max_size == self.vocab_max_size && r.min_frequency == self.min_frequency,
            r.print_progress == self.print_progress && r.min_word_len == self.min_word_len,
    {
        SmartlistBuilder { numbers_max_size, ..self }
    }

    pub fn min_word_len(self, min_word_len: u32) -> (r: SmartlistBuilder)
        ensures
            r.min_word_len == min_word_len,
            r.infiles@ == self.infiles@ && r.tokenizers@ == self.tokenizers@,
            r.vocab_max_size == self.vocab_max_size && r.min_frequency == self.min_frequency,
            r.print_progress == self.print_progress && r.numbers_max_size == self.numbers_max_size,
    {
        SmartlistBuilder { min_word_len, ..self }
    }
}

/// Each element of `s` once, in the order of its first occurrence.
pub open spec fn first_mentions(s: Seq<SmartlistTokenizer>) -> Seq<SmartlistTokenizer>
    decreases s.len(),
{
    if s.len() == 0 {
        Seq::empty()
    } else {
        let p = first_mentions(s.drop_last());
        if p.contains(s.last()) {
            p
        } else {
            p.push(s.last())
        }
    }
}

impl Default for SmartlistBuilder {
    fn default() -> (r: SmartlistBuilder)
        ensures
            r.is_default(),
    {
        SmartlistBuilder::new()
    }
}

/// Whether `c` has a Unicode numeric general category.
pub uninterp spec fn numeric_char(c: char) -> bool;

/// Relies on `char::is_numeric`: decided by `c` alone; the ASCII digits are numeric.
#[verifier::external_body]
fn is_numeric(c: char) -> (r: bool)
    ensures
        r == numeric_char(c),
        '0' <= c <= '9' ==> r,
{
    c.is_numeric()
}

/// The number of bytes of `s` in UTF-8.
pub open spec fn utf8_len(s: Seq<char>) -> nat {
    encode_utf8(s).len()
}

/// The length of `s` in bytes.
fn byte_len(s: &String) -> (r: usize)
    ensures
        r == utf8_len(s@),
{
    let t = s.as_str();
    let b = t.as_bytes();
    assert(t.spec_bytes() == encode_utf8(t@));
    b.len()
}

/// Every character of `s` is numeric.
pub open spec fn all_numeric(s: Seq<char>) -> bool {
    forall|i: int| 0 <= i < s.len() ==> numeric_char(#[trigger] s[i])
}

fn is_all_numeric(s: &String) -> (r: bool)
    ensures
        r == all_numeric(s@),
{
    let t = s.as_str();
    let n = t.unicode_len();
    let mut i: usize = 0;
    while i < n
        invariant
            n == t@.len(),
            t@ == s@,
            i <= n,
            forall|k: int| 0 <= k < i ==> numeric_char(#[trigger] s@[k]),
        decreases n - i,
    {
        if !is_numeric(t.get_char(i)) {
            return false;
        }
        i = i + 1;
    }
    true
}

pub open spec fn strings_view(v: Seq<String>) -> Seq<Seq<char>> {
    v.map_values(|s: String| s@)
}

/// A word that `remove_long_numbers` keeps: not all numeric, or at most `max_len` bytes.
pub open spec fn keeps_number(s: Seq<char>, max_len: nat) -> bool {
    !all_numeric(s) || utf8_len(s) <= max_len
}

/// Drops the words that are all numeric and longer than `max_len` bytes; the others keep
/// their order.
pub fn remove_long_numbers(vocab: Vec<String>, max_len: usize) -> (r: Vec<String>)
    ensures
        strings_view(r@) == strings_view(vocab@).filter(|s: Seq<char>| keeps_number(s, max_len as nat)),
{
    let mut out: Vec<String> = Vec::new();
    let mut i: usize = 0;
    while i < vocab.len()
        invariant
            i <= vocab@.len(),
            strings_view(out@) == strings_view(vocab@.take(i as int)).filter(|s: Seq<char>| keeps_number(s, max_len as nat)),
        decreases vocab@.len() - i,
    {
        let s = &vocab[i];
        let keep = !is_all_numeric(s) || byte_len(s) <= max_len;
        proof {
            assert(strings_view(vocab@.take(i + 1)) == strings_view(vocab@.take(i as int)).push(s@));
            strings_view(vocab@.take(i as int)).lemma_filter_push(s@, |t: Seq<char>| keeps_number(t, max_len as nat));
        }
        if keep {
            let c = s.clone();
            let ghost before = out@;
            out.push(c);
            proof {
                assert(strings_view(out@) == strings_view(before).push(s@));
            }
        }
        i = i + 1;
    }
    assert(vocab@.take(vocab@.len() as int) == vocab@);
    out
}

/// Drops the words shorter than `min_word_len` bytes; the others keep their order.
pub fn remove_shorter_than_len(vocab: Vec<String>, min_word_len: usize) -> (r: Vec<String>)
    ensures
        strings_view(r@) == strings_view(vocab@).filter(|s: Seq<char>| utf8_len(s) >= min_word_len),
{
    let mut out: Vec<String> = Vec::new();
    let mut i: usize = 0;
    while i < vocab.len()
        invariant
            i <= vocab@.len(),
            strings_view(out@) == strings_view(vocab@.take(i as int)).filter(|s: Seq<char>| utf8_len(s) >= min_word_len),
        decreases vocab@.len() - i,
    {
        let s = &vocab[i];
        let keep = byte_len(s) >= min_word_len;
        proof {
            assert(strings_view(vocab@.take(i + 1)) == strings_view(vocab@.take(i as int)).push(s@));
            strings_view(vocab@.take(i as int)).lemma_filter_push(s@, |t: Seq<char>| utf8_len(t) >= min_word_len);
        }
        if keep {
            let c = s.clone();
            let ghost before = out@;
            out.push(c);
            proof {
                assert(strings_view(out@) == strings_view(before).push(s@));
            }
        }
        i = i + 1;
    }
    assert(vocab@.take(vocab@.len() as int) == vocab@);
    out
}

/// The words of a ranked vocabulary that a builder keeps: without the words shorter than
/// `min_word_len` bytes (when it is above zero), without the long numbers (when
/// `numbers_max_size` is set), and at most `vocab_max_size` of them, best ranked first.
pub open spec fn finished_vocab(b: SmartlistBuilder, ranked: Seq<Seq<char>>) -> Seq<Seq<char>> {
    let by_len = if b.min_word_len > 0 {
        ranked.filter(|s: Seq<char>| utf8_len(s) >= b.min_word_len as usize)
    } else {
        ranked
    };
    let by_number = match b.numbers_max_size {
        Some(m) => by_len.filter(|s: Seq<char>| keeps_number(s, m as usize as nat)),
        None => by_len,
    };
    if by_number.len() > b.vocab_max_size {
        by_number.take(b.vocab_max_size as int)
    } else {
        by_number
    }
}

impl SmartlistBuilder {
    /// Applies the filters and the size bound to a vocabulary ranked best first.
    pub fn finish(&self, ranked: Vec<String>) -> (r: Vec<String>)
        ensures
            strings_view(r@) == finished_vocab(*self, strings_view(ranked@)),
    {
        let mut vocab = ranked;
        if self.min_word_len > 0 {
            vocab = remove_shorter_than_len(vocab, self.min_word_len as usize);
        }
        if let Some(m) = self.numbers_max_size {
            vocab = remove_long_numbers(vocab, m as usize);
        }
        let ghost before = vocab@;
        vocab.truncate(self.vocab_max_size as usize);
        proof {
            if before.len() > self.vocab_max_size {
                assert(strings_view(vocab@) =~= strings_view(before).take(self.vocab_max_size as int));
            } else {
                assert(vocab@ == before);
            }
        }
        vocab
    }
}

} // verus!
