use vstd::prelude::*;

use num_bigint::BigUint;

use crate::bignum::{big_from_u64, big_lt, big_mul_u64, big_value};
use crate::charsets::{in_builtin, is_digit_byte, is_lower_byte, is_symbol_byte, is_upper_byte};
use crate::error::{decimal, decimal_text, CrackenError};
use crate::wordlists::lines;

verus! {

/// A vocabulary set and the symbol that names it in masks.
pub struct SymbolSet {
    pub symbol: String,
    pub words: Vec<Vec<u8>>,
}

pub open spec fn words_view(words: Seq<Vec<u8>>) -> Seq<Seq<u8>> {
    words.map_values(|v: Vec<u8>| v@)
}

impl SymbolSet {
    pub open spec fn view_words(&self) -> Seq<Seq<u8>> {
        words_view(self.words@)
    }
}

/// Scores passwords against the builtin charsets and vocabularies.
pub struct EntropyEstimator {
    pub sets: Vec<SymbolSet>,
}

/// The index and size of the smallest set among `sets` that holds `w`; on equal sizes the
/// first one.
pub open spec fn cheapest(sets: Seq<Seq<Seq<u8>>>, w: Seq<u8>) -> Option<(int, nat)>
    decreases sets.len(),
{
    if sets.len() == 0 {
        None
    } else {
        let k = sets.len() - 1;
        let r = cheapest(sets.drop_last(), w);
        if sets[k].contains(w) {
            match r {
                None => Some((k, sets[k].len())),
                Some(best) => if sets[k].len() < best.1 { Some((k, sets[k].len())) } else { r },
            }
        } else {
            r
        }
    }
}

/// The size of the cheapest set that holds `w`.
pub open spec fn edge_size(sets: Seq<Seq<Seq<u8>>>, w: Seq<u8>) -> nat {
    match cheapest(sets, w) {
        Some(best) => best.1,
        None => 0,
    }
}

/// `cuts` splits `pwd` into pieces that some set holds: it starts at 0, ends at
/// `end`, and rises strictly.
pub open spec fn seg_valid(sets: Seq<Seq<Seq<u8>>>, pwd: Seq<u8>, cuts: Seq<int>, end: int) -> bool {
    &&& cuts.len() >= 1
    &&& cuts[0] == 0
    &&& cuts.last() == end
    &&& end <= pwd.len()
    &&& forall|t: int| 0 <= t < cuts.len() - 1 ==> #[trigger] cuts[t] < cuts[t + 1]
    &&& forall|t: int| 0 <= t < cuts.len() - 1 ==> #[trigger] cheapest(sets, pwd.subrange(cuts[t], cuts[t + 1])) is Some
}

/// The product of the sizes of the cheapest sets of the pieces.
pub open spec fn seg_cost(sets: Seq<Seq<Seq<u8>>>, pwd: Seq<u8>, cuts: Seq<int>) -> nat
    decreases cuts.len(),
{
    if cuts.len() <= 1 {
        1
    } else {
        let m = cuts.len() - 1;
        seg_cost(sets, pwd, cuts.drop_last()) * edge_size(sets, pwd.subrange(cuts[m - 1], cuts[m]))
    }
}

/// The pieces that `cuts` makes of `pwd`.
pub open spec fn seg_pieces(pwd: Seq<u8>, cuts: Seq<int>) -> Seq<Seq<u8>> {
    Seq::new((cuts.len() - 1) as nat, |t: int| pwd.subrange(cuts[t], cuts[t + 1]))
}

/// A split of a password of least cost.
pub struct SubwordSplit {
    /// Offsets where pieces start, then the password length.
    pub cuts: Vec<usize>,
    /// For each piece, the index of the set that holds it.
    pub labels: Vec<usize>,
    /// For each piece, the size of that set.
    pub sizes: Vec<usize>,
    /// The product of the sizes.
    pub cost: BigUint,
}

fn bytes_eq(a: &[u8], b: &[u8]) -> (r: bool)
    ensures
        r == (a@ == b@),
{
    if a.len() != b.len() {
        return false;
    }
    let mut i: usize = 0;
    while i < a.len()
        invariant
            a@.len() == b@.len(),
            i <= a@.len(),
            forall|k: int| 0 <= k < i ==> a@[k] == b@[k],
        decreases a@.len() - i,
    {
        if a[i] != b[i] {
            return false;
        }
        i = i + 1;
    }
    assert(a@ =~= b@);
    true
}

/// Word lengths never decrease along `ws`.
pub open spec fn len_ordered(ws: Seq<Seq<u8>>) -> bool {
    forall|a: int, b: int| 0 <= a < b < ws.len() ==> ws[a].len() <= ws[b].len()
}

/// Whether `w` is among `words`, which go by length: a binary search finds the words of
/// its length, which are then compared.
fn set_contains(words: &Vec<Vec<u8>>, w: &[u8]) -> (r: bool)
    requires
        len_ordered(words_view(words@)),
    ensures
        r == words_view(words@).contains(w@),
{
    let ghost v = words_view(words@);
    let n = words.len();
    let m = w.len();
    let mut lo: usize = 0;
    let mut hi: usize = n;
    while lo < hi
        invariant
            n == words@.len(),
            v == words_view(words@),
            len_ordered(v),
            lo <= hi <= n,
            forall|i: int| 0 <= i < lo ==> (#[trigger] words@[i])@.len() < m,
            forall|i: int| hi <= i < n ==> (#[trigger] words@[i])@.len() >= m,
        decreases hi - lo,
    {
        let mid = lo + (hi - lo) / 2;
        if words[mid].len() < m {
            proof {
                assert forall|i: int| 0 <= i <= mid implies (#[trigger] words@[i])@.len() < m by {
                    assert(v[i].len() <= v[mid as int].len());
                }
            }
            lo = mid + 1;
        } else {
            proof {
                assert forall|i: int| mid <= i < n implies (#[trigger] words@[i])@.len() >= m by {
                    assert(v[mid as int].len() <= v[i].len());
                }
            }
            hi = mid;
        }
    }
    let mut i: usize = lo;
    while i < n && words[i].len() == m
        invariant
            n == words@.len(),
            v == words_view(words@),
            len_ordered(v),
            lo <= i <= n,
            forall|k: int| 0 <= k < lo ==> (#[trigger] words@[k])@.len() < m,
            forall|k: int| lo <= k < i ==> (#[trigger] words@[k])@ != w@,
        decreases n - i,
    {
        if bytes_eq(words[i].as_slice(), w) {
            assert(v[i as int] == w@);
            return true;
        }
        i = i + 1;
    }
    assert forall|k: int| 0 <= k < v.len() implies v[k] != w@ by {
        if k < lo {
            assert(words@[k]@.len() < m);
        } else if k < i {
            assert(words@[k]@ != w@);
        } else {
            assert(words@[i as int]@.len() != m);
            assert(v[i as int].len() <= v[k].len());
            assert(words@[k]@.len() >= m);
        }
    }
    false
}

/// Whether `w` is among `words` from index `start` on.
fn contains_from(words: &Vec<Vec<u8>>, start: usize, w: &[u8]) -> (r: bool)
    requires
        start <= words@.len(),
    ensures
        r == exists|i: int| start <= i < words@.len() && (#[trigger] words@[i])@ == w@,
{
    let mut i: usize = start;
    while i < words.len()
        invariant
            start <= i <= words@.len(),
            forall|k: int| start <= k < i ==> (#[trigger] words@[k])@ != w@,
        decreases words@.len() - i,
    {
        if bytes_eq(words[i].as_slice(), w) {
            return true;
        }
        i = i + 1;
    }
    false
}

/// The distinct records of `data`.
fn vocab_of(data: &[u8]) -> (r: Vec<Vec<u8>>)
    ensures
        len_ordered(words_view(r@)),
        words_view(r@).no_duplicates(),
        words_view(r@).to_set() == lines(data@).to_set(),
{
    let wl = crate::wordlists::Wordlist::from_bytes(data);
    let mut words: Vec<Vec<u8>> = Vec::new();
    let mut it = wl.iter();
    // the words of the current length start at `group_start`
    let mut group_start: usize = 0;
    let mut cur_len: usize = 0;
    proof {
        crate::wordlists::lemma_bucketing(data@);
        assert(words_view(words@).to_set() =~= wl@.take(0).to_set());
    }
    loop
        invariant
            it.inv(),
            it.words() == wl@,
            wl@ == crate::wordlists::grouped(lines(data@), data@.len()),
            forall|i: int, j: int| 0 <= i < j < wl@.len() ==> wl@[i].len() <= wl@[j].len(),
            it.index() <= wl@.len(),
            it.index() > 0 ==> wl@[it.index() - 1].len() == cur_len,
            it.index() == 0 ==> cur_len == 0,
            group_start <= words@.len(),
            forall|i: int| 0 <= i < group_start ==> (#[trigger] words@[i])@.len() < cur_len,
            forall|i: int| group_start <= i < words@.len() ==> (#[trigger] words@[i])@.len() == cur_len,
            len_ordered(words_view(words@)),
            words_view(words@).no_duplicates(),
            words_view(words@).to_set() == wl@.take(it.index() as int).to_set(),
        decreases wl@.len() - it.index(),
    {
        let ghost i0 = it.index();
        match it.next() {
            Some(w) => {
                proof {
                    if i0 > 0 {
                        assert(wl@[i0 - 1].len() <= wl@[i0 as int].len());
                    }
                }
                let ghost old_len = cur_len;
                let ghost old_start = group_start;
                if w.len() > cur_len {
                    group_start = words.len();
                    cur_len = w.len();
                }
                proof {
                    assert(w@.len() == cur_len);
                    assert forall|i: int| 0 <= i < group_start implies (#[trigger] words@[i])@.len() < cur_len by {
                        if i < old_start {
                            assert(words@[i]@.len() < old_len);
                        } else {
                            assert(words@[i]@.len() == old_len);
                        }
                    }
                }
                let ghost before = words_view(words@);
                let found = contains_from(&words, group_start, w);
                proof {
                    assert(found <==> before.contains(w@)) by {
                        if before.contains(w@) {
                            let k = choose|k: int| 0 <= k < before.len() && before[k] == w@;
                            assert(words@[k]@ == w@);
                            if k < group_start {
                                assert(words@[k]@.len() < cur_len);
                            }
                        }
                        if found {
                            let k = choose|k: int| group_start <= k < words@.len() && (#[trigger] words@[k])@ == w@;
                            assert(before[k] == w@);
                        }
                    }
                }
                if !found {
                    let v = vstd::slice::slice_to_vec(w);
                    words.push(v);
                    proof {
                        assert(words_view(words@) == before.push(w@));
                        assert forall|a: int, b: int| 0 <= a < b < words_view(words@).len() implies
                            words_view(words@)[a].len() <= words_view(words@)[b].len() by {
                            if b == before.len() {
                                assert(words@[a]@.len() <= cur_len);
                            } else {
                                assert(before[a].len() <= before[b].len());
                            }
                        }
                        before.lemma_push_to_set_commute(w@);
                        assert forall|a: int, b: int| 0 <= a < b < words_view(words@).len() implies words_view(words@)[a] != words_view(words@)[b] by {
                            if b == before.len() {
                                assert(words_view(words@)[a] == before[a]);
                            }
                        }
                    }
                } else {
                    proof {
                        assert(before.to_set().insert(w@) =~= before.to_set());
                    }
                }
                proof {
                    assert(wl@.take(i0 as int + 1) == wl@.take(i0 as int).push(w@));
                    wl@.take(i0 as int).lemma_push_to_set_commute(w@);
                }
            },
            None => {
                proof {
                    assert(wl@.take(i0 as int) == wl@);
                    lemma_grouped_same_set(data@);
                }
                return words;
            },
        }
    }
}

/// Grouping words by length keeps the same words.
proof fn lemma_grouped_same_set(data: Seq<u8>)
    ensures
        crate::wordlists::grouped(lines(data), data.len()).to_set() == lines(data).to_set(),
{
    let ls = lines(data);
    let ws = crate::wordlists::grouped(ls, data.len());
    crate::wordlists::lemma_bucketing(data);
    assert forall|w: Seq<u8>| ws.contains(w) <==> ls.contains(w) by {
        let l = w.len();
        let p = |x: Seq<u8>| x.len() == l;
        assert(crate::wordlists::of_len(ws, l) == crate::wordlists::of_len(ls, l));
        assert(ws.filter(p) == ls.filter(p));
        if ws.contains(w) {
            let i = choose|i: int| 0 <= i < ws.len() && ws[i] == w;
            ws.lemma_filter_contains(p, i);
            ls.lemma_filter_contains_rev(p, w);
        }
        if ls.contains(w) {
            let i = choose|i: int| 0 <= i < ls.len() && ls[i] == w;
            ls.lemma_filter_contains(p, i);
            ws.lemma_filter_contains_rev(p, w);
        }
    }
    assert(ws.to_set() =~= ls.to_set());
}

/// The product of `sizes`.
pub open spec fn sizes_product(sizes: Seq<usize>) -> nat
    decreases sizes.len(),
{
    if sizes.len() == 0 {
        1
    } else {
        sizes_product(sizes.drop_last()) * (sizes.last() as nat)
    }
}

/// The path that `parent` records back from node `j` to node 0.
pub open spec fn path_of(parent: Seq<usize>, j: int) -> Seq<int>
    decreases j,
{
    if j <= 0 || j >= parent.len() || parent[j] >= j {
        seq![0int]
    } else {
        path_of(parent, parent[j] as int).push(j)
    }
}

pub open spec fn as_ints(v: Seq<usize>) -> Seq<int> {
    v.map_values(|x: usize| x as int)
}

impl EntropyEstimator {
    /// The words of each set go by length, which lookups rely on, and none is there twice,
    /// so the size of a set is its number of words.
    pub open spec fn wf(&self) -> bool {
        &&& forall|k: int| 0 <= k < self.sets@.len() ==> len_ordered(#[trigger] self.sets@[k].view_words())
        &&& forall|k: int| 0 <= k < self.sets@.len() ==> (#[trigger] self.sets@[k]).view_words().no_duplicates()
    }

    /// The words of each set, in order.
    pub open spec fn sets_view(&self) -> Seq<Seq<Seq<u8>>> {
        self.sets@.map_values(|s: SymbolSet| s.view_words())
    }

    /// Whether some set holds `w`; then the index of the smallest such set and its size.
    fn cheapest_set(&self, w: &[u8]) -> (r: (bool, usize, usize))
        requires
            self.wf(),
        ensures
            r.0 <==> cheapest(self.sets_view(), w@) is Some,
            r.0 ==> cheapest(self.sets_view(), w@) == Some((r.1 as int, r.2 as nat)),
    {
        let mut found = false;
        let mut bk: usize = 0;
        let mut bs: usize = 0;
        let mut k: usize = 0;
        while k < self.sets.len()
            invariant
                self.wf(),
                k <= self.sets@.len(),
                found <==> cheapest(self.sets_view().take(k as int), w@) is Some,
                found ==> cheapest(self.sets_view().take(k as int), w@) == Some((bk as int, bs as nat)),
            decreases self.sets@.len() - k,
        {
            assert(self.sets_view().take(k + 1).drop_last() == self.sets_view().take(k as int));
            assert(self.sets_view().take(k + 1)[k as int] == self.sets@[k as int].view_words());
            let set = &self.sets[k];
            if set_contains(&set.words, w) {
                let size = set.words.len();
                if !found || size < bs {
                    found = true;
                    bk = k;
                    bs = size;
                }
            }
            k = k + 1;
        }
        assert(self.sets_view().take(self.sets@.len() as int) == self.sets_view());
        (found, bk, bs)
    }

    /// The cheapest way into node `j` from an earlier reachable node, if any.
    fn best_edge_into(&self, pwd: &[u8], costs: &Vec<BigUint>, reach: &Vec<bool>, j: usize) -> (r: (bool, BigUint, usize))
        requires
            self.wf(),
            1 <= j <= pwd@.len(),
            costs@.len() == j && reach@.len() == j,
        ensures
            r.2 < j,
            r.0 ==> r.2 < j && reach@[r.2 as int] && cheapest(self.sets_view(), pwd@.subrange(r.2 as int, j as int)) is Some
                && big_value(r.1) == big_value(costs@[r.2 as int]) * edge_size(self.sets_view(), pwd@.subrange(r.2 as int, j as int)),
            !r.0 ==> forall|x: int| 0 <= x < j && #[trigger] reach@[x] ==> cheapest(self.sets_view(), pwd@.subrange(x, j as int)) is None,
            r.0 ==> forall|x: int| 0 <= x < j && #[trigger] reach@[x] && cheapest(self.sets_view(), pwd@.subrange(x, j as int)) is Some
                ==> big_value(costs@[x]) * edge_size(self.sets_view(), pwd@.subrange(x, j as int)) >= big_value(r.1),
    {
        let ghost sets = self.sets_view();
        let mut found = false;
        let mut best_cost = big_from_u64(0);
        let mut best_parent: usize = 0;
        let mut i: usize = 0;
        while i < j
            invariant
                self.wf(),
                sets == self.sets_view(),
                1 <= j <= pwd@.len(),
                i <= j,
                best_parent < j,
                costs@.len() == j && reach@.len() == j,
                found ==> best_parent < i && reach@[best_parent as int]
                    && cheapest(sets, pwd@.subrange(best_parent as int, j as int)) is Some
                    && big_value(best_cost) == big_value(costs@[best_parent as int]) * edge_size(sets, pwd@.subrange(best_parent as int, j as int)),
                !found ==> forall|x: int| 0 <= x < i && #[trigger] reach@[x] ==> cheapest(sets, pwd@.subrange(x, j as int)) is None,
                found ==> forall|x: int| 0 <= x < i && #[trigger] reach@[x] && cheapest(sets, pwd@.subrange(x, j as int)) is Some
                    ==> big_value(costs@[x]) * edge_size(sets, pwd@.subrange(x, j as int)) >= big_value(best_cost),
            decreases j - i,
        {
            if reach[i] {
                let piece = vstd::slice::slice_subrange(pwd, i, j);
                let (has, _k, size) = self.cheapest_set(piece);
                if has {
                    let cand = big_mul_u64(&costs[i], size as u64);
                    if !found || big_lt(&cand, &best_cost) {
                        found = true;
                        best_cost = cand;
                        best_parent = i;
                    }
                }
            }
            i = i + 1;
        }
        (found, best_cost, best_parent)
    }

    /// The least cost of reaching each node, whether it is reachable, and the node before
    /// it on a cheapest path.
    #[verifier::rlimit(60)]
    fn dp_nodes(&self, pwd: &[u8]) -> (r: (Vec<BigUint>, Vec<bool>, Vec<usize>))
        requires
            self.wf(),
        ensures
            ({
                let (costs, reach, parent) = r;
                let sets = self.sets_view();
                let n = pwd@.len() as int;
                &&& costs@.len() == n + 1 && reach@.len() == n + 1 && parent@.len() == n + 1
                &&& forall|x: int| 0 < x <= n ==> #[trigger] parent@[x] < x
                &&& forall|x: int| 0 <= x <= n ==> (#[trigger] reach@[x] <==> exists|cuts: Seq<int>| #[trigger] seg_valid(sets, pwd@, cuts, x))
                &&& forall|x: int| 0 <= x <= n && #[trigger] reach@[x] ==> seg_valid(sets, pwd@, path_of(parent@, x), x)
                    && seg_cost(sets, pwd@, path_of(parent@, x)) == big_value(costs@[x])
                &&& forall|x: int, cuts: Seq<int>| 0 <= x <= n && #[trigger] seg_valid(sets, pwd@, cuts, x) ==> seg_cost(sets, pwd@, cuts) >= big_value(#[trigger] costs@[x])
            }),
    {
        let n = pwd.len();
        let ghost sets = self.sets_view();
        let mut costs: Vec<BigUint> = Vec::new();
        let mut reach: Vec<bool> = Vec::new();
        let mut parent: Vec<usize> = Vec::new();
        costs.push(big_from_u64(1));
        reach.push(true);
        parent.push(0);
        proof {
            assert(seg_valid(sets, pwd@, seq![0int], 0));
            assert forall|cuts: Seq<int>| #[trigger] seg_valid(sets, pwd@, cuts, 0) implies seg_cost(sets, pwd@, cuts) >= big_value(costs@[0]) by {
                if cuts.len() > 1 {
                    lemma_cuts_increase(sets, pwd@, cuts, 0);
                    assert(cuts[0] < cuts[cuts.len() - 1]);
                }
            }
            assert(path_of(parent@, 0) == seq![0int]);
            assert(seg_cost(sets, pwd@, seq![0int]) == 1);
        }
        let mut done: usize = 0;
        while done < n
            invariant
                self.wf(),
                n == pwd@.len(),
                sets == self.sets_view(),
                done <= n,
                costs@.len() == done + 1 && reach@.len() == done + 1 && parent@.len() == done + 1,
                forall|x: int| 0 < x < done + 1 ==> #[trigger] parent@[x] < x,
                forall|x: int| 0 <= x < done + 1 ==> (#[trigger] reach@[x] <==> exists|cuts: Seq<int>| #[trigger] seg_valid(sets, pwd@, cuts, x)),
                forall|x: int| 0 <= x < done + 1 && #[trigger] reach@[x] ==> seg_valid(sets, pwd@, path_of(parent@, x), x)
                    && seg_cost(sets, pwd@, path_of(parent@, x)) == big_value(costs@[x]),
                forall|x: int, cuts: Seq<int>| 0 <= x < done + 1 && #[trigger] seg_valid(sets, pwd@, cuts, x) ==> seg_cost(sets, pwd@, cuts) >= big_value(#[trigger] costs@[x]),
            decreases n - done,
        {
            let j = done + 1;
            let (found, best_cost, best_parent) = self.best_edge_into(pwd, &costs, &reach, j);
            proof {
                self.lemma_node_optimal(pwd@, costs@, reach@, j as int, found, best_cost);
            }
            let ghost old_parent = parent@;
            costs.push(best_cost);
            reach.push(found);
            parent.push(best_parent);
            proof {
                assert forall|x: int| 0 < x < j + 1 implies #[trigger] parent@[x] < x by {
                    if x < j {
                        assert(parent@[x] == old_parent[x]);
                    }
                }
                assert forall|x: int| 0 <= x < j + 1 && #[trigger] reach@[x] implies seg_valid(sets, pwd@, path_of(parent@, x), x)
                    && seg_cost(sets, pwd@, path_of(parent@, x)) == big_value(costs@[x]) by {
                    lemma_path_prefix(old_parent, parent@, x);
                    if x == j {
                        let pp = best_parent as int;
                        lemma_path_prefix(old_parent, parent@, pp);
                        if pp == 0 {
                            assert(path_of(parent@, 0) == seq![0int]);
                        }
                        lemma_seg_extend(sets, pwd@, path_of(parent@, pp), pp, j as int);
                    } else {
                        assert(reach@[x] == old_reach_at(reach@, x));
                    }
                }
            }
            done = j;
        }
        (costs, reach, parent)
    }

    proof fn lemma_node_optimal(&self, pwd: Seq<u8>, costs: Seq<BigUint>, reach: Seq<bool>, j: int, found: bool, best: BigUint)
        requires
            1 <= j <= pwd.len(),
            costs.len() == j && reach.len() == j,
            forall|x: int| 0 <= x < j ==> (#[trigger] reach[x] <==> exists|cuts: Seq<int>| #[trigger] seg_valid(self.sets_view(), pwd, cuts, x)),
            forall|x: int, cuts: Seq<int>| 0 <= x < j && #[trigger] seg_valid(self.sets_view(), pwd, cuts, x) ==> seg_cost(self.sets_view(), pwd, cuts) >= big_value(#[trigger] costs[x]),
            !found ==> forall|x: int| 0 <= x < j && #[trigger] reach[x] ==> cheapest(self.sets_view(), pwd.subrange(x, j)) is None,
            found ==> forall|x: int| 0 <= x < j && #[trigger] reach[x] && cheapest(self.sets_view(), pwd.subrange(x, j)) is Some
                ==> big_value(costs[x]) * edge_size(self.sets_view(), pwd.subrange(x, j)) >= big_value(best),
        ensures
            forall|cuts: Seq<int>| #[trigger] seg_valid(self.sets_view(), pwd, cuts, j) ==> found
                && seg_cost(self.sets_view(), pwd, cuts) >= big_value(best),
    {
        let sets = self.sets_view();
        assert forall|cuts: Seq<int>| #[trigger] seg_valid(sets, pwd, cuts, j) implies found
            && seg_cost(sets, pwd, cuts) >= big_value(best) by {
            let m = cuts.len() - 1;
            lemma_cuts_increase(sets, pwd, cuts, j);
            assert(m >= 1) by {
                if m == 0 {
                    assert(cuts[0] == cuts.last());
                }
            }
            let x = cuts[m - 1];
            let pre = cuts.drop_last();
            assert(seg_valid(sets, pwd, pre, x)) by {
                assert forall|t: int| 0 <= t < pre.len() - 1 implies #[trigger] pre[t] < pre[t + 1] by {
                    assert(cuts[t] < cuts[t + 1]);
                }
                assert forall|t: int| 0 <= t < pre.len() - 1 implies #[trigger] cheapest(sets, pwd.subrange(pre[t], pre[t + 1])) is Some by {
                    assert(cheapest(sets, pwd.subrange(cuts[t], cuts[t + 1])) is Some);
                }
            }
            assert(0 <= x < j) by {
                assert(cuts[0] <= cuts[m - 1]) by {
                    if m - 1 > 0 {
                        assert(cuts[0] < cuts[m - 1]);
                    }
                }
                assert(cuts[m - 1] < cuts[m]);
            }
            assert(reach[x]);
            assert(cheapest(sets, pwd.subrange(cuts[m - 1], cuts[m])) is Some);
            let c = seg_cost(sets, pwd, pre);
            let bx = big_value(costs[x]);
            let e = edge_size(sets, pwd.subrange(x, j));
            assert(c >= bx);
            assert(c * e >= bx * e) by (nonlinear_arith)
                requires
                    c >= bx,
            ;
        }
    }

    /// A split of `pwd` into pieces held by the sets whose product of set sizes is least,
    /// or an error when no split exists.
    pub fn min_subword_split(&self, pwd: &[u8]) -> (r: Result<SubwordSplit, CrackenError>)
        requires
            self.wf(),
        ensures
            r is Err <==> !exists|cuts: Seq<int>| #[trigger] seg_valid(self.sets_view(), pwd@, cuts, pwd@.len() as int),
            r is Err ==> r->Err_0 == CrackenError::BadPasswordChars,
            r is Ok ==> {
                let s = r->Ok_0;
                let cuts = as_ints(s.cuts@);
                &&& seg_valid(self.sets_view(), pwd@, cuts, pwd@.len() as int)
                &&& big_value(s.cost) == seg_cost(self.sets_view(), pwd@, cuts)
                &&& forall|other: Seq<int>| #[trigger] seg_valid(self.sets_view(), pwd@, other, pwd@.len() as int)
                    ==> seg_cost(self.sets_view(), pwd@, other) >= big_value(s.cost)
                &&& s.labels@.len() == cuts.len() - 1 && s.sizes@.len() == cuts.len() - 1
                &&& forall|t: int| 0 <= t < s.labels@.len() ==> cheapest(self.sets_view(), #[trigger] pwd@.subrange(cuts[t], cuts[t + 1]))
                    == Some((s.labels@[t] as int, s.sizes@[t] as nat))
                &&& big_value(s.cost) == sizes_product(s.sizes@)
            },
    {
        let n = pwd.len();
        let ghost sets = self.sets_view();
        let (costs, reach, parent) = self.dp_nodes(pwd);
        if !reach[n] {
            return Err(CrackenError::BadPasswordChars);
        }
        let cuts = walk_back(&parent, n);
        let (labels, sizes) = self.piece_sets(pwd, &cuts);
        let cost = self.split_cost(&costs, n);
        Ok(SubwordSplit { cuts, labels, sizes, cost })
    }

    /// The set of each piece of a split.
    #[verifier::rlimit(100)]
    fn piece_sets(&self, pwd: &[u8], cuts: &Vec<usize>) -> (r: (Vec<usize>, Vec<usize>))
        requires
            self.wf(),
            seg_valid(self.sets_view(), pwd@, as_ints(cuts@), pwd@.len() as int),
        ensures
            ({
                let (labels, sizes) = r;
                let cv = as_ints(cuts@);
                &&& labels@.len() == cv.len() - 1 && sizes@.len() == cv.len() - 1
                &&& forall|k: int| 0 <= k < labels@.len() ==> cheapest(self.sets_view(), #[trigger] pwd@.subrange(cv[k], cv[k + 1]))
                    == Some((labels@[k] as int, sizes@[k] as nat))
                &&& sizes_product(sizes@) == seg_cost(self.sets_view(), pwd@, cv)
            }),
    {
        let ghost sets = self.sets_view();
        let ghost cv = as_ints(cuts@);
        let n = pwd.len();
        let mut labels: Vec<usize> = Vec::new();
        let mut sizes: Vec<usize> = Vec::new();
        let mut t: usize = 0;
        proof {
            lemma_cuts_increase(sets, pwd@, cv, n as int);
            assert(cv.take(1) == seq![cv[0]]);
        }
        let m = cuts.len();
        while t + 1 < m
            invariant
                self.wf(),
                m == cuts@.len(),
                cv == as_ints(cuts@),
                seg_valid(sets, pwd@, cv, n as int),
                forall|a: int, b: int| 0 <= a < b < cv.len() ==> cv[a] < cv[b],
                sets == self.sets_view(),
                n == pwd@.len(),
                t < cuts@.len(),
                labels@.len() == t && sizes@.len() == t,
                forall|k: int| 0 <= k < t ==> cheapest(sets, #[trigger] pwd@.subrange(cv[k], cv[k + 1]))
                    == Some((labels@[k] as int, sizes@[k] as nat)),
                sizes_product(sizes@) == seg_cost(sets, pwd@, cv.take(t + 1)),
            decreases cuts@.len() - t,
        {
            assert(cv[t as int] < cv[t + 1]);
            assert(cv[t + 1] <= cv[cv.len() - 1]) by {
                if t + 1 < cv.len() - 1 {
                    assert(cv[t + 1] < cv[cv.len() - 1]);
                }
            }
            let piece = vstd::slice::slice_subrange(pwd, cuts[t], cuts[t + 1]);
            assert(cheapest(sets, pwd@.subrange(cv[t as int], cv[t + 1])) is Some);
            let (_has, k, size) = self.cheapest_set(piece);
            let ghost before = sizes@;
            labels.push(k);
            sizes.push(size);
            proof {
                let c2 = cv.take(t + 2);
                assert(c2.drop_last() == cv.take(t + 1));
                assert(c2[c2.len() - 2] == cv[t as int]);
                assert(c2[c2.len() - 1] == cv[t + 1]);
                assert(sizes@.drop_last() == before);
                assert(edge_size(sets, pwd@.subrange(cv[t as int], cv[t + 1])) == size);
            }
            t = t + 1;
        }
        proof {
            assert(cv.take(t + 1) == cv);
        }
        (labels, sizes)
    }

    fn split_cost(&self, costs: &Vec<BigUint>, n: usize) -> (r: BigUint)
        requires
            n < costs@.len(),
        ensures
            big_value(r) == big_value(costs@[n as int]),
    {
        big_mul_u64(&costs[n], 1)
    }
}

proof fn lemma_cuts_increase(sets: Seq<Seq<Seq<u8>>>, pwd: Seq<u8>, cuts: Seq<int>, end: int)
    requires
        cuts.len() >= 1,
        forall|t: int| 0 <= t < cuts.len() - 1 ==> #[trigger] cuts[t] < cuts[t + 1],
    ensures
        forall|a: int, b: int| 0 <= a < b < cuts.len() ==> cuts[a] < cuts[b],
        seg_cost(sets, pwd, cuts) >= 0,
{
    assert forall|a: int, b: int| 0 <= a < b < cuts.len() implies cuts[a] < cuts[b] by {
        lemma_increase_between(cuts, a, b);
    }
}

proof fn lemma_increase_between(cuts: Seq<int>, a: int, b: int)
    requires
        0 <= a < b < cuts.len(),
        forall|t: int| 0 <= t < cuts.len() - 1 ==> #[trigger] cuts[t] < cuts[t + 1],
    ensures
        cuts[a] < cuts[b],
    decreases b - a,
{
    if b > a + 1 {
        lemma_increase_between(cuts, a, b - 1);
        assert(cuts[b - 1] < cuts[b]);
    }
}

/// `r` is the builtin charset `symbol` as a set of one-byte words.
pub open spec fn builtin_set_ok(r: SymbolSet, symbol: char) -> bool {
    &&& r.symbol@ == seq![symbol]
    &&& r.view_words().no_duplicates()
    &&& len_ordered(r.view_words())
    &&& forall|w: Seq<u8>| #[trigger] r.view_words().contains(w) <==> (w.len() == 1 && in_builtin(symbol, w[0]))
}

/// Each builtin charset as a set of one-byte words.
fn builtin_set(symbol: char) -> (r: SymbolSet)
    requires
        symbol == 'l' || symbol == 'u' || symbol == 'd' || symbol == 's' || symbol == 'a' || symbol == 'b',
    ensures
        builtin_set_ok(r, symbol),
{
    let chars = crate::charsets::builtin_chars(symbol);
    let mut words: Vec<Vec<u8>> = Vec::new();
    let mut i: usize = 0;
    while i < chars.len()
        invariant
            i <= chars@.len(),
            crate::charsets::strictly_sorted(chars@),
            words@.len() == i,
            forall|k: int| 0 <= k < i ==> (#[trigger] words@[k])@ == seq![chars@[k]],
        decreases chars@.len() - i,
    {
        let one: Vec<u8> = vec![chars[i]];
        words.push(one);
        i = i + 1;
    }
    let ghost v = words_view(words@);
    assert forall|a: int, b: int| 0 <= a < b < v.len() implies v[a] != v[b] by {
        assert(chars@[a] < chars@[b]);
        assert(v[a][0] != v[b][0]);
    }
    assert forall|w: Seq<u8>| v.contains(w) <==> (w.len() == 1 && in_builtin(symbol, w[0])) by {
        if v.contains(w) {
            let k = choose|k: int| 0 <= k < v.len() && v[k] == w;
            assert(w == seq![chars@[k]]);
            assert(chars@.contains(chars@[k]));
        }
        if w.len() == 1 && in_builtin(symbol, w[0]) {
            assert(chars@.contains(w[0]));
            let k = choose|k: int| 0 <= k < chars@.len() && chars@[k] == w[0];
            assert(v[k] == seq![chars@[k]]);
            assert(w == seq![w[0]]);
        }
    }
    let name = if symbol == 'l' {
        String::from_str("l")
    } else if symbol == 'u' {
        String::from_str("u")
    } else if symbol == 'd' {
        String::from_str("d")
    } else if symbol == 's' {
        String::from_str("s")
    } else if symbol == 'a' {
        String::from_str("a")
    } else {
        String::from_str("b")
    };
    proof {
        reveal_strlit("l");
        reveal_strlit("u");
        reveal_strlit("d");
        reveal_strlit("s");
        reveal_strlit("a");
        reveal_strlit("b");
    }
    let r = SymbolSet { symbol: name, words };
    proof {
        assert(r.view_words() == v);
        assert forall|a: int, b: int| 0 <= a < b < v.len() implies v[a].len() <= v[b].len() by {
            assert(v[a] == seq![chars@[a]] && v[b] == seq![chars@[b]]);
        }
        assert(len_ordered(r.view_words()));
        assert(r.symbol@ == seq![symbol]);
        assert(r.view_words().no_duplicates());
        assert forall|w: Seq<u8>| #[trigger] r.view_words().contains(w) <==> (w.len() == 1 && in_builtin(symbol, w[0])) by {
            assert(v.contains(w) <==> (w.len() == 1 && in_builtin(symbol, w[0])));
        }
    }
    r
}

/// `x` placed into `sorted` after every set that is no larger.
pub open spec fn insert_by_size(sorted: Seq<SymbolSet>, x: SymbolSet) -> Seq<SymbolSet>
    decreases sorted.len(),
{
    if sorted.len() == 0 {
        seq![x]
    } else if sorted.last().words@.len() <= x.words@.len() {
        sorted.push(x)
    } else {
        insert_by_size(sorted.drop_last(), x).push(sorted.last())
    }
}

/// The sets of `list` ordered by size; sets of one size keep their order.
pub open spec fn sort_by_size(list: Seq<SymbolSet>) -> Seq<SymbolSet>
    decreases list.len(),
{
    if list.len() == 0 {
        Seq::empty()
    } else {
        insert_by_size(sort_by_size(list.drop_last()), list.last())
    }
}

/// Sizes never decrease along `s`.
pub open spec fn size_ordered(s: Seq<SymbolSet>) -> bool {
    forall|a: int, b: int| 0 <= a < b < s.len() ==> s[a].words@.len() <= s[b].words@.len()
}

proof fn lemma_insert_ordered(sorted: Seq<SymbolSet>, x: SymbolSet)
    requires
        size_ordered(sorted),
    ensures
        size_ordered(insert_by_size(sorted, x)),
        insert_by_size(sorted, x).len() == sorted.len() + 1,
        forall|k: int| 0 <= k < insert_by_size(sorted, x).len() ==> #[trigger] insert_by_size(sorted, x)[k] == x
            || exists|j: int| 0 <= j < sorted.len() && sorted[j] == insert_by_size(sorted, x)[k],
    decreases sorted.len(),
{
    if sorted.len() > 0 && sorted.last().words@.len() > x.words@.len() {
        let pre = sorted.drop_last();
        assert(size_ordered(pre));
        lemma_insert_ordered(pre, x);
        let r = insert_by_size(pre, x);
        let full = r.push(sorted.last());
        assert forall|a: int, b: int| 0 <= a < b < full.len() implies full[a].words@.len() <= full[b].words@.len() by {
            if b == full.len() - 1 {
                assert(full[a] == r[a]);
                if r[a] != x {
                    let j = choose|j: int| 0 <= j < pre.len() && pre[j] == r[a];
                    assert(sorted[j] == pre[j]);
                }
            } else {
                assert(full[a] == r[a] && full[b] == r[b]);
            }
        }
        assert forall|k: int| 0 <= k < full.len() implies #[trigger] full[k] == x
            || exists|j: int| 0 <= j < sorted.len() && sorted[j] == full[k] by {
            if k < r.len() {
                if r[k] != x {
                    let j = choose|j: int| 0 <= j < pre.len() && pre[j] == r[k];
                    assert(sorted[j] == full[k]);
                }
            } else {
                assert(sorted[sorted.len() - 1] == full[k]);
            }
        }
    } else if sorted.len() > 0 {
        let full = sorted.push(x);
        assert forall|k: int| 0 <= k < full.len() implies #[trigger] full[k] == x
            || exists|j: int| 0 <= j < sorted.len() && sorted[j] == full[k] by {
            if k < sorted.len() {
                assert(sorted[k] == full[k]);
            }
        }
    }
}

proof fn lemma_sort_ordered(list: Seq<SymbolSet>)
    ensures
        size_ordered(sort_by_size(list)),
        sort_by_size(list).len() == list.len(),
    decreases list.len(),
{
    if list.len() > 0 {
        lemma_sort_ordered(list.drop_last());
        lemma_insert_ordered(sort_by_size(list.drop_last()), list.last());
    }
}

proof fn lemma_sort_members(list: Seq<SymbolSet>)
    ensures
        forall|k: int| 0 <= k < sort_by_size(list).len() ==> exists|j: int| 0 <= j < list.len() && list[j] == #[trigger] sort_by_size(list)[k],
    decreases list.len(),
{
    if list.len() > 0 {
        let pre = list.drop_last();
        lemma_sort_members(pre);
        lemma_sort_ordered(pre);
        lemma_insert_ordered(sort_by_size(pre), list.last());
        let r = sort_by_size(list);
        assert forall|k: int| 0 <= k < r.len() implies exists|j: int| 0 <= j < list.len() && list[j] == #[trigger] r[k] by {
            if r[k] == list.last() {
                assert(list[list.len() - 1] == r[k]);
            } else {
                let i = choose|i: int| 0 <= i < sort_by_size(pre).len() && sort_by_size(pre)[i] == r[k];
                let j = choose|j: int| 0 <= j < pre.len() && pre[j] == #[trigger] sort_by_size(pre)[i];
                assert(list[j] == pre[j]);
            }
        }
    }
}

/// Puts `x` into the size-ordered `sets` after every set that is no larger.
fn insert_sorted(sets: &mut Vec<SymbolSet>, x: SymbolSet)
    ensures
        final(sets)@ == insert_by_size(old(sets)@, x),
{
    let ghost s = sets@;
    let size = x.words.len();
    let mut p: usize = sets.len();
    proof {
        assert(s.take(p as int) == s);
        assert(insert_by_size(s, x) == insert_by_size(s.take(p as int), x) + s.subrange(p as int, s.len() as int));
    }
    while p > 0 && sets[p - 1].words.len() > size
        invariant
            sets@ == s,
            p <= s.len(),
            size == x.words@.len(),
            insert_by_size(s, x) == insert_by_size(s.take(p as int), x) + s.subrange(p as int, s.len() as int),
        decreases p,
    {
        proof {
            let t = s.take(p as int);
            assert(t.drop_last() == s.take(p - 1));
            assert(t.last() == s[p - 1]);
            assert(s.subrange(p - 1, s.len() as int) == seq![s[p - 1]] + s.subrange(p as int, s.len() as int));
            assert(insert_by_size(s.take(p - 1), x).push(s[p - 1]) + s.subrange(p as int, s.len() as int)
                == insert_by_size(s.take(p - 1), x) + s.subrange(p - 1, s.len() as int));
        }
        p = p - 1;
    }
    proof {
        if p > 0 {
            assert(s.take(p as int).last() == s[p - 1]);
        }
        assert(insert_by_size(s.take(p as int), x) == s.take(p as int).push(x));
        assert(s.take(p as int).push(x) + s.subrange(p as int, s.len() as int) =~= s.insert(p as int, x));
    }
    sets.insert(p, x);
}

/// The sets ordered by size, sets of one size in their order in `list`.
fn sort_sets(list: Vec<SymbolSet>) -> (r: Vec<SymbolSet>)
    ensures
        r@ == sort_by_size(list@),
{
    let ghost orig = list@;
    let mut rest = list;
    let mut sorted: Vec<SymbolSet> = Vec::new();
    let mut k: usize = 0;
    let n = rest.len();
    proof {
        assert(orig.take(0) == Seq::<SymbolSet>::empty());
        assert(orig.subrange(0, n as int) == orig);
    }
    while k < n
        invariant
            n == orig.len(),
            k <= n,
            sorted@ == sort_by_size(orig.take(k as int)),
            rest@ == orig.subrange(k as int, n as int),
        decreases n - k,
    {
        let x = rest.remove(0);
        proof {
            assert(x == orig[k as int]);
            assert(orig.take(k + 1).drop_last() == orig.take(k as int));
            assert(orig.take(k + 1).last() == orig[k as int]);
            assert(rest@ == orig.subrange(k + 1, n as int));
        }
        insert_sorted(&mut sorted, x);
        k = k + 1;
    }
    assert(orig.take(n as int) == orig);
    sorted
}

/// The symbol of builtin set `k`, in the order `l u d s a b`.
pub open spec fn builtin_symbol_at(k: int) -> char {
    if k == 0 { 'l' } else if k == 1 { 'u' } else if k == 2 { 'd' } else if k == 3 { 's' } else if k == 4 { 'a' } else { 'b' }
}

/// `list` holds the six builtin charsets `l u d s a b` as sets of one-byte words, then for
/// each vocabulary `i` the set `w(i+1)` of its distinct records.
pub open spec fn built_sets(list: Seq<SymbolSet>, vocabs: Seq<Vec<u8>>) -> bool {
    &&& list.len() == 6 + vocabs.len()
    &&& forall|k: int| 0 <= k < list.len() ==> (#[trigger] list[k]).view_words().no_duplicates()
    &&& forall|k: int| 0 <= k < list.len() ==> len_ordered((#[trigger] list[k]).view_words())
    &&& forall|k: int| 0 <= k < 6 ==> builtin_set_ok(#[trigger] list[k], builtin_symbol_at(k))
    &&& forall|i: int| 0 <= i < vocabs.len() ==> (#[trigger] list[6 + i]).symbol@ == seq!['w'] + decimal((i + 1) as nat)
    &&& forall|i: int| 0 <= i < vocabs.len() ==> (#[trigger] list[6 + i]).view_words().to_set() == lines(vocabs[i]@).to_set()
}

impl EntropyEstimator {
    /// Builds the sets: the six builtin charsets `l u d s a b`, then one set `wN` per
    /// vocabulary, holding its distinct nonempty newline-separated records; then orders them
    /// by size, sets of one size in that order. A piece of a password matches the first,
    /// so the smallest, set that holds it.
    pub fn from_vocab_bytes(vocabs: &[Vec<u8>]) -> (r: EntropyEstimator)
        requires
            vocabs@.len() < usize::MAX,
        ensures
            r.wf(),
            size_ordered(r.sets@),
            exists|list: Seq<SymbolSet>| #[trigger] built_sets(list, vocabs@) && r.sets@ == sort_by_size(list),
    {
        let mut sets: Vec<SymbolSet> = Vec::new();
        let s0 = builtin_set('l');
        let s1 = builtin_set('u');
        let s2 = builtin_set('d');
        let s3 = builtin_set('s');
        let s4 = builtin_set('a');
        let s5 = builtin_set('b');
        let ghost g = seq![s0, s1, s2, s3, s4, s5];
        sets.push(s0);
        sets.push(s1);
        sets.push(s2);
        sets.push(s3);
        sets.push(s4);
        sets.push(s5);
        proof {
            assert(sets@ == g);
            assert forall|k: int| 0 <= k < 6 implies builtin_set_ok(#[trigger] sets@[k], builtin_symbol_at(k)) by {
                assert(sets@[k] == g[k]);
                if k == 0 {
                    assert(g[k] == s0 && builtin_symbol_at(k) == 'l');
                } else if k == 1 {
                    assert(g[k] == s1 && builtin_symbol_at(k) == 'u');
                } else if k == 2 {
                    assert(g[k] == s2 && builtin_symbol_at(k) == 'd');
                } else if k == 3 {
                    assert(g[k] == s3 && builtin_symbol_at(k) == 's');
                } else if k == 4 {
                    assert(g[k] == s4 && builtin_symbol_at(k) == 'a');
                } else {
                    assert(g[k] == s5 && builtin_symbol_at(k) == 'b');
                }
            }
            assert forall|k: int| 0 <= k < 6 implies (#[trigger] sets@[k]).view_words().no_duplicates()
                && len_ordered(sets@[k].view_words()) by {
                assert(builtin_set_ok(sets@[k], builtin_symbol_at(k)));
            }
        }
        let mut i: usize = 0;
        while i < vocabs.len()
            invariant
                i <= vocabs@.len(),
                vocabs@.len() < usize::MAX,
                sets@.len() == 6 + i,
                forall|k: int| 0 <= k < sets@.len() ==> (#[trigger] sets@[k]).view_words().no_duplicates(),
                forall|k: int| 0 <= k < sets@.len() ==> len_ordered((#[trigger] sets@[k]).view_words()),
                forall|k: int| 0 <= k < 6 ==> builtin_set_ok(#[trigger] sets@[k], builtin_symbol_at(k)),
                forall|x: int| 0 <= x < i ==> (#[trigger] sets@[6 + x]).symbol@ == seq!['w'] + decimal((x + 1) as nat),
                forall|x: int| 0 <= x < i ==> (#[trigger] sets@[6 + x]).view_words().to_set() == lines(vocabs@[x]@).to_set(),
            decreases vocabs@.len() - i,
        {
            let words = vocab_of(vocabs[i].as_slice());
            let mut name = String::from_str("w");
            name.append(decimal_text(i as u128 + 1).as_str());
            proof {
                reveal_strlit("w");
            }
            sets.push(SymbolSet { symbol: name, words });
            i = i + 1;
        }
        let ghost list = sets@;
        proof {
            assert(built_sets(list, vocabs@));
            lemma_sort_ordered(list);
            lemma_sort_members(list);
            assert forall|k: int| 0 <= k < sort_by_size(list).len() implies len_ordered(#[trigger] sort_by_size(list)[k].view_words()) by {
                let j = choose|j: int| 0 <= j < list.len() && list[j] == sort_by_size(list)[k];
                assert(len_ordered(list[j].view_words()));
            }
            assert forall|k: int| 0 <= k < sort_by_size(list).len() implies (#[trigger] sort_by_size(list)[k]).view_words().no_duplicates() by {
                let j = choose|j: int| 0 <= j < list.len() && list[j] == sort_by_size(list)[k];
                assert(list[j].view_words().no_duplicates());
            }
        }
        EntropyEstimator { sets: sort_sets(sets) }
    }

    /// The mask of a split: `?` and the symbol of the set of each piece.
    pub fn subword_mask(&self, labels: &Vec<usize>) -> (r: String)
        requires
            forall|t: int| 0 <= t < labels@.len() ==> #[trigger] labels@[t] < self.sets@.len(),
        ensures
            r@ == mask_text(self.sets@, labels@),
    {
        let mut out = String::new();
        let mut t: usize = 0;
        while t < labels.len()
            invariant
                t <= labels@.len(),
                forall|x: int| 0 <= x < labels@.len() ==> #[trigger] labels@[x] < self.sets@.len(),
                out@ == mask_text(self.sets@, labels@.take(t as int)),
            decreases labels@.len() - t,
        {
            out.append("?");
            out.append(self.sets[labels[t]].symbol.as_str());
            proof {
                reveal_strlit("?");
                assert(labels@.take(t + 1).drop_last() == labels@.take(t as int));
            }
            t = t + 1;
        }
        assert(labels@.take(labels@.len() as int) == labels@);
        out
    }
}

/// `?` and the symbol of each labelled set, back to back.
pub open spec fn mask_text(sets: Seq<SymbolSet>, labels: Seq<usize>) -> Seq<char>
    decreases labels.len(),
{
    if labels.len() == 0 {
        Seq::empty()
    } else {
        mask_text(sets, labels.drop_last()) + seq!['?'] + sets[labels.last() as int].symbol@
    }
}

/// The pieces that `cuts` makes of `pwd`.
pub fn split_pieces(pwd: &[u8], cuts: &Vec<usize>) -> (r: Vec<Vec<u8>>)
    requires
        cuts@.len() >= 1,
        forall|t: int| 0 <= t < cuts@.len() - 1 ==> #[trigger] cuts@[t] <= cuts@[t + 1],
        cuts@[cuts@.len() - 1] <= pwd@.len(),
    ensures
        r@.len() == cuts@.len() - 1,
        forall|t: int| 0 <= t < r@.len() ==> (#[trigger] r@[t])@ == seg_pieces(pwd@, as_ints(cuts@))[t],
{
    let mut out: Vec<Vec<u8>> = Vec::new();
    let m = cuts.len();
    let mut t: usize = 0;
    proof {
        assert forall|a: int| 0 <= a < cuts@.len() implies #[trigger] cuts@[a] <= cuts@[cuts@.len() - 1] by {
            lemma_nondecreasing_upto(cuts@, a);
        }
    }
    while t + 1 < m
        invariant
            m == cuts@.len(),
            m >= 1,
            t < m,
            forall|a: int| 0 <= a < cuts@.len() ==> #[trigger] cuts@[a] <= cuts@[cuts@.len() - 1],
            forall|x: int| 0 <= x < cuts@.len() - 1 ==> #[trigger] cuts@[x] <= cuts@[x + 1],
            cuts@[cuts@.len() - 1] <= pwd@.len(),
            out@.len() == t,
            forall|x: int| 0 <= x < t ==> (#[trigger] out@[x])@ == seg_pieces(pwd@, as_ints(cuts@))[x],
        decreases m - t,
    {
        assert(cuts@[t as int] <= cuts@[t + 1]);
        assert(cuts@[t + 1] <= cuts@[cuts@.len() - 1]);
        let piece = vstd::slice::slice_subrange(pwd, cuts[t], cuts[t + 1]);
        out.push(vstd::slice::slice_to_vec(piece));
        t = t + 1;
    }
    out
}

proof fn lemma_nondecreasing_upto(c: Seq<usize>, a: int)
    requires
        0 <= a < c.len(),
        forall|t: int| 0 <= t < c.len() - 1 ==> #[trigger] c[t] <= c[t + 1],
    ensures
        c[a] <= c[c.len() - 1],
    decreases c.len() - a,
{
    if a < c.len() - 1 {
        lemma_nondecreasing_upto(c, a + 1);
        assert(c[a] <= c[a + 1]);
    }
}

/// The mask symbol and keyspace of one password byte.
pub open spec fn byte_class(b: u8) -> (char, nat) {
    if is_digit_byte(b) {
        ('d', 10)
    } else if is_lower_byte(b) {
        ('l', 26)
    } else if is_upper_byte(b) {
        ('u', 26)
    } else if is_symbol_byte(b) {
        ('s', 33)
    } else {
        ('b', 256)
    }
}

/// The charset mask of a password: `?` and the class symbol of each byte.
pub open spec fn charset_mask(pwd: Seq<u8>) -> Seq<char>
    decreases pwd.len(),
{
    if pwd.len() == 0 {
        Seq::empty()
    } else {
        charset_mask(pwd.drop_last()) + seq!['?', byte_class(pwd.last()).0]
    }
}

/// The number of passwords that the charset mask of `pwd` admits.
pub open spec fn mask_keyspace(pwd: Seq<u8>) -> nat
    decreases pwd.len(),
{
    if pwd.len() == 0 {
        1
    } else {
        mask_keyspace(pwd.drop_last()) * byte_class(pwd.last()).1
    }
}

/// The charset mask of `pwd` and the keyspace of each of its bytes.
pub fn password_mask(pwd: &[u8]) -> (r: (String, Vec<u32>))
    ensures
        r.0@ == charset_mask(pwd@),
        r.1@.len() == pwd@.len(),
        forall|i: int| 0 <= i < pwd@.len() ==> #[trigger] r.1@[i] as nat == byte_class(pwd@[i]).1,
{
    let mut mask = String::new();
    let mut spaces: Vec<u32> = Vec::new();
    let mut i: usize = 0;
    proof {
        reveal_strlit("?d");
        reveal_strlit("?l");
        reveal_strlit("?u");
        reveal_strlit("?s");
        reveal_strlit("?b");
    }
    while i < pwd.len()
        invariant
            i <= pwd@.len(),
            mask@ == charset_mask(pwd@.take(i as int)),
            spaces@.len() == i,
            forall|k: int| 0 <= k < i ==> #[trigger] spaces@[k] as nat == byte_class(pwd@[k]).1,
        decreases pwd@.len() - i,
    {
        let c = pwd[i];
        if 0x30 <= c && c <= 0x39 {
            mask.append("?d");
            spaces.push(10);
        } else if 0x61 <= c && c <= 0x7a {
            mask.append("?l");
            spaces.push(26);
        } else if 0x41 <= c && c <= 0x5a {
            mask.append("?u");
            spaces.push(26);
        } else if (32 <= c && c <= 47) || (58 <= c && c <= 64) || (91 <= c && c <= 96) || (123 <= c && c <= 126) {
            mask.append("?s");
            spaces.push(33);
        } else {
            mask.append("?b");
            spaces.push(256);
        }
        proof {
            reveal_strlit("?d");
            reveal_strlit("?l");
            reveal_strlit("?u");
            reveal_strlit("?s");
            reveal_strlit("?b");
            assert(pwd@.take(i + 1).drop_last() == pwd@.take(i as int));
            assert(pwd@.take(i + 1).last() == c);
        }
        i = i + 1;
    }
    assert(pwd@.take(pwd@.len() as int) == pwd@);
    (mask, spaces)
}

/// Appending a byte to a password strictly grows the keyspace of its charset mask, and so
/// its mask entropy, the base-2 logarithm of that keyspace.
pub proof fn lemma_mask_monotone(pwd: Seq<u8>, b: u8)
    ensures
        mask_keyspace(pwd.push(b)) > mask_keyspace(pwd),
        mask_keyspace(pwd) >= 1,
{
    lemma_keyspace_positive(pwd);
    assert(pwd.push(b).drop_last() == pwd);
    let k = mask_keyspace(pwd);
    let c = byte_class(b).1;
    assert(c >= 10);
    assert(k * c > k) by (nonlinear_arith)
        requires
            k >= 1,
            c >= 10,
    ;
}

proof fn lemma_keyspace_positive(pwd: Seq<u8>)
    ensures
        mask_keyspace(pwd) >= 1,
    decreases pwd.len(),
{
    if pwd.len() > 0 {
        lemma_keyspace_positive(pwd.drop_last());
        let k = mask_keyspace(pwd.drop_last());
        let c = byte_class(pwd.last()).1;
        assert(k * c >= 1) by (nonlinear_arith)
            requires
                k >= 1,
                c >= 10,
        ;
    }
}

/// The pieces of a valid split put back together give the password, and the cost of the
/// split is the product of the sizes of the sets of its pieces, so its entropy, the
/// base-2 logarithm of that cost, is the sum of their logarithms.
pub proof fn lemma_entropy_round_trip(sets: Seq<Seq<Seq<u8>>>, pwd: Seq<u8>, cuts: Seq<int>)
    requires
        seg_valid(sets, pwd, cuts, pwd.len() as int),
    ensures
        seg_pieces(pwd, cuts).flatten() == pwd,
        seg_cost(sets, pwd, cuts) == pieces_cost(sets, seg_pieces(pwd, cuts)),
{
    lemma_cuts_increase(sets, pwd, cuts, pwd.len() as int);
    lemma_pieces_prefix(sets, pwd, cuts, cuts.len() as int);
    assert(cuts.take(cuts.len() as int) == cuts);
    assert(pwd.subrange(0, pwd.len() as int) == pwd);
}

/// The product of the sizes of the cheapest sets of `pieces`.
pub open spec fn pieces_cost(sets: Seq<Seq<Seq<u8>>>, pieces: Seq<Seq<u8>>) -> nat
    decreases pieces.len(),
{
    if pieces.len() == 0 {
        1
    } else {
        pieces_cost(sets, pieces.drop_last()) * edge_size(sets, pieces.last())
    }
}

proof fn lemma_pieces_prefix(sets: Seq<Seq<Seq<u8>>>, pwd: Seq<u8>, cuts: Seq<int>, m: int)
    requires
        cuts.len() >= 1,
        cuts[0] == 0,
        cuts[cuts.len() - 1] == pwd.len(),
        forall|a: int, b: int| 0 <= a < b < cuts.len() ==> cuts[a] < cuts[b],
        1 <= m <= cuts.len(),
    ensures
        seg_pieces(pwd, cuts.take(m)).flatten() == pwd.subrange(0, cuts[m - 1]),
        seg_cost(sets, pwd, cuts.take(m)) == pieces_cost(sets, seg_pieces(pwd, cuts.take(m))),
        0 <= cuts[m - 1] <= pwd.len(),
    decreases m,
{
    if m - 1 > 0 {
        assert(cuts[0] < cuts[m - 1]);
    }
    if m - 1 < cuts.len() - 1 {
        assert(cuts[m - 1] < cuts[cuts.len() - 1]);
    }
    if m == 1 {
        assert(seg_pieces(pwd, cuts.take(1)) == Seq::<Seq<u8>>::empty());
        assert(pwd.subrange(0, 0) == Seq::<u8>::empty());
    } else {
        lemma_pieces_prefix(sets, pwd, cuts, m - 1);
        lemma_pieces_step(sets, pwd, cuts, m);
    }
}

#[verifier::rlimit(50)]
proof fn lemma_pieces_step(sets: Seq<Seq<Seq<u8>>>, pwd: Seq<u8>, cuts: Seq<int>, m: int)
    requires
        2 <= m <= cuts.len(),
        0 <= cuts[m - 2] < cuts[m - 1] <= pwd.len(),
        seg_pieces(pwd, cuts.take(m - 1)).flatten() == pwd.subrange(0, cuts[m - 2]),
        seg_cost(sets, pwd, cuts.take(m - 1)) == pieces_cost(sets, seg_pieces(pwd, cuts.take(m - 1))),
    ensures
        seg_pieces(pwd, cuts.take(m)).flatten() == pwd.subrange(0, cuts[m - 1]),
        seg_cost(sets, pwd, cuts.take(m)) == pieces_cost(sets, seg_pieces(pwd, cuts.take(m))),
{
    let short = seg_pieces(pwd, cuts.take(m - 1));
    let piece = pwd.subrange(cuts[m - 2], cuts[m - 1]);
    assert(seg_pieces(pwd, cuts.take(m)) =~= short.push(piece));
    short.lemma_flatten_push(piece);
    assert(pwd.subrange(0, cuts[m - 2]) + piece =~= pwd.subrange(0, cuts[m - 1]));
    let t = cuts.take(m);
    assert(t.drop_last() == cuts.take(m - 1));
    assert(t[t.len() - 2] == cuts[m - 2]);
    assert(t[t.len() - 1] == cuts[m - 1]);
    assert(short.push(piece).drop_last() == short);
    assert(short.push(piece).last() == piece);
}

/// Entry `x` of `r`; naming it lets the facts kept about earlier nodes apply.
spec fn old_reach_at(r: Seq<bool>, x: int) -> bool {
    r[x]
}

/// The cut points that `parent` records back from node `n`, in order.
fn walk_back(parent: &Vec<usize>, n: usize) -> (r: Vec<usize>)
    requires
        parent@.len() == n + 1,
        forall|x: int| 0 < x <= n ==> #[trigger] parent@[x] < x,
    ensures
        as_ints(r@) == path_of(parent@, n as int),
{
    let mut cuts: Vec<usize> = Vec::new();
    let mut cur: usize = n;
    let ghost mut suffix: Seq<int> = Seq::empty();
    proof {
        assert(path_of(parent@, n as int) + suffix == path_of(parent@, n as int));
        assert(as_ints(cuts@) =~= suffix);
    }
    while cur > 0
        invariant
            cur <= n,
            parent@.len() == n + 1,
            forall|x: int| 0 < x <= n ==> #[trigger] parent@[x] < x,
            as_ints(cuts@) == suffix,
            path_of(parent@, n as int) == path_of(parent@, cur as int) + suffix,
        decreases cur,
    {
        cuts.insert(0, cur);
        proof {
            assert(as_ints(cuts@) =~= seq![cur as int] + suffix);
            assert(parent@[cur as int] < cur);
            assert(path_of(parent@, cur as int) == path_of(parent@, parent@[cur as int] as int).push(cur as int));
            assert(path_of(parent@, parent@[cur as int] as int).push(cur as int) + suffix
                =~= path_of(parent@, parent@[cur as int] as int) + (seq![cur as int] + suffix));
            suffix = seq![cur as int] + suffix;
        }
        cur = parent[cur];
    }
    cuts.insert(0, 0);
    proof {
        assert(as_ints(cuts@) =~= seq![0int] + suffix);
        assert(path_of(parent@, 0) == seq![0int]);
    }
    cuts
}

/// A split of a prefix extends by one more piece.
proof fn lemma_seg_extend(sets: Seq<Seq<Seq<u8>>>, pwd: Seq<u8>, cuts: Seq<int>, x: int, j: int)
    requires
        seg_valid(sets, pwd, cuts, x),
        x < j <= pwd.len(),
        cheapest(sets, pwd.subrange(x, j)) is Some,
    ensures
        seg_valid(sets, pwd, cuts.push(j), j),
        seg_cost(sets, pwd, cuts.push(j)) == seg_cost(sets, pwd, cuts) * edge_size(sets, pwd.subrange(x, j)),
{
    let c2 = cuts.push(j);
    assert(c2.drop_last() == cuts);
    assert forall|t: int| 0 <= t < c2.len() - 1 implies #[trigger] c2[t] < c2[t + 1] by {
        if t < cuts.len() - 1 {
            assert(cuts[t] < cuts[t + 1]);
        }
    }
    assert forall|t: int| 0 <= t < c2.len() - 1 implies #[trigger] cheapest(sets, pwd.subrange(c2[t], c2[t + 1])) is Some by {
        if t < cuts.len() - 1 {
            assert(cheapest(sets, pwd.subrange(cuts[t], cuts[t + 1])) is Some);
        }
    }
}

/// Recording a new node leaves the paths of the earlier ones as they were.
proof fn lemma_path_prefix(short: Seq<usize>, long: Seq<usize>, x: int)
    requires
        short.len() <= long.len(),
        forall|k: int| 0 <= k < short.len() ==> short[k] == long[k],
        forall|k: int| 0 < k < long.len() ==> #[trigger] long[k] < k,
        0 <= x < long.len(),
    ensures
        x < short.len() ==> path_of(short, x) == path_of(long, x),
    decreases x,
{
    if x > 0 && x < short.len() {
        lemma_path_prefix(short, long, long[x] as int);
    }
}

} // verus!
