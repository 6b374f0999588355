use vstd::prelude::*;
use vstd::arithmetic::div_mod::{lemma_fundamental_div_mod, lemma_fundamental_div_mod_converse, lemma_mod_pos_bound};

verus! {

// Mixed-radix counting: a position `i` takes a digit below `radix[i]`, the rightmost
// position changes fastest.

/// Every position has at least one digit.
pub open spec fn positive(radix: Seq<nat>) -> bool {
    forall|i: int| 0 <= i < radix.len() ==> #[trigger] radix[i] >= 1
}

/// Product of the radices: how many digit vectors there are.
pub open spec fn product(radix: Seq<nat>) -> nat
    decreases radix.len(),
{
    if radix.len() == 0 {
        1
    } else {
        product(radix.drop_last()) * radix.last()
    }
}

/// `d` is a digit vector for `radix`.
pub open spec fn digits_valid(radix: Seq<nat>, d: Seq<nat>) -> bool {
    &&& d.len() == radix.len()
    &&& forall|i: int| 0 <= i < d.len() ==> #[trigger] d[i] < radix[i]
}

/// All digit vectors of `radix`, in counting order with the rightmost position fastest.
pub open spec fn odometer(radix: Seq<nat>) -> Seq<Seq<nat>>
    decreases radix.len(),
{
    if radix.len() == 0 {
        seq![Seq::empty()]
    } else {
        let pre = odometer(radix.drop_last());
        let k = radix.last() as int;
        Seq::new(pre.len() * radix.last(), |n: int| pre[n / k].push((n % k) as nat))
    }
}

pub open spec fn zeros(len: nat) -> Seq<nat> {
    Seq::new(len, |i: int| 0nat)
}

/// One counting step: the rightmost position that can grow grows, those right of it go
/// back to zero. The flag says that every position went back to zero.
pub open spec fn advance(radix: Seq<nat>, d: Seq<nat>) -> (Seq<nat>, bool)
    decreases d.len(),
{
    if d.len() == 0 {
        (d, true)
    } else if d.last() + 1 < radix[d.len() - 1] {
        (d.drop_last().push(d.last() + 1), false)
    } else {
        let p = advance(radix.drop_last(), d.drop_last());
        (p.0.push(0), p.1)
    }
}

pub proof fn lemma_divmod_next(n: int, k: int)
    requires
        n >= 0,
        k > 0,
    ensures
        0 <= n % k < k,
        n / k >= 0,
        n % k + 1 < k ==> (n + 1) / k == n / k && (n + 1) % k == n % k + 1,
        n % k + 1 >= k ==> (n + 1) / k == n / k + 1 && (n + 1) % k == 0,
{
    lemma_fundamental_div_mod(n, k);
    lemma_mod_pos_bound(n, k);
    assert(n / k >= 0) by (nonlinear_arith)
        requires
            n == k * (n / k) + n % k,
            0 <= n % k < k,
            n >= 0,
    ;
    if n % k + 1 < k {
        assert(n + 1 == (n / k) * k + (n % k + 1)) by (nonlinear_arith)
            requires
                n == k * (n / k) + n % k,
        ;
        lemma_fundamental_div_mod_converse(n + 1, k, n / k, n % k + 1);
    } else {
        assert(n + 1 == (n / k + 1) * k + 0) by (nonlinear_arith)
            requires
                n == k * (n / k) + n % k,
                n % k + 1 == k,
        ;
        lemma_fundamental_div_mod_converse(n + 1, k, n / k + 1, 0);
    }
}

pub proof fn lemma_div_bound(n: int, k: int, p: int)
    requires
        0 <= n < p * k,
        k > 0,
    ensures
        0 <= n / k < p,
{
    lemma_fundamental_div_mod(n, k);
    lemma_mod_pos_bound(n, k);
    assert(0 <= n / k < p) by (nonlinear_arith)
        requires
            n == k * (n / k) + n % k,
            0 <= n % k < k,
            0 <= n < p * k,
            k > 0,
    ;
}

pub proof fn lemma_odometer_len(radix: Seq<nat>)
    ensures
        odometer(radix).len() == product(radix),
    decreases radix.len(),
{
    if radix.len() > 0 {
        lemma_odometer_len(radix.drop_last());
    }
}

/// Each entry of the odometer is a digit vector; an entry splits into an entry of the
/// shorter odometer and a last digit.
pub proof fn lemma_odometer_entry(radix: Seq<nat>, n: int)
    requires
        positive(radix),
        0 <= n < odometer(radix).len(),
    ensures
        digits_valid(radix, odometer(radix)[n]),
        radix.len() > 0 ==> {
            let k = radix.last() as int;
            &&& 0 <= n / k < odometer(radix.drop_last()).len()
            &&& odometer(radix)[n] == odometer(radix.drop_last())[n / k].push((n % k) as nat)
        },
    decreases radix.len(),
{
    if radix.len() > 0 {
        let pre = odometer(radix.drop_last());
        let k = radix.last() as int;
        assert(radix[radix.len() - 1] >= 1);
        lemma_div_bound(n, k, pre.len() as int);
        lemma_divmod_next(n, k);
        lemma_odometer_entry(radix.drop_last(), n / k);
        let d = odometer(radix)[n];
        assert(d == pre[n / k].push((n % k) as nat));
        assert forall|i: int| 0 <= i < d.len() implies #[trigger] d[i] < radix[i] by {
            if i < d.len() - 1 {
                assert(d[i] == pre[n / k][i]);
                assert(radix.drop_last()[i] == radix[i]);
            }
        }
    }
}

pub proof fn lemma_odometer_first(radix: Seq<nat>)
    requires
        positive(radix),
    ensures
        odometer(radix).len() >= 1,
        odometer(radix)[0] == zeros(radix.len()),
    decreases radix.len(),
{
    lemma_odometer_len(radix);
    lemma_product_positive(radix);
    if radix.len() > 0 {
        lemma_odometer_first(radix.drop_last());
        lemma_odometer_entry(radix, 0);
        assert(0int / (radix.last() as int) == 0);
        assert(0int % (radix.last() as int) == 0);
        assert(odometer(radix)[0] == zeros(radix.len()));
    }
}

pub proof fn lemma_product_positive(radix: Seq<nat>)
    requires
        positive(radix),
    ensures
        product(radix) >= 1,
    decreases radix.len(),
{
    if radix.len() > 0 {
        lemma_product_positive(radix.drop_last());
        assert(radix[radix.len() - 1] >= 1);
        let a = product(radix.drop_last());
        let b = radix.last();
        assert(a * b >= 1) by (nonlinear_arith)
            requires
                a >= 1,
                b >= 1,
        ;
    }
}

/// A counting step leads from each entry of the odometer to the next one, and from the
/// last one back to the first, with the flag set.
pub proof fn lemma_advance(radix: Seq<nat>, n: int)
    requires
        positive(radix),
        0 <= n < odometer(radix).len(),
    ensures
        n + 1 < odometer(radix).len() ==> advance(radix, odometer(radix)[n]) == (odometer(radix)[n + 1], false),
        n + 1 == odometer(radix).len() ==> advance(radix, odometer(radix)[n]) == (zeros(radix.len()), true),
    decreases radix.len(),
{
    lemma_odometer_first(radix);
    if radix.len() == 0 {
        assert(odometer(radix).len() == 1);
    } else {
        let short = radix.drop_last();
        let pre = odometer(short);
        let k = radix.last() as int;
        assert(radix[radix.len() - 1] >= 1);
        lemma_odometer_entry(radix, n);
        lemma_divmod_next(n, k);
        let d = odometer(radix)[n];
        assert(d.drop_last() == pre[n / k]);
        assert(d.last() == (n % k) as nat);
        assert(radix[d.len() - 1] == k);
        if n % k + 1 < k {
            assert(n + 1 < odometer(radix).len()) by {
                lemma_fundamental_div_mod(n + 1, k);
                assert(n < pre.len() * k);
                assert(n + 1 != pre.len() * k) by (nonlinear_arith)
                    requires
                        n + 1 == k * ((n + 1) / k) + (n + 1) % k,
                        (n + 1) % k != 0,
                        k > 0,
                ;
            }
            lemma_odometer_entry(radix, n + 1);
        } else {
            lemma_advance(short, n / k);
            if n / k + 1 < pre.len() {
                lemma_fundamental_div_mod(n + 1, k);
                assert(n + 1 < pre.len() * k) by (nonlinear_arith)
                    requires
                        n + 1 == k * ((n + 1) / k) + (n + 1) % k,
                        (n + 1) / k == n / k + 1,
                        (n + 1) % k == 0,
                        n / k + 1 < pre.len(),
                        k > 0,
                ;
                lemma_fundamental_div_mod(n + 1, k);
                lemma_odometer_entry(radix, n + 1);
                assert(odometer(radix)[n + 1] == pre[n / k + 1].push(0));
            } else {
                lemma_fundamental_div_mod(n + 1, k);
                assert(n + 1 == pre.len() * k) by (nonlinear_arith)
                    requires
                        n + 1 == k * ((n + 1) / k) + (n + 1) % k,
                        (n + 1) / k == n / k + 1,
                        (n + 1) % k == 0,
                        n / k + 1 == pre.len(),
                ;
                lemma_fundamental_div_mod(n + 1, k);
                assert(zeros((radix.len() - 1) as nat).push(0) == zeros(radix.len()));
            }
        }
    }
}

} // verus!

verus! {

/// Every digit vector occurs in the odometer.
pub proof fn lemma_odometer_complete(radix: Seq<nat>, d: Seq<nat>)
    requires
        positive(radix),
        digits_valid(radix, d),
    ensures
        exists|n: int| 0 <= n < odometer(radix).len() && odometer(radix)[n] == d,
    decreases radix.len(),
{
    if radix.len() == 0 {
        assert(d == Seq::<nat>::empty());
        assert(odometer(radix)[0] == d);
    } else {
        let short = radix.drop_last();
        let pre = odometer(short);
        let k = radix.last() as int;
        let x = d.last() as int;
        assert(radix[radix.len() - 1] >= 1);
        assert(x < k) by {
            assert(d[d.len() - 1] < radix[d.len() - 1]);
        }
        assert forall|i: int| 0 <= i < d.drop_last().len() implies #[trigger] d.drop_last()[i] < short[i] by {
            assert(d[i] < radix[i]);
        }
        lemma_odometer_complete(short, d.drop_last());
        let m = choose|m: int| 0 <= m < pre.len() && pre[m] == d.drop_last();
        let n = m * k + x;
        assert(0 <= n < pre.len() * k) by (nonlinear_arith)
            requires
                0 <= m < pre.len(),
                0 <= x < k,
                n == m * k + x,
        ;
        lemma_fundamental_div_mod_converse(n, k, m, x);
        lemma_odometer_entry(radix, n);
        assert(odometer(radix)[n] == d);
    }
}

/// No digit vector occurs twice in the odometer.
pub proof fn lemma_odometer_injective(radix: Seq<nat>, a: int, b: int)
    requires
        positive(radix),
        0 <= a < odometer(radix).len(),
        0 <= b < odometer(radix).len(),
        a != b,
    ensures
        odometer(radix)[a] != odometer(radix)[b],
    decreases radix.len(),
{
    let k = radix.last() as int;
    assert(radix[radix.len() - 1] >= 1);
    lemma_odometer_entry(radix, a);
    lemma_odometer_entry(radix, b);
    lemma_fundamental_div_mod(a, k);
    lemma_fundamental_div_mod(b, k);
    if a / k != b / k {
        lemma_odometer_injective(radix.drop_last(), a / k, b / k);
        assert(odometer(radix)[a].drop_last() == odometer(radix.drop_last())[a / k]);
        assert(odometer(radix)[b].drop_last() == odometer(radix.drop_last())[b / k]);
    } else {
        assert(a % k != b % k);
        assert(odometer(radix)[a].last() != odometer(radix)[b].last());
    }
}

/// A counting step that does not wrap: one position grows by one, those left of it stay,
/// those right of it were at their largest digit and go back to zero.
pub open spec fn is_step(radix: Seq<nat>, a: Seq<nat>, b: Seq<nat>, p: int) -> bool {
    &&& 0 <= p < a.len()
    &&& a.len() == b.len()
    &&& forall|q: int| #![trigger a[q]] #![trigger b[q]] 0 <= q < p ==> b[q] == a[q]
    &&& b[p] == a[p] + 1
    &&& forall|q: int| #![trigger a[q]] #![trigger b[q]] p < q < a.len() ==> a[q] + 1 == radix[q] && b[q] == 0
}

pub proof fn lemma_advance_is_step(radix: Seq<nat>, d: Seq<nat>)
    requires
        digits_valid(radix, d),
        !advance(radix, d).1,
    ensures
        exists|p: int| is_step(radix, d, advance(radix, d).0, p),
    decreases d.len(),
{
    let m = d.len() - 1;
    let r = advance(radix, d).0;
    if d.last() + 1 < radix[m] {
        assert(is_step(radix, d, r, m));
    } else {
        let short = radix.drop_last();
        assert forall|i: int| 0 <= i < d.drop_last().len() implies #[trigger] d.drop_last()[i] < short[i] by {
            assert(d[i] < radix[i]);
        }
        lemma_advance_is_step(short, d.drop_last());
        let p = choose|p: int| is_step(short, d.drop_last(), advance(short, d.drop_last()).0, p);
        assert(d[m] < radix[m]);
        let a2 = advance(short, d.drop_last()).0;
        assert(is_step(short, d.drop_last(), a2, p));
        assert(r == a2.push(0));
        assert forall|q: int| 0 <= q < p implies #[trigger] r[q] == d[q] by {
            assert(a2[q] == d.drop_last()[q]);
        }
        assert(r[p] == d[p] + 1) by {
            assert(a2[p] == d.drop_last()[p] + 1);
        }
        assert forall|q: int| p < q < d.len() implies #[trigger] d[q] + 1 == radix[q] && r[q] == 0 by {
            if q < m {
                assert(d.drop_last()[q] + 1 == short[q]);
                assert(a2[q] == 0);
                assert(short[q] == radix[q]);
                assert(r[q] == a2[q]);
            }
        }
        assert(is_step(radix, d, r, p));
    }
}

} // verus!
