//! Reductions over a sequence of samples: extremes, sum, mean, median,
//! quartiles, squared deviations, sample variance and standard deviation.
//!
//! Samples are unsigned integers (the harness records nanoseconds). Every
//! reduction is exact over the integers: averages are rounded down.
use vstd::arithmetic::div_mod::{lemma_div_is_ordered, lemma_div_multiples_vanish};
use vstd::prelude::*;

verus! {

/// The smallest element; the first element seeds the scan.
pub open spec fn seq_min(s: Seq<u64>) -> u64
    decreases s.len(),
{
    if s.len() <= 1 {
        s[0]
    } else {
        let m = seq_min(s.drop_last());
        if s.last() < m {
            s.last()
        } else {
            m
        }
    }
}

/// The largest element; the first element seeds the scan.
pub open spec fn seq_max(s: Seq<u64>) -> u64
    decreases s.len(),
{
    if s.len() <= 1 {
        s[0]
    } else {
        let m = seq_max(s.drop_last());
        if s.last() > m {
            s.last()
        } else {
            m
        }
    }
}

/// The sum of the elements, as a mathematical integer.
pub open spec fn seq_sum(s: Seq<u64>) -> int
    decreases s.len(),
{
    if s.len() == 0 {
        0
    } else {
        seq_sum(s.drop_last()) + s.last()
    }
}

/// The mean of a non-empty sequence, rounded down.
pub open spec fn mean_of(s: Seq<u64>) -> u64
    recommends
        s.len() > 0,
{
    (seq_sum(s) / s.len() as int) as u64
}

/// Every element lies in `[lo, hi]`.
pub open spec fn all_within(s: Seq<u64>, lo: int, hi: int) -> bool {
    forall|j: int| 0 <= j < s.len() ==> lo <= #[trigger] s[j] <= hi
}

proof fn lemma_min_max_bound(s: Seq<u64>)
    requires
        s.len() > 0,
    ensures
        all_within(s, seq_min(s) as int, seq_max(s) as int),
        s.contains(seq_min(s)),
        s.contains(seq_max(s)),
    decreases s.len(),
{
    if s.len() > 1 {
        let p = s.drop_last();
        lemma_min_max_bound(p);
        assert forall|j: int| 0 <= j < s.len() implies seq_min(s) <= #[trigger] s[j] <= seq_max(s) by {
            if j < s.len() - 1 {
                assert(s[j] == p[j]);
            }
        }
        let mi = choose|j: int| 0 <= j < p.len() && p[j] == seq_min(p);
        let ma = choose|j: int| 0 <= j < p.len() && p[j] == seq_max(p);
        assert(s[mi] == p[mi]);
        assert(s[ma] == p[ma]);
        assert(s[s.len() - 1] == s.last());
    } else {
        assert(s[0] == s[0]);
    }
}

proof fn lemma_sum_bound(s: Seq<u64>, lo: int, hi: int)
    requires
        all_within(s, lo, hi),
    ensures
        s.len() * lo <= seq_sum(s) <= s.len() * hi,
    decreases s.len(),
{
    if s.len() > 0 {
        let p = s.drop_last();
        assert(all_within(p, lo, hi)) by {
            assert forall|j: int| 0 <= j < p.len() implies lo <= #[trigger] p[j] <= hi by {
                assert(p[j] == s[j]);
            }
        }
        lemma_sum_bound(p, lo, hi);
        assert(s[s.len() - 1] == s.last());
        assert(lo <= s.last() <= hi);
        assert(seq_sum(s) == seq_sum(p) + s.last());
        let n = s.len() as int;
        let sp = seq_sum(p);
        let x = s.last() as int;
        assert(p.len() == n - 1);
        assert(n * lo <= sp + x <= n * hi) by (nonlinear_arith)
            requires
                p.len() * lo <= sp <= p.len() * hi,
                p.len() == n - 1,
                lo <= x <= hi,
        ;
        assert(s.len() * lo <= seq_sum(s) <= s.len() * hi);
    } else {
        assert(s.len() * lo == 0 && s.len() * hi == 0) by (nonlinear_arith)
            requires
                s.len() == 0,
        ;
    }
}

proof fn lemma_mean_within_extremes(s: Seq<u64>)
    requires
        s.len() > 0,
    ensures
        seq_min(s) <= mean_of(s) <= seq_max(s),
{
    lemma_min_max_bound(s);
    let n = s.len() as int;
    let lo = seq_min(s) as int;
    let hi = seq_max(s) as int;
    lemma_sum_bound(s, lo, hi);
    assert(n * lo == lo * n && n * hi == hi * n) by (nonlinear_arith);
    lemma_div_is_ordered(lo * n, seq_sum(s), n);
    lemma_div_is_ordered(seq_sum(s), hi * n, n);
    lemma_div_multiples_vanish(lo, n);
    lemma_div_multiples_vanish(hi, n);
}

/// The sum of any slice of `u64`s fits a `u128`.
proof fn lemma_sum_fits(s: Seq<u64>)
    requires
        s.len() <= usize::MAX,
    ensures
        0 <= seq_sum(s) <= u128::MAX,
{
    assert(all_within(s, 0, u64::MAX as int));
    lemma_sum_bound(s, 0, u64::MAX as int);
    let n = s.len() as int;
    assert(n * (u64::MAX as int) <= u128::MAX) by (nonlinear_arith)
        requires
            0 <= n <= u64::MAX,
    ;
}

/// Relies on num::cast from usize to u128, which widens and always succeeds.
#[verifier::external_body]
fn len_as_u128(n: usize) -> (r: Option<u128>)
    ensures
        r == Some(n as u128),
{
    num::cast::<usize, u128>(n)
}

/// The smallest sample, or `None` for an empty sequence.
pub fn min(f: &[u64]) -> (r: Option<u64>)
    ensures
        f@.len() == 0 ==> r.is_none(),
        f@.len() > 0 ==> r == Some(seq_min(f@)),
{
    if f.len() == 0 {
        return None;
    }
    let mut m: u64 = f[0];
    let mut i: usize = 1;
    while i < f.len()
        invariant
            1 <= i <= f@.len(),
            m == seq_min(f@.subrange(0, i as int)),
        decreases f@.len() - i,
    {
        assert(f@.subrange(0, i + 1).drop_last() =~= f@.subrange(0, i as int));
        if f[i] < m {
            m = f[i];
        }
        i = i + 1;
    }
    assert(f@.subrange(0, f@.len() as int) =~= f@);
    Some(m)
}

/// The largest sample, or `None` for an empty sequence.
pub fn max(f: &[u64]) -> (r: Option<u64>)
    ensures
        f@.len() == 0 ==> r.is_none(),
        f@.len() > 0 ==> r == Some(seq_max(f@)),
{
    if f.len() == 0 {
        return None;
    }
    let mut m: u64 = f[0];
    let mut i: usize = 1;
    while i < f.len()
        invariant
            1 <= i <= f@.len(),
            m == seq_max(f@.subrange(0, i as int)),
        decreases f@.len() - i,
    {
        assert(f@.subrange(0, i + 1).drop_last() =~= f@.subrange(0, i as int));
        if f[i] > m {
            m = f[i];
        }
        i = i + 1;
    }
    assert(f@.subrange(0, f@.len() as int) =~= f@);
    Some(m)
}

/// The sum of the samples, or `None` for an empty sequence. A `u128` holds
/// the sum of any slice of `u64`s.
pub fn sum(f: &[u64]) -> (r: Option<u128>)
    ensures
        f@.len() == 0 ==> r.is_none(),
        f@.len() > 0 ==> r == Some(seq_sum(f@) as u128),
{
    if f.len() == 0 {
        return None;
    }
    let mut acc: u128 = 0;
    let mut i: usize = 0;
    while i < f.len()
        invariant
            i <= f@.len(),
            acc == seq_sum(f@.subrange(0, i as int)),
            seq_sum(f@.subrange(0, i as int)) <= i * 0xffff_ffff_ffff_ffff,
        decreases f@.len() - i,
    {
        assert(f@.subrange(0, i + 1).drop_last() =~= f@.subrange(0, i as int));
        let ghost k = i as int;
        assert(k * 0xffff_ffff_ffff_ffff + 0xffff_ffff_ffff_ffff == (k + 1) * 0xffff_ffff_ffff_ffff)
            by (nonlinear_arith);
        assert((k + 1) * 0xffff_ffff_ffff_ffff <= 0xffff_ffff_ffff_ffff * 0xffff_ffff_ffff_ffff)
            by (nonlinear_arith)
            requires
                k + 1 <= 0xffff_ffff_ffff_ffff,
        ;
        acc = acc + f[i] as u128;
        i = i + 1;
    }
    assert(f@.subrange(0, f@.len() as int) =~= f@);
    Some(acc)
}

/// The mean of the samples rounded down, or `None` for an empty sequence.
pub fn mean(f: &[u64]) -> (r: Option<u64>)
    ensures
        f@.len() == 0 ==> r.is_none(),
        f@.len() > 0 ==> r == Some(mean_of(f@)),
{
    match sum(f) {
        Some(s) => {
            let n = len_as_u128(f.len()).unwrap();
            proof {
                lemma_mean_within_extremes(f@);
                lemma_sum_fits(f@);
                assert((s / n) as int == seq_sum(f@) / f@.len() as int);
            }
            Some((s / n) as u64)
        },
        None => None,
    }
}

/// The elements are in non-decreasing order.
pub open spec fn is_sorted(t: Seq<u64>) -> bool {
    forall|i: int, j: int| 0 <= i < j < t.len() ==> t[i] <= t[j]
}

/// Places `x` before the first element of `t` that is not smaller than it.
pub open spec fn insert_sorted(t: Seq<u64>, x: u64) -> Seq<u64>
    decreases t.len(),
{
    if t.len() == 0 {
        seq![x]
    } else if x <= t[0] {
        seq![x] + t
    } else {
        seq![t[0]] + insert_sorted(t.drop_first(), x)
    }
}

/// The sorted copy of `s`: its elements inserted one by one, in order.
pub open spec fn sorted_seq(s: Seq<u64>) -> Seq<u64>
    decreases s.len(),
{
    if s.len() == 0 {
        Seq::empty()
    } else {
        insert_sorted(sorted_seq(s.drop_last()), s.last())
    }
}

/// The middle of a non-empty sorted sequence: its middle element for an odd
/// length, the mean of its two middle elements (rounded down) for an even one.
pub open spec fn middle_of(t: Seq<u64>) -> u64
    recommends
        t.len() > 0,
{
    let i = t.len() / 2;
    if t.len() % 2 == 1 {
        t[i as int]
    } else {
        ((t[i - 1] + t[i as int]) / 2) as u64
    }
}

/// The median: `None` for an empty sequence, else the middle of its sorted copy.
pub open spec fn median_of(s: Seq<u64>) -> Option<u64> {
    if s.len() == 0 {
        None
    } else {
        Some(middle_of(sorted_seq(s)))
    }
}

/// The lower half of a sorted sequence: the elements before the middle index.
pub open spec fn lower_half(t: Seq<u64>) -> Seq<u64> {
    t.subrange(0, (t.len() / 2) as int)
}

/// The upper half of a sorted sequence: from the middle index on for an even
/// length, after the middle element for an odd one.
pub open spec fn upper_half(t: Seq<u64>) -> Seq<u64> {
    let i = (t.len() / 2) as int;
    if t.len() % 2 == 1 {
        t.subrange(i + 1, t.len() as int)
    } else {
        t.subrange(i, t.len() as int)
    }
}

/// The quartiles: the medians of the lower half, of the whole and of the
/// upper half of the sorted copy; `None` as soon as one of them is.
pub open spec fn quartiles_of(s: Seq<u64>) -> Option<(u64, u64, u64)> {
    let t = sorted_seq(s);
    match (median_of(lower_half(t)), median_of(t), median_of(upper_half(t))) {
        (Some(q1), Some(q2), Some(q3)) => Some((q1, q2, q3)),
        _ => None,
    }
}

proof fn lemma_insert_sorted(t: Seq<u64>, x: u64)
    requires
        is_sorted(t),
    ensures
        is_sorted(insert_sorted(t, x)),
        insert_sorted(t, x).len() == t.len() + 1,
        forall|y: u64| #[trigger] insert_sorted(t, x).contains(y) ==> y == x || t.contains(y),
    decreases t.len(),
{
    let r = insert_sorted(t, x);
    if t.len() == 0 {
        assert forall|y: u64| #[trigger] r.contains(y) implies y == x by {
            let j = choose|j: int| 0 <= j < r.len() && r[j] == y;
            assert(r[0] == x);
        }
    } else if x <= t[0] {
        assert forall|y: u64| #[trigger] r.contains(y) implies y == x || t.contains(y) by {
            let j = choose|j: int| 0 <= j < r.len() && r[j] == y;
            if j > 0 {
                assert(t[j - 1] == y);
            }
        }
    } else {
        let d = t.drop_first();
        assert(is_sorted(d)) by {
            assert forall|i: int, j: int| 0 <= i < j < d.len() implies d[i] <= d[j] by {
                assert(d[i] == t[i + 1] && d[j] == t[j + 1]);
            }
        }
        lemma_insert_sorted(d, x);
        let rd = insert_sorted(d, x);
        assert(r == seq![t[0]] + rd);
        assert forall|y: u64| #[trigger] r.contains(y) implies y == x || t.contains(y) by {
            let j = choose|j: int| 0 <= j < r.len() && r[j] == y;
            if j == 0 {
                assert(t[0] == y);
            } else {
                assert(rd[j - 1] == y);
                assert(rd.contains(y));
                if y != x {
                    let k = choose|k: int| 0 <= k < d.len() && d[k] == y;
                    assert(t[k + 1] == y);
                }
            }
        }
        assert forall|i: int, j: int| 0 <= i < j < r.len() implies r[i] <= r[j] by {
            if i == 0 {
                assert(rd.contains(r[j])) by {
                    assert(rd[j - 1] == r[j]);
                }
                if r[j] != x {
                    let k = choose|k: int| 0 <= k < d.len() && d[k] == r[j];
                    assert(t[k + 1] == r[j]);
                }
            }
        }
    }
}

proof fn lemma_sorted_seq(s: Seq<u64>)
    ensures
        is_sorted(sorted_seq(s)),
        sorted_seq(s).len() == s.len(),
        forall|y: u64| #[trigger] sorted_seq(s).contains(y) ==> s.contains(y),
    decreases s.len(),
{
    if s.len() > 0 {
        let p = s.drop_last();
        lemma_sorted_seq(p);
        lemma_insert_sorted(sorted_seq(p), s.last());
        assert forall|y: u64| #[trigger] sorted_seq(s).contains(y) implies s.contains(y) by {
            if y == s.last() {
                assert(s[s.len() - 1] == y);
            } else {
                assert(sorted_seq(p).contains(y));
                let k = choose|k: int| 0 <= k < p.len() && p[k] == y;
                assert(s[k] == y);
            }
        }
    }
}

proof fn lemma_insert_at_end(t: Seq<u64>, x: u64)
    requires
        is_sorted(t),
        forall|j: int| 0 <= j < t.len() ==> t[j] <= x,
    ensures
        insert_sorted(t, x) == t.push(x),
    decreases t.len(),
{
    if t.len() == 0 {
        assert(insert_sorted(t, x) =~= t.push(x));
    } else if x <= t[0] {
        assert forall|j: int| 0 <= j < t.len() implies t[j] == x by {
            assert(t[0] <= t[j] || j == 0);
        }
        assert(insert_sorted(t, x) =~= t.push(x));
    } else {
        let d = t.drop_first();
        assert(is_sorted(d)) by {
            assert forall|i: int, j: int| 0 <= i < j < d.len() implies d[i] <= d[j] by {
                assert(d[i] == t[i + 1] && d[j] == t[j + 1]);
            }
        }
        assert forall|j: int| 0 <= j < d.len() implies d[j] <= x by {
            assert(d[j] == t[j + 1]);
        }
        lemma_insert_at_end(d, x);
        assert(insert_sorted(t, x) =~= t.push(x));
    }
}

/// Sorting a sequence that is already sorted leaves it as it is.
pub proof fn lemma_sorted_seq_of_sorted(t: Seq<u64>)
    requires
        is_sorted(t),
    ensures
        sorted_seq(t) == t,
    decreases t.len(),
{
    if t.len() > 0 {
        let p = t.drop_last();
        assert(is_sorted(p)) by {
            assert forall|i: int, j: int| 0 <= i < j < p.len() implies p[i] <= p[j] by {
                assert(p[i] == t[i] && p[j] == t[j]);
            }
        }
        lemma_sorted_seq_of_sorted(p);
        assert forall|j: int| 0 <= j < p.len() implies p[j] <= t.last() by {
            assert(p[j] == t[j]);
            assert(t[t.len() - 1] == t.last());
        }
        lemma_insert_at_end(p, t.last());
        assert(p.push(t.last()) =~= t);
    }
}

/// Inserts `x` into `v` before its first element that is not smaller.
fn insert_in_order(v: &mut Vec<u64>, x: u64)
    ensures
        final(v)@ == insert_sorted(old(v)@, x),
{
    let mut k: usize = 0;
    assert(v@.subrange(0, v@.len() as int) =~= v@);
    assert(v@.subrange(0, 0) + insert_sorted(v@, x) =~= insert_sorted(v@, x));
    while k < v.len() && v[k] < x
        invariant
            k <= v@.len(),
            insert_sorted(v@, x) == v@.subrange(0, k as int) + insert_sorted(
                v@.subrange(k as int, v@.len() as int),
                x,
            ),
        decreases v@.len() - k,
    {
        let ghost rest = v@.subrange(k as int, v@.len() as int);
        assert(rest.drop_first() =~= v@.subrange(k + 1, v@.len() as int));
        assert(v@.subrange(0, k as int) + seq![v@[k as int]] =~= v@.subrange(0, k + 1));
        assert(insert_sorted(rest, x) == seq![rest[0]] + insert_sorted(rest.drop_first(), x));
        assert((v@.subrange(0, k as int) + seq![v@[k as int]]) + insert_sorted(rest.drop_first(), x)
            =~= v@.subrange(0, k as int) + (seq![rest[0]] + insert_sorted(rest.drop_first(), x)));
        k = k + 1;
    }
    let ghost before = v@;
    let ghost rest = before.subrange(k as int, before.len() as int);
    v.insert(k, x);
    proof {
        if k < before.len() {
            assert(insert_sorted(rest, x) == seq![x] + rest);
        }
        assert(final(v)@ =~= before.subrange(0, k as int) + insert_sorted(rest, x));
    }
}

/// A sorted copy of the samples; the input is left as it is.
fn sorted_copy(s: &[u64]) -> (r: Vec<u64>)
    ensures
        r@ == sorted_seq(s@),
{
    let mut v: Vec<u64> = Vec::new();
    let mut i: usize = 0;
    while i < s.len()
        invariant
            i <= s@.len(),
            v@ == sorted_seq(s@.subrange(0, i as int)),
        decreases s@.len() - i,
    {
        assert(s@.subrange(0, i + 1).drop_last() =~= s@.subrange(0, i as int));
        insert_in_order(&mut v, s[i]);
        i = i + 1;
    }
    assert(s@.subrange(0, s@.len() as int) =~= s@);
    v
}

/// The median of the samples, or `None` for an empty sequence. For an even
/// length it is the mean of the two middle elements, rounded down.
pub fn median(t: &[u64]) -> (r: Option<u64>)
    ensures
        r == median_of(t@),
{
    if t.len() == 0 {
        return None;
    }
    let sorted = sorted_copy(t);
    proof {
        lemma_sorted_seq(t@);
    }
    let i = t.len() / 2;
    if t.len() % 2 == 1 {
        Some(sorted[i])
    } else {
        Some(((sorted[i] as u128 + sorted[i - 1] as u128) / 2) as u64)
    }
}

/// The quartiles `(q1, q2, q3)` of the samples: `None` for fewer than two.
pub fn quartiles(t: &[u64]) -> (r: Option<(u64, u64, u64)>)
    ensures
        r == quartiles_of(t@),
        r.is_none() <==> t@.len() < 2,
{
    let sorted = sorted_copy(t);
    proof {
        lemma_sorted_seq(t@);
    }
    let all = sorted.as_slice();
    let i = t.len() / 2;
    let upper = if t.len() % 2 == 1 {
        &all[i + 1..all.len()]
    } else {
        &all[i..all.len()]
    };
    let lower = &all[0..i];
    match (median(lower), median(all), median(upper)) {
        (Some(q1), Some(q2), Some(q3)) => Some((q1, q2, q3)),
        _ => None,
    }
}

proof fn lemma_middle_bounds(u: Seq<u64>)
    requires
        is_sorted(u),
        u.len() > 0,
    ensures
        u[0] <= middle_of(u) <= u[u.len() - 1],
{
    let i = (u.len() / 2) as int;
    if u.len() % 2 == 0 {
        assert(u[0] <= u[i - 1] || i - 1 == 0);
        assert(u[i] <= u[u.len() - 1] || i == u.len() - 1);
    } else {
        assert(u[0] <= u[i] || i == 0);
        assert(u[i] <= u[u.len() - 1] || i == u.len() - 1);
    }
}

/// The median and the mean of a non-empty sequence lie between its minimum
/// and its maximum.
pub proof fn lemma_center_within_extremes(s: Seq<u64>)
    requires
        s.len() > 0,
    ensures
        seq_min(s) <= mean_of(s) <= seq_max(s),
        median_of(s) matches Some(m) && seq_min(s) <= m <= seq_max(s),
{
    lemma_mean_within_extremes(s);
    lemma_min_max_bound(s);
    lemma_sorted_seq(s);
    let t = sorted_seq(s);
    assert(t.contains(t[0]));
    assert(t.contains(t[t.len() - 1]));
    let a = choose|k: int| 0 <= k < s.len() && s[k] == t[0];
    let b = choose|k: int| 0 <= k < s.len() && s[k] == t[t.len() - 1];
    assert(seq_min(s) <= s[a] && s[b] <= seq_max(s));
    lemma_middle_bounds(t);
}

proof fn lemma_sorted_subrange(t: Seq<u64>, lo: int, hi: int)
    requires
        is_sorted(t),
        0 <= lo <= hi <= t.len(),
    ensures
        is_sorted(t.subrange(lo, hi)),
        sorted_seq(t.subrange(lo, hi)) == t.subrange(lo, hi),
{
    let u = t.subrange(lo, hi);
    assert forall|i: int, j: int| 0 <= i < j < u.len() implies u[i] <= u[j] by {
        assert(u[i] == t[lo + i] && u[j] == t[lo + j]);
    }
    lemma_sorted_seq_of_sorted(u);
}

/// For two or more samples the quartiles exist and are ordered:
/// `q1 <= q2 <= q3`.
pub proof fn lemma_quartiles_ordered(s: Seq<u64>)
    requires
        s.len() >= 2,
    ensures
        quartiles_of(s) matches Some((q1, q2, q3)) && q1 <= q2 <= q3,
{
    lemma_sorted_seq(s);
    let t = sorted_seq(s);
    let n = t.len() as int;
    let i = n / 2;
    let lo = lower_half(t);
    let up = upper_half(t);
    lemma_sorted_subrange(t, 0, i);
    if n % 2 == 1 {
        lemma_sorted_subrange(t, i + 1, n);
        assert(t[i] <= t[i + 1]);
        assert(up[0] == t[i + 1]);
    } else {
        lemma_sorted_subrange(t, i, n);
        assert(up[0] == t[i]);
    }
    assert(t[i - 1] <= t[i]);
    assert(lo[lo.len() - 1] == t[i - 1]);
    lemma_middle_bounds(lo);
    lemma_middle_bounds(up);
    lemma_sorted_seq_of_sorted(t);
    assert(t[i - 1] <= middle_of(t) <= t[i]);
    assert(median_of(lo) == Some(middle_of(lo)));
    assert(median_of(up) == Some(middle_of(up)));
    assert(median_of(t) == Some(middle_of(t)));
}

/// The sum of the squared distances of the elements from `c`.
pub open spec fn square_deviations(s: Seq<u64>, c: u64) -> int
    decreases s.len(),
{
    if s.len() == 0 {
        0
    } else {
        let d = s.last() - c;
        square_deviations(s.drop_last(), c) + d * d
    }
}

/// The center that deviations are taken from: `c` if given, else the mean.
pub open spec fn center_of(s: Seq<u64>, c: Option<u64>) -> u64 {
    match c {
        Some(c) => c,
        None => mean_of(s),
    }
}

/// The sum of squared deviations, saturated at `u128::MAX`; `None` for an
/// empty sequence.
pub open spec fn square_deviations_of(s: Seq<u64>, c: Option<u64>) -> Option<u128> {
    if s.len() == 0 {
        None
    } else {
        let d = square_deviations(s, center_of(s, c));
        Some(if d > u128::MAX { u128::MAX } else { d as u128 })
    }
}

/// The sample variance, `square_deviations / (n - 1)`; `None` for fewer than
/// two samples, where it is not defined.
pub open spec fn variance_of(s: Seq<u64>, c: Option<u64>) -> Option<u128> {
    if s.len() <= 1 {
        None
    } else {
        match square_deviations_of(s, c) {
            Some(d) => Some((d as int / (s.len() - 1) as int) as u128),
            None => None,
        }
    }
}

/// `r` is the square root of `x` rounded down.
pub open spec fn is_floor_sqrt(r: int, x: int) -> bool {
    0 <= r && r * r <= x < (r + 1) * (r + 1)
}

/// Relies on num::integer::sqrt for u128: the truncated principal square
/// root, `r * r <= x < (r + 1) * (r + 1)`.
#[verifier::external_body]
fn floor_sqrt(x: u128) -> (r: u128)
    ensures
        is_floor_sqrt(r as int, x as int),
{
    num::integer::sqrt(x)
}

/// The sum of squared deviations of the samples from `c`, or from their mean
/// where `c` is `None`. It saturates at `u128::MAX`. `None` for an empty
/// sequence.
pub fn sum_square_deviations(v: &[u64], c: Option<u64>) -> (r: Option<u128>)
    ensures
        r == square_deviations_of(v@, c),
{
    if v.len() == 0 {
        return None;
    }
    let c = match c {
        Some(c) => c,
        None => mean(v).unwrap(),
    };
    let mut acc: u128 = 0;
    let mut i: usize = 0;
    while i < v.len()
        invariant
            i <= v@.len(),
            acc == (if square_deviations(v@.subrange(0, i as int), c) > u128::MAX {
                u128::MAX
            } else {
                square_deviations(v@.subrange(0, i as int), c) as u128
            }),
            square_deviations(v@.subrange(0, i as int), c) >= 0,
        decreases v@.len() - i,
    {
        assert(v@.subrange(0, i + 1).drop_last() =~= v@.subrange(0, i as int));
        let x = v[i];
        let d: u64 = if x >= c { x - c } else { c - x };
        assert(d * d <= u64::MAX * u64::MAX) by (nonlinear_arith)
            requires
                0 <= d <= u64::MAX,
        ;
        let sq: u128 = (d as u128) * (d as u128);
        assert((x - c) * (x - c) == d * d) by (nonlinear_arith)
            requires
                d == x - c || d == c - x,
        ;
        assert(sq >= 0);
        acc = acc.saturating_add(sq);
        i = i + 1;
    }
    assert(v@.subrange(0, v@.len() as int) =~= v@);
    Some(acc)
}

/// The sample variance, `sum_square_deviations / (n - 1)`, with `vbar` as the
/// center where given. `None` for fewer than two samples: one sample gives no
/// spread to estimate, and the division by zero is not carried out.
pub fn variance(v: &[u64], vbar: Option<u64>) -> (r: Option<u128>)
    ensures
        r == variance_of(v@, vbar),
{
    if v.len() <= 1 {
        return None;
    }
    match sum_square_deviations(v, vbar) {
        Some(d) => {
            let n = len_as_u128(v.len()).unwrap();
            Some(d / (n - 1))
        },
        None => None,
    }
}

/// The standard deviation: the square root of the variance, rounded down;
/// `None` exactly where the variance is. Integer variances are never
/// negative, so the root always exists.
pub fn standard_deviation(v: &[u64], vbar: Option<u64>) -> (r: Option<u128>)
    ensures
        r.is_some() == variance_of(v@, vbar).is_some(),
        r matches Some(d) ==> is_floor_sqrt(d as int, variance_of(v@, vbar).unwrap() as int),
{
    match variance(v, vbar) {
        Some(var) => Some(floor_sqrt(var)),
        None => None,
    }
}

} // verus!
