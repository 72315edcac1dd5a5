use vstd::prelude::*;
use vstd::relations::{sorted_by, total_ordering};
use vstd::seq_lib::lemma_sorted_unique;

verus! {

broadcast use vstd::seq_lib::group_to_multiset_ensures;

/// The order on timing samples.
pub open spec fn sample_leq() -> spec_fn(u64, u64) -> bool {
    |a: u64, b: u64| a <= b
}

/// The samples in ascending order.
pub open spec fn sorted_samples(s: Seq<u64>) -> Seq<u64> {
    s.sort_by(sample_leq())
}

/// The median: the sample of rank `len / 2` in ascending order.
pub open spec fn median_of(s: Seq<u64>) -> u64 {
    sorted_samples(s)[s.len() as int / 2]
}

/// The first quartile: the sample of rank `len / 4`.
pub open spec fn q1_of(s: Seq<u64>) -> u64 {
    sorted_samples(s)[s.len() as int / 4]
}

/// The third quartile: the sample of rank `3 * len / 4`.
pub open spec fn q3_of(s: Seq<u64>) -> u64 {
    sorted_samples(s)[3 * s.len() as int / 4]
}

proof fn lemma_sample_order()
    ensures
        total_ordering(sample_leq()),
{
}

proof fn lemma_sorted_samples(s: Seq<u64>)
    ensures
        sorted_by(sorted_samples(s), sample_leq()),
        sorted_samples(s).to_multiset() == s.to_multiset(),
        sorted_samples(s).len() == s.len(),
{
    lemma_sample_order();
    s.lemma_sort_by_ensures(sample_leq());
    assert(sorted_samples(s).to_multiset().len() == sorted_samples(s).len());
    assert(s.to_multiset().len() == s.len());
}

/// Copies a vector of samples element by element.
pub fn copy_vec_u64(v: &Vec<u64>) -> (r: Vec<u64>)
    ensures
        r@ == v@,
{
    let mut r: Vec<u64> = Vec::new();
    let mut k: usize = 0;
    while k < v.len()
        invariant
            k <= v.len(),
            r@ == v@.subrange(0, k as int),
        decreases v.len() - k,
    {
        r.push(v[k]);
        k += 1;
        assert(r@ =~= v@.subrange(0, k as int));
    }
    assert(r@ =~= v@);
    r
}

/// Sorts the samples into ascending order.
pub fn sort_samples(v: &mut Vec<u64>)
    ensures
        final(v)@ == sorted_samples(old(v)@),
{
    let ghost orig = old(v)@;
    let mut r: Vec<u64> = Vec::new();
    let mut k: usize = 0;
    while k < v.len()
        invariant
            v@ == orig,
            k <= v@.len(),
            sorted_by(r@, sample_leq()),
            r@.to_multiset() == v@.take(k as int).to_multiset(),
        decreases v.len() - k,
    {
        let x = v[k];
        let mut p: usize = 0;
        while p < r.len() && r[p] <= x
            invariant
                p <= r@.len(),
                forall|i: int| 0 <= i < p ==> r@[i] <= x,
            decreases r.len() - p,
        {
            p += 1;
        }
        let ghost before = r@;
        r.insert(p, x);
        assert(sorted_by(r@, sample_leq())) by {
            assert forall|i: int, j: int| 0 <= i < j < r@.len() implies #[trigger] (sample_leq())(
                r@[i],
                r@[j],
            ) by {
                assert(sorted_by(before, sample_leq()));
                if j < p {
                    assert((sample_leq())(before[i], before[j]));
                } else if j == p {
                    assert(r@[i] == before[i]);
                } else if i < p {
                    assert((sample_leq())(before[i], before[j - 1]));
                } else if i == p {
                    assert(r@[j] == before[j - 1]);
                    assert(!(before[p as int] <= x));
                    if j - 1 > p {
                        assert((sample_leq())(before[p as int], before[j - 1]));
                    }
                } else {
                    assert((sample_leq())(before[i - 1], before[j - 1]));
                }
            }
        }
        assert(v@.take(k + 1) =~= v@.take(k as int).push(x));
        k += 1;
    }
    assert(v@.take(k as int) =~= v@);
    proof {
        lemma_sorted_samples(orig);
        lemma_sample_order();
        lemma_sorted_unique(r@, sorted_samples(orig), sample_leq());
    }
    *v = r;
}

/// The median of the samples and their interquartile range (third quartile
/// minus first quartile), by rank in ascending order.
pub fn median_and_iqr(samples: Vec<u64>) -> (r: (u64, u64))
    requires
        samples@.len() >= 1,
    ensures
        r.0 == median_of(samples@),
        r.1 == q3_of(samples@) - q1_of(samples@),
{
    let ghost s = samples@;
    let mut v = samples;
    sort_samples(&mut v);
    proof {
        lemma_quartiles_ordered(s);
        lemma_sorted_samples(s);
    }
    let n = v.len();
    let med = v[n / 2];
    let q1 = v[n / 4];
    let q3 = v[3 * (n / 4) + (3 * (n % 4)) / 4];
    assert(3 * (n / 4) + (3 * (n % 4)) / 4 == 3 * n / 4) by (nonlinear_arith);
    (med, q3 - q1)
}

/// In ascending order, the first quartile does not exceed the median, and the
/// median does not exceed the third quartile.
pub proof fn lemma_quartiles_ordered(s: Seq<u64>)
    requires
        s.len() >= 1,
    ensures
        q1_of(s) <= median_of(s) <= q3_of(s),
{
    lemma_sorted_samples(s);
    let t = sorted_samples(s);
    let n = s.len() as int;
    assert(n / 4 <= n / 2 <= 3 * n / 4 < n) by (nonlinear_arith)
        requires
            n >= 1,
    ;
    if n / 4 < n / 2 {
        assert((sample_leq())(t[n / 4], t[n / 2]));
    }
    if n / 2 < 3 * n / 4 {
        assert((sample_leq())(t[n / 2], t[3 * n / 4]));
    }
}

} // verus!
