use vstd::prelude::*;
use vstd::seq_lib::lemma_no_dup_in_concat;

use crate::labels::copy_labels as copy_vec;

verus! {

/// Holds of the labels `c` whose membership in `x` is `in_x` and in `y` is `in_y`.
pub open spec fn group_pred(x: Seq<char>, y: Seq<char>, in_x: bool, in_y: bool) -> spec_fn(
    char,
) -> bool {
    |c: char| x.contains(c) == in_x && y.contains(c) == in_y
}

/// Labels of `a` kept in the output `c` and absent from `b`.
pub open spec fn free_left(a: Seq<char>, b: Seq<char>, c: Seq<char>) -> Seq<char> {
    a.filter(group_pred(b, c, false, true))
}

/// Labels of `a` shared with `b` and absent from the output `c`.
pub open spec fn contracted(a: Seq<char>, b: Seq<char>, c: Seq<char>) -> Seq<char> {
    a.filter(group_pred(b, c, true, false))
}

/// Labels of `a` shared with `b` and kept in the output `c`.
pub open spec fn batch(a: Seq<char>, b: Seq<char>, c: Seq<char>) -> Seq<char> {
    a.filter(group_pred(b, c, true, true))
}

/// Canonical label order of the left operand: free, then contracted, then batch labels.
pub open spec fn left_order(a: Seq<char>, b: Seq<char>, c: Seq<char>) -> Seq<char> {
    free_left(a, b, c) + contracted(a, b, c) + batch(a, b, c)
}

/// Canonical label order of the right operand: contracted (in the left
/// operand's order), then its own free labels, then batch labels.
pub open spec fn right_order(a: Seq<char>, b: Seq<char>, c: Seq<char>) -> Seq<char> {
    contracted(a, b, c) + free_left(b, a, c) + batch(a, b, c)
}

/// `r` lists, for each label of `order`, its position in `v`.
pub open spec fn positions_of(v: Seq<char>, order: Seq<char>, r: Seq<usize>) -> bool {
    &&& r.len() == order.len()
    &&& forall|k: int| 0 <= k < r.len() ==> #[trigger] r[k] < v.len() && v[r[k] as int] == order[k]
}

/// `r` is a permutation of `0..n`.
pub open spec fn is_permutation(r: Seq<usize>, n: int) -> bool {
    &&& r.len() == n
    &&& r.no_duplicates()
    &&& forall|k: int| 0 <= k < r.len() ==> r[k] < n
}

/// A pairwise contraction whose canonical orders are bijections: no label
/// repeats within an operand or the output, every output label comes from an
/// operand, and every operand label is shared or kept (no trace labels).
pub open spec fn contraction_ok(a: Seq<char>, b: Seq<char>, c: Seq<char>) -> bool {
    &&& a.no_duplicates()
    &&& b.no_duplicates()
    &&& c.no_duplicates()
    &&& forall|x: char| c.contains(x) ==> a.contains(x) || b.contains(x)
    &&& forall|x: char| a.contains(x) ==> b.contains(x) || c.contains(x)
    &&& forall|x: char| b.contains(x) ==> a.contains(x) || c.contains(x)
}

/// Tells whether `c` occurs in `v`.
pub fn contains_label(v: &Vec<char>, c: char) -> (r: bool)
    ensures
        r == v@.contains(c),
{
    let mut k: usize = 0;
    while k < v.len()
        invariant
            k <= v@.len(),
            forall|j: int| 0 <= j < k ==> v@[j] != c,
        decreases v.len() - k,
    {
        if v[k] == c {
            return true;
        }
        k += 1;
    }
    false
}

/// Tells whether no label occurs twice in `v`.
pub fn labels_distinct(v: &Vec<char>) -> (r: bool)
    ensures
        r == v@.no_duplicates(),
{
    let mut k: usize = 0;
    while k < v.len()
        invariant
            k <= v@.len(),
            forall|i: int, j: int| 0 <= i < j < k ==> v@[i] != v@[j],
        decreases v.len() - k,
    {
        let mut m: usize = 0;
        while m < k
            invariant
                k < v@.len(),
                m <= k,
                forall|i: int| 0 <= i < m ==> v@[i] != v@[k as int],
            decreases k - m,
        {
            if v[m] == v[k] {
                return false;
            }
            m += 1;
        }
        k += 1;
    }
    true
}

/// Tells whether every label of `v` occurs in `x` or in `y`.
fn all_covered(v: &Vec<char>, x: &Vec<char>, y: &Vec<char>) -> (r: bool)
    ensures
        r == forall|c: char| v@.contains(c) ==> x@.contains(c) || y@.contains(c),
{
    let mut k: usize = 0;
    while k < v.len()
        invariant
            k <= v@.len(),
            forall|j: int| 0 <= j < k ==> x@.contains(v@[j]) || y@.contains(v@[j]),
        decreases v.len() - k,
    {
        if !contains_label(x, v[k]) && !contains_label(y, v[k]) {
            assert(v@.contains(v@[k as int]));
            return false;
        }
        k += 1;
    }
    true
}

/// The labels of `v`, in order, whose membership in `x` and `y` is as given.
fn group_labels(v: &Vec<char>, x: &Vec<char>, y: &Vec<char>, in_x: bool, in_y: bool) -> (r: Vec<
    char,
>)
    ensures
        r@ == v@.filter(group_pred(x@, y@, in_x, in_y)),
{
    let ghost f = group_pred(x@, y@, in_x, in_y);
    let mut r: Vec<char> = Vec::new();
    let mut k: usize = 0;
    assert(v@.take(0).filter(f) =~= Seq::<char>::empty());
    while k < v.len()
        invariant
            k <= v@.len(),
            f == group_pred(x@, y@, in_x, in_y),
            r@ == v@.take(k as int).filter(f),
        decreases v.len() - k,
    {
        let c = v[k];
        assert(v@.take(k + 1).drop_last() =~= v@.take(k as int));
        assert(v@.take(k + 1).last() == c);
        assert(f(c) == (x@.contains(c) == in_x && y@.contains(c) == in_y));
        let keep = contains_label(x, c) == in_x && contains_label(y, c) == in_y;
        let ghost t = v@.take(k + 1);
        reveal(Seq::filter);
        assert(t.filter(f) == if f(t.last()) {
            t.drop_last().filter(f).push(t.last())
        } else {
            t.drop_last().filter(f)
        });
        if keep {
            r.push(c);
        }
        k += 1;
    }
    assert(v@.take(k as int) =~= v@);
    r
}

/// The first position of `c` in `v`.
fn position_of(v: &Vec<char>, c: char) -> (p: usize)
    requires
        v@.contains(c),
    ensures
        p < v@.len(),
        v@[p as int] == c,
{
    let mut p: usize = 0;
    while p < v.len()
        invariant
            v@.contains(c),
            p <= v@.len(),
            forall|i: int| 0 <= i < p ==> v@[i] != c,
        decreases v.len() - p,
    {
        if v[p] == c {
            return p;
        }
        p += 1;
    }
    assert(false);
    0
}

/// The position in `v` of each label of `order`.
fn positions_in(v: &Vec<char>, order: &Vec<char>) -> (r: Vec<usize>)
    requires
        forall|k: int| 0 <= k < order@.len() ==> v@.contains(#[trigger] order@[k]),
    ensures
        positions_of(v@, order@, r@),
{
    let mut r: Vec<usize> = Vec::new();
    let mut k: usize = 0;
    while k < order.len()
        invariant
            k <= order@.len(),
            forall|j: int| 0 <= j < order@.len() ==> v@.contains(#[trigger] order@[j]),
            r@.len() == k,
            forall|j: int| 0 <= j < k ==> #[trigger] r@[j] < v@.len(),
            forall|j: int| 0 <= j < k ==> v@[#[trigger] r@[j] as int] == order@[j],
        decreases order.len() - k,
    {
        let c = order[k];
        assert(v@.contains(order@[k as int]));
        let p = position_of(v, c);
        let ghost before = r@;
        r.push(p);
        assert forall|j: int| 0 <= j < k + 1 implies #[trigger] r@[j] < v@.len() && v@[r@[j]
            as int] == order@[j] by {
            if j < k {
                assert(r@[j] == before[j]);
            }
        }
        k += 1;
    }
    r
}

proof fn lemma_filter_no_dup(s: Seq<char>, f: spec_fn(char) -> bool)
    requires
        s.no_duplicates(),
    ensures
        s.filter(f).no_duplicates(),
        forall|i: int| 0 <= i < s.filter(f).len() ==> s.contains(#[trigger] s.filter(f)[i]),
        forall|i: int| 0 <= i < s.filter(f).len() ==> f(#[trigger] s.filter(f)[i]),
    decreases s.len(),
{
    reveal(Seq::filter);
    if s.len() > 0 {
        let d = s.drop_last();
        lemma_filter_no_dup(d, f);
        assert forall|i: int| 0 <= i < d.filter(f).len() implies d.filter(f)[i] != s.last() by {
            let x = d.filter(f)[i];
            let w = choose|m: int| 0 <= m < d.len() && d[m] == x;
            assert(s[w] == x);
        }
        assert forall|i: int| 0 <= i < d.filter(f).len() implies s.contains(d.filter(f)[i]) by {
            let x = d.filter(f)[i];
            let w = choose|m: int| 0 <= m < d.len() && d[m] == x;
            assert(s[w] == x);
        }
        assert(s.contains(s[s.len() - 1]));
    }
}

proof fn lemma_usize_range_len(n: nat)
    ensures
        Set::new(|x: usize| x < n).finite(),
        Set::new(|x: usize| x < n).len() == if n <= usize::MAX + 1 { n } else { (
        usize::MAX + 1) as nat },
    decreases n,
{
    if n == 0 {
        assert(Set::new(|x: usize| x < n) =~= Set::<usize>::empty());
    } else {
        lemma_usize_range_len((n - 1) as nat);
        if n <= usize::MAX + 1 {
            assert(Set::new(|x: usize| x < (n - 1) as nat).insert((n - 1) as usize) =~= Set::new(
                |x: usize| x < n,
            ));
        } else {
            assert(Set::new(|x: usize| x < (n - 1) as nat) =~= Set::new(|x: usize| x < n));
        }
    }
}

/// Positions of the labels of a duplicate-free `order` that covers a
/// duplicate-free `v` form a permutation of `v`'s positions.
proof fn lemma_positions_permutation(v: Seq<char>, order: Seq<char>, r: Seq<usize>)
    requires
        positions_of(v, order, r),
        v.no_duplicates(),
        order.no_duplicates(),
        forall|p: int| 0 <= p < v.len() ==> order.contains(#[trigger] v[p]),
        v.len() <= usize::MAX,
    ensures
        is_permutation(r, v.len() as int),
{
    assert forall|i: int, j: int| 0 <= i < r.len() && 0 <= j < r.len() && i != j implies r[i]
        != r[j] by {
        if r[i] == r[j] {
            assert(order[i] == v[r[i] as int]);
            assert(order[j] == v[r[j] as int]);
        }
    }
    let n = v.len();
    assert forall|x: usize| #[trigger] r.contains(x) <==> (x < n) by {
        if x < n {
            assert(order.contains(v[x as int]));
            let k = choose|k: int| 0 <= k < order.len() && order[k] == v[x as int];
            assert(v[r[k] as int] == v[x as int]);
            assert(r[k] == x);
            assert(r.contains(x));
        }
        if r.contains(x) {
            let k = choose|k: int| 0 <= k < r.len() && r[k] == x;
            assert(r[k] < n);
        }
    }
    assert(r.to_set() =~= Set::new(|x: usize| x < n));
    r.unique_seq_to_set();
    lemma_usize_range_len(n);
}

proof fn lemma_order_facts(a: Seq<char>, b: Seq<char>, c: Seq<char>)
    requires
        contraction_ok(a, b, c),
    ensures
        left_order(a, b, c).no_duplicates(),
        right_order(a, b, c).no_duplicates(),
        forall|p: int| 0 <= p < a.len() ==> left_order(a, b, c).contains(#[trigger] a[p]),
        forall|p: int| 0 <= p < b.len() ==> right_order(a, b, c).contains(#[trigger] b[p]),
        forall|k: int|
            0 <= k < left_order(a, b, c).len() ==> a.contains(#[trigger] left_order(a, b, c)[k]),
        forall|k: int|
            0 <= k < right_order(a, b, c).len() ==> b.contains(#[trigger] right_order(a, b, c)[k]),
{
    let fl = free_left(a, b, c);
    let ct = contracted(a, b, c);
    let bt = batch(a, b, c);
    let fr = free_left(b, a, c);
    lemma_filter_no_dup(a, group_pred(b, c, false, true));
    lemma_filter_no_dup(a, group_pred(b, c, true, false));
    lemma_filter_no_dup(a, group_pred(b, c, true, true));
    lemma_filter_no_dup(b, group_pred(a, c, false, true));
    lemma_no_dup_in_concat(fl, ct);
    lemma_no_dup_in_concat(fl + ct, bt);
    lemma_no_dup_in_concat(ct, fr);
    lemma_no_dup_in_concat(ct + fr, bt);
    assert forall|p: int| 0 <= p < a.len() implies left_order(a, b, c).contains(#[trigger] a[p]) by {
        let x = a[p];
        assert(a.contains(x));
        if !b.contains(x) {
            a.lemma_filter_contains(group_pred(b, c, false, true), p);
        } else if !c.contains(x) {
            a.lemma_filter_contains(group_pred(b, c, true, false), p);
        } else {
            a.lemma_filter_contains(group_pred(b, c, true, true), p);
        }
        if fl.contains(x) {
            let k = choose|k: int| 0 <= k < fl.len() && fl[k] == x;
            assert((fl + ct + bt)[k] == x);
        } else if ct.contains(x) {
            let k = choose|k: int| 0 <= k < ct.len() && ct[k] == x;
            assert((fl + ct + bt)[fl.len() + k] == x);
        } else {
            let k = choose|k: int| 0 <= k < bt.len() && bt[k] == x;
            assert((fl + ct + bt)[fl.len() + ct.len() + k] == x);
        }
    }
    assert forall|p: int| 0 <= p < b.len() implies right_order(a, b, c).contains(#[trigger] b[p]) by {
        let x = b[p];
        assert(b.contains(x));
        if a.contains(x) {
            let q = choose|q: int| 0 <= q < a.len() && a[q] == x;
            if c.contains(x) {
                a.lemma_filter_contains(group_pred(b, c, true, true), q);
            } else {
                a.lemma_filter_contains(group_pred(b, c, true, false), q);
            }
        } else {
            b.lemma_filter_contains(group_pred(a, c, false, true), p);
        }
        if ct.contains(x) {
            let k = choose|k: int| 0 <= k < ct.len() && ct[k] == x;
            assert((ct + fr + bt)[k] == x);
        } else if fr.contains(x) {
            let k = choose|k: int| 0 <= k < fr.len() && fr[k] == x;
            assert((ct + fr + bt)[ct.len() + k] == x);
        } else {
            let k = choose|k: int| 0 <= k < bt.len() && bt[k] == x;
            assert((ct + fr + bt)[ct.len() + fr.len() + k] == x);
        }
    }
    assert forall|k: int| 0 <= k < right_order(a, b, c).len() implies b.contains(
        #[trigger] right_order(a, b, c)[k],
    ) by {
        let x = right_order(a, b, c)[k];
        if k < ct.len() {
            assert(x == ct[k]);
        } else if k < ct.len() + fr.len() {
            assert(x == fr[k - ct.len()]);
        } else {
            assert(x == bt[k - ct.len() - fr.len()]);
        }
    }
    assert forall|k: int| 0 <= k < left_order(a, b, c).len() implies a.contains(
        #[trigger] left_order(a, b, c)[k],
    ) by {
        let x = left_order(a, b, c)[k];
        if k < fl.len() {
            assert(x == fl[k]);
        } else if k < fl.len() + ct.len() {
            assert(x == ct[k - fl.len()]);
        } else {
            assert(x == bt[k - fl.len() - ct.len()]);
        }
    }
}

/// Concatenation of three label sequences.
fn concat3(x: Vec<char>, y: Vec<char>, z: Vec<char>) -> (r: Vec<char>)
    ensures
        r@ == x@ + y@ + z@,
{
    let mut r = x;
    let mut y = y;
    let mut z = z;
    r.append(&mut y);
    r.append(&mut z);
    r
}

/// The labels of an operand rearranged by a dimension permutation: entry
/// `k` of the result is the label at position `perm[k]`.
pub fn permute_labels(labels: &Vec<char>, perm: &Vec<usize>) -> (r: Vec<char>)
    requires
        forall|k: int| 0 <= k < perm@.len() ==> #[trigger] perm@[k] < labels@.len(),
    ensures
        r@.len() == perm@.len(),
        forall|k: int| 0 <= k < perm@.len() ==> r@[k] == labels@[#[trigger] perm@[k] as int],
{
    let mut r: Vec<char> = Vec::new();
    let mut k: usize = 0;
    while k < perm.len()
        invariant
            k <= perm@.len(),
            forall|j: int| 0 <= j < perm@.len() ==> #[trigger] perm@[j] < labels@.len(),
            r@.len() == k,
            forall|j: int| 0 <= j < k ==> r@[j] == labels@[#[trigger] perm@[j] as int],
        decreases perm.len() - k,
    {
        r.push(labels[perm[k]]);
        k += 1;
    }
    r
}

/// The canonical dimension orders of a pairwise contraction `a, b -> c`: for
/// the left operand, the positions of its free, contracted and batch labels;
/// for the right operand, those of its contracted (in the left operand's
/// order), free and batch labels. Each group keeps the order of the operand
/// it is read from. `None` where the contraction is not well formed.
pub fn canonical_perms(a: &Vec<char>, b: &Vec<char>, c: &Vec<char>) -> (r: Option<
    (Vec<usize>, Vec<usize>),
>)
    ensures
        r is Some <==> contraction_ok(a@, b@, c@),
        r is Some ==> positions_of(a@, left_order(a@, b@, c@), r.unwrap().0@),
        r is Some ==> positions_of(b@, right_order(a@, b@, c@), r.unwrap().1@),
        r is Some ==> is_permutation(r.unwrap().0@, a@.len() as int),
        r is Some ==> is_permutation(r.unwrap().1@, b@.len() as int),
{
    if !labels_distinct(a) || !labels_distinct(b) || !labels_distinct(c) || !all_covered(c, a, b)
        || !all_covered(a, b, c) || !all_covered(b, a, c) {
        return None;
    }
    let lo = group_labels(a, b, c, false, true);
    let sum = group_labels(a, b, c, true, false);
    let bat = group_labels(a, b, c, true, true);
    let ro = group_labels(b, a, c, false, true);
    proof {
        lemma_order_facts(a@, b@, c@);
    }
    let left_labels = concat3(lo, copy_vec(&sum), copy_vec(&bat));
    let right_labels = concat3(sum, ro, bat);
    let left = positions_in(a, &left_labels);
    let right = positions_in(b, &right_labels);
    let na = a.len();
    let nb = b.len();
    proof {
        lemma_positions_permutation(a@, left_order(a@, b@, c@), left@);
        lemma_positions_permutation(b@, right_order(a@, b@, c@), right@);
    }
    Some((left, right))
}

} // verus!
