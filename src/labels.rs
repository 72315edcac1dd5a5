use vstd::prelude::*;

verus! {

/// Copies a label sequence element by element.
pub fn copy_labels(v: &Vec<char>) -> (r: Vec<char>)
    ensures
        r@ == v@,
{
    let mut r: Vec<char> = Vec::new();
    let mut k: usize = 0;
    while k < v.len()
        invariant
            k <= v.len(),
            r@ == v@.subrange(0, k as int),
        decreases v.len() - k,
    {
        r.push(v[k]);
        k += 1;
        assert(r@ =~= v@.subrange(0, k as int));
    }
    assert(r@ =~= v@);
    r
}

/// The characters of a string, as a vector.
pub fn chars_of(s: &str) -> (r: Vec<char>)
    ensures
        r@ == s@,
{
    let n = s.unicode_len();
    let mut r: Vec<char> = Vec::new();
    let mut k: usize = 0;
    while k < n
        invariant
            n == s@.len(),
            k <= n,
            r@ == s@.subrange(0, k as int),
        decreases n - k,
    {
        r.push(s.get_char(k));
        k += 1;
        assert(r@ =~= s@.subrange(0, k as int));
    }
    assert(r@ =~= s@);
    r
}

/// `s` holds the separator `->` starting at position `i`.
pub open spec fn arrow_at(s: Seq<char>, i: int) -> bool {
    0 <= i && i + 1 < s.len() && s[i] == '-' && s[i + 1] == '>'
}

/// The position of the first `->` in `s` at or after `k`, if any.
pub open spec fn first_arrow_from(s: Seq<char>, k: int) -> Option<int>
    decreases s.len() - k,
{
    if k < 0 || k + 1 >= s.len() {
        None
    } else if arrow_at(s, k) {
        Some(k)
    } else {
        first_arrow_from(s, k + 1)
    }
}

/// The position of the first `->` in `s`, if any.
pub open spec fn first_arrow(s: Seq<char>) -> Option<int> {
    first_arrow_from(s, 0)
}

proof fn lemma_first_arrow_from(s: Seq<char>, k: int)
    requires
        0 <= k,
    ensures
        first_arrow_from(s, k) is Some ==> arrow_at(s, first_arrow_from(s, k)->0) && k
            <= first_arrow_from(s, k)->0,
        first_arrow_from(s, k) is None ==> forall|j: int| k <= j ==> !arrow_at(s, j),
    decreases s.len() - k,
{
    if k + 1 < s.len() && !arrow_at(s, k) {
        lemma_first_arrow_from(s, k + 1);
    }
}

/// `s` split at every `,`: always at least one (possibly empty) piece.
pub open spec fn split_commas(s: Seq<char>) -> Seq<Seq<char>>
    decreases s.len(),
{
    if s.len() == 0 {
        seq![Seq::empty()]
    } else {
        let prev = split_commas(s.drop_last());
        if s.last() == ',' {
            prev.push(Seq::empty())
        } else {
            prev.update(prev.len() - 1, prev.last().push(s.last()))
        }
    }
}

/// The operand label sequences and the output label sequence of an einsum
/// format string `op1,op2,...->out`, split at its first `->`.
pub open spec fn parsed_format(s: Seq<char>) -> (Seq<Seq<char>>, Seq<char>) {
    let i = first_arrow(s).unwrap();
    (split_commas(s.take(i)), s.skip(i + 2))
}

/// The position of the first `->` in `s`, or `None` where it has none.
pub fn find_arrow(s: &Vec<char>) -> (r: Option<usize>)
    ensures
        r is Some <==> first_arrow(s@) is Some,
        r is Some ==> r->0 as int == first_arrow(s@)->0 && arrow_at(s@, r->0 as int),
{
    let mut k: usize = 0;
    while k < s.len() && k + 1 < s.len()
        invariant
            first_arrow(s@) == first_arrow_from(s@, k as int),
        decreases s.len() - k,
    {
        if s[k] == '-' && s[k + 1] == '>' {
            return Some(k);
        }
        k += 1;
    }
    None
}

/// The pieces of `s[from..to]` between commas.
pub fn split_on_commas(s: &Vec<char>, from: usize, to: usize) -> (r: Vec<Vec<char>>)
    requires
        from <= to <= s@.len(),
    ensures
        r@.map_values(|v: Vec<char>| v@) == split_commas(s@.subrange(from as int, to as int)),
{
    let mut r: Vec<Vec<char>> = Vec::new();
    r.push(Vec::new());
    let mut k: usize = from;
    assert(r@.map_values(|v: Vec<char>| v@) =~= split_commas(s@.subrange(from as int, from as int)));
    while k < to
        invariant
            from <= k <= to <= s@.len(),
            r@.len() >= 1,
            r@.map_values(|v: Vec<char>| v@) =~= split_commas(s@.subrange(from as int, k as int)),
        decreases to - k,
    {
        let ghost before = r@.map_values(|v: Vec<char>| v@);
        let c = s[k];
        assert(s@.subrange(from as int, k + 1).drop_last() =~= s@.subrange(from as int, k as int));
        if c == ',' {
            r.push(Vec::new());
        } else {
            let last = r.len() - 1;
            let mut piece = r.remove(last);
            piece.push(c);
            r.push(piece);
        }
        k += 1;
        assert(r@.map_values(|v: Vec<char>| v@) =~= split_commas(s@.subrange(from as int, k as int)));
    }
    r
}

/// Splits an einsum format string into the label sequence of each operand
/// and the output label sequence. The output part may be empty.
pub fn parse_format_string(s: &str) -> (r: (Vec<Vec<char>>, Vec<char>))
    requires
        first_arrow(s@) is Some,
    ensures
        r.0@.map_values(|v: Vec<char>| v@) == parsed_format(s@).0,
        r.1@ == parsed_format(s@).1,
{
    let cs = chars_of(s);
    let i = find_arrow(&cs).unwrap();
    proof {
        lemma_first_arrow_from(s@, 0);
    }
    let inputs = split_on_commas(&cs, 0, i);
    assert(cs@.subrange(0, i as int) =~= s@.take(i as int));
    let mut out: Vec<char> = Vec::new();
    let mut k: usize = i + 2;
    while k < cs.len()
        invariant
            i + 2 <= k <= cs@.len(),
            out@ =~= cs@.subrange(i + 2, k as int),
        decreases cs.len() - k,
    {
        out.push(cs[k]);
        k += 1;
        assert(out@ =~= cs@.subrange(i + 2, k as int));
    }
    assert(out@ =~= s@.skip(i + 2));
    (inputs, out)
}

} // verus!
