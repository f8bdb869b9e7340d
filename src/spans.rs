use vstd::prelude::*;

verus! {

/// A crossing abscissa, the fraction `f.0 / f.1` with `f.1 > 0`.
pub type Frac = (i128, i128);

pub open spec fn frac_le(a: Frac, b: Frac) -> bool {
    a.0 * b.1 <= b.0 * a.1
}

/// The fraction lies strictly left of column `x`.
pub open spec fn below(f: Frac, x: int) -> bool {
    f.0 < x * f.1
}

/// The fraction equals column `x`.
pub open spec fn at(f: Frac, x: int) -> bool {
    f.0 == x * f.1
}

/// Positive, bounded denominators and bounded numerators.
pub open spec fn fracs_ok(s: Seq<Frac>) -> bool {
    forall|i: int|
        0 <= i < s.len() ==> 0 < #[trigger] s[i].1 <= 0x1_0000_0000 && -0x4_0000_0000_0000_0000
            <= s[i].0 <= 0x4_0000_0000_0000_0000
}

pub open spec fn sorted(s: Seq<Frac>) -> bool {
    forall|i: int, j: int| 0 <= i < j < s.len() ==> frac_le(#[trigger] s[i], #[trigger] s[j])
}

pub open spec fn count_below(s: Seq<Frac>, x: int) -> nat
    decreases s.len(),
{
    if s.len() == 0 {
        0
    } else {
        count_below(s.drop_last(), x) + if below(s.last(), x) {
            1nat
        } else {
            0nat
        }
    }
}

pub open spec fn count_at(s: Seq<Frac>, x: int) -> nat
    decreases s.len(),
{
    if s.len() == 0 {
        0
    } else {
        count_at(s.drop_last(), x) + if at(s.last(), x) {
            1nat
        } else {
            0nat
        }
    }
}

/// Column `x` lies in the closed span from crossing `2j` to crossing `2j + 1`.
pub open spec fn in_span(s: Seq<Frac>, x: int, j: int) -> bool {
    0 <= j && 2 * j + 1 < s.len() && s[2 * j].0 <= x * s[2 * j].1 && s[2 * j + 1].0 >= x * s[2
        * j + 1].1
}

/// Column `x` lies in one of the first `m` spans.
pub open spec fn in_first_spans(s: Seq<Frac>, x: int, m: nat) -> bool
    decreases m,
{
    if m == 0 {
        false
    } else {
        in_first_spans(s, x, (m - 1) as nat) || in_span(s, x, m - 1)
    }
}

pub proof fn lemma_push_counts(s: Seq<Frac>, f: Frac, x: int)
    ensures
        count_below(s.push(f), x) == count_below(s, x) + if below(f, x) { 1nat } else { 0nat },
        count_at(s.push(f), x) == count_at(s, x) + if at(f, x) { 1nat } else { 0nat },
{
    assert(s.push(f).drop_last() =~= s);
}

proof fn lemma_counts_concat(a: Seq<Frac>, b: Seq<Frac>, x: int)
    ensures
        count_below(a + b, x) == count_below(a, x) + count_below(b, x),
        count_at(a + b, x) == count_at(a, x) + count_at(b, x),
    decreases b.len(),
{
    if b.len() == 0 {
        assert(a + b =~= a);
    } else {
        lemma_counts_concat(a, b.drop_last(), x);
        assert((a + b).drop_last() =~= a + b.drop_last());
    }
}

/// Exchanging two neighbours keeps both counts.
pub proof fn lemma_swap_counts(s: Seq<Frac>, j: int, x: int)
    requires
        0 <= j,
        j + 1 < s.len(),
    ensures
        count_below(s.update(j, s[j + 1]).update(j + 1, s[j]), x) == count_below(s, x),
        count_at(s.update(j, s[j + 1]).update(j + 1, s[j]), x) == count_at(s, x),
{
    let t = s.update(j, s[j + 1]).update(j + 1, s[j]);
    let pre = s.subrange(0, j);
    let post = s.subrange(j + 2, s.len() as int);
    let e = Seq::<Frac>::empty();
    let p = e.push(s[j]).push(s[j + 1]);
    let q = e.push(s[j + 1]).push(s[j]);
    assert(s =~= pre + p + post);
    assert(t =~= pre + q + post);
    lemma_counts_concat(pre + p, post, x);
    lemma_counts_concat(pre, p, x);
    lemma_counts_concat(pre + q, post, x);
    lemma_counts_concat(pre, q, x);
    lemma_push_counts(e, s[j], x);
    lemma_push_counts(e.push(s[j]), s[j + 1], x);
    lemma_push_counts(e, s[j + 1], x);
    lemma_push_counts(e.push(s[j + 1]), s[j], x);
}

proof fn lemma_count_bound(s: Seq<Frac>, x: int)
    ensures
        count_below(s, x) <= s.len(),
    decreases s.len(),
{
    if s.len() > 0 {
        lemma_count_bound(s.drop_last(), x);
    }
}

proof fn lemma_below_trans(a: Frac, b: Frac, x: int)
    requires
        a.1 > 0,
        b.1 > 0,
        frac_le(a, b),
        below(b, x),
    ensures
        below(a, x),
{
    assert(a.0 * b.1 < x * a.1 * b.1) by (nonlinear_arith)
        requires
            a.0 * b.1 <= b.0 * a.1,
            b.0 < x * b.1,
            a.1 > 0,
    ;
    assert(a.0 < x * a.1) by (nonlinear_arith)
        requires
            a.0 * b.1 < x * a.1 * b.1,
            b.1 > 0,
    ;
}

proof fn lemma_le_at(a: Frac, b: Frac, x: int)
    requires
        a.1 > 0,
        b.1 > 0,
        frac_le(a, b),
        at(b, x),
    ensures
        a.0 <= x * a.1,
{
    assert(a.0 * b.1 <= x * a.1 * b.1) by (nonlinear_arith)
        requires
            a.0 * b.1 <= b.0 * a.1,
            b.0 == x * b.1,
            a.1 > 0,
    ;
    assert(a.0 <= x * a.1) by (nonlinear_arith)
        requires
            a.0 * b.1 <= x * a.1 * b.1,
            b.1 > 0,
    ;
}

pub proof fn lemma_frac_trans(a: Frac, b: Frac, c: Frac)
    requires
        a.1 > 0,
        b.1 > 0,
        c.1 > 0,
        frac_le(a, b),
        frac_le(b, c),
    ensures
        frac_le(a, c),
{
    assert(a.0 * b.1 * c.1 <= b.0 * a.1 * c.1) by (nonlinear_arith)
        requires
            a.0 * b.1 <= b.0 * a.1,
            c.1 > 0,
    ;
    assert(b.0 * c.1 * a.1 <= c.0 * b.1 * a.1) by (nonlinear_arith)
        requires
            b.0 * c.1 <= c.0 * b.1,
            a.1 > 0,
    ;
    assert(a.0 * c.1 <= c.0 * a.1) by (nonlinear_arith)
        requires
            a.0 * b.1 * c.1 <= b.0 * a.1 * c.1,
            b.0 * c.1 * a.1 <= c.0 * b.1 * a.1,
            b.1 > 0,
    ;
}

/// In a sorted sequence the crossings left of `x` form a prefix.
proof fn lemma_below_prefix(s: Seq<Frac>, x: int)
    requires
        fracs_ok(s),
        sorted(s),
    ensures
        forall|i: int| 0 <= i < s.len() ==> (below(#[trigger] s[i], x) <==> i < count_below(s, x)),
    decreases s.len(),
{
    if s.len() > 0 {
        let t = s.drop_last();
        assert(fracs_ok(t));
        assert(sorted(t));
        lemma_below_prefix(t, x);
        lemma_count_bound(t, x);
        let n = s.len() - 1;
        if below(s.last(), x) {
            assert forall|i: int| 0 <= i < n implies below(#[trigger] s[i], x) by {
                lemma_below_trans(s[i], s[n], x);
            }
            assert forall|i: int| 0 <= i < n implies below(#[trigger] t[i], x) by {
                assert(t[i] == s[i]);
                assert(below(s[i], x));
            }
            if count_below(t, x) < n {
                let i = count_below(t, x) as int;
                assert(t[i] == s[i]);
            }
        } else {
            assert forall|i: int| 0 <= i < n implies (below(#[trigger] s[i], x) <==> i
                < count_below(s, x)) by {
                assert(t[i] == s[i]);
            }
        }
    }
}

proof fn lemma_find_at(s: Seq<Frac>, x: int) -> (i: int)
    requires
        count_at(s, x) > 0,
    ensures
        0 <= i < s.len(),
        at(s[i], x),
    decreases s.len(),
{
    if at(s.last(), x) {
        s.len() - 1
    } else {
        let i = lemma_find_at(s.drop_last(), x);
        assert(s.drop_last()[i] == s[i]);
        i
    }
}

proof fn lemma_at_counts(s: Seq<Frac>, x: int, i: int)
    requires
        0 <= i < s.len(),
        at(s[i], x),
    ensures
        count_at(s, x) > 0,
    decreases s.len(),
{
    if i < s.len() - 1 {
        assert(s.drop_last()[i] == s[i]);
        lemma_at_counts(s.drop_last(), x, i);
    }
}

/// A span of a sorted, even-length sequence holds exactly the columns with
/// an odd number of crossings strictly left of them or a crossing on them.
proof fn lemma_span_counts(s: Seq<Frac>, x: int, j: int)
    requires
        fracs_ok(s),
        sorted(s),
        s.len() % 2 == 0,
        in_span(s, x, j),
    ensures
        count_below(s, x) % 2 == 1 || count_at(s, x) > 0,
{
    lemma_below_prefix(s, x);
    if below(s[2 * j], x) {
        assert(!below(s[2 * j + 1], x));
    } else {
        lemma_at_counts(s, x, 2 * j);
    }
}

proof fn lemma_counts_span(s: Seq<Frac>, x: int) -> (j: int)
    requires
        fracs_ok(s),
        sorted(s),
        s.len() % 2 == 0,
        count_below(s, x) % 2 == 1 || count_at(s, x) > 0,
    ensures
        0 <= j < s.len() / 2,
        in_span(s, x, j),
{
    lemma_below_prefix(s, x);
    lemma_count_bound(s, x);
    let c = count_below(s, x) as int;
    if c % 2 == 1 {
        let j = (c - 1) / 2;
        assert(2 * j == c - 1);
        assert(below(s[c - 1], x));
        assert(!below(s[c], x));
        j
    } else {
        let i = lemma_find_at(s, x);
        assert(!below(s[i], x));
        assert(c <= i);
        if c < i {
            lemma_le_at(s[c], s[i], x);
        }
        assert(!below(s[c + 1], x));
        c / 2
    }
}

proof fn lemma_first_spans_counts(s: Seq<Frac>, x: int, m: nat)
    requires
        fracs_ok(s),
        sorted(s),
        s.len() % 2 == 0,
        in_first_spans(s, x, m),
    ensures
        count_below(s, x) % 2 == 1 || count_at(s, x) > 0,
    decreases m,
{
    if in_span(s, x, m - 1) {
        lemma_span_counts(s, x, m - 1);
    } else {
        lemma_first_spans_counts(s, x, (m - 1) as nat);
    }
}

proof fn lemma_span_in_first(s: Seq<Frac>, x: int, j: int, m: nat)
    requires
        0 <= j < m,
        in_span(s, x, j),
    ensures
        in_first_spans(s, x, m),
    decreases m,
{
    if j < m - 1 {
        lemma_span_in_first(s, x, j, (m - 1) as nat);
    }
}

/// For a sorted, even-length sequence of crossings, the union of the spans
/// is exactly the set of columns with an odd count of crossings strictly
/// left of them or a crossing on them.
pub proof fn lemma_spans_are_even_odd(s: Seq<Frac>, x: int)
    requires
        fracs_ok(s),
        sorted(s),
        s.len() % 2 == 0,
    ensures
        in_first_spans(s, x, s.len() / 2) <==> (count_below(s, x) % 2 == 1 || count_at(s, x) > 0),
{
    if in_first_spans(s, x, s.len() / 2) {
        lemma_first_spans_counts(s, x, s.len() / 2);
    }
    if count_below(s, x) % 2 == 1 || count_at(s, x) > 0 {
        let j = lemma_counts_span(s, x);
        lemma_span_in_first(s, x, j, s.len() / 2);
    }
}

/// Sorts crossings in ascending order of value, by insertion.
pub fn sort_crossings(v: &mut Vec<Frac>)
    requires
        fracs_ok(old(v)@),
    ensures
        final(v)@.len() == old(v)@.len(),
        fracs_ok(final(v)@),
        sorted(final(v)@),
        forall|x: int|
            count_below(final(v)@, x) == count_below(old(v)@, x) && count_at(final(v)@, x)
                == count_at(old(v)@, x),
{
    let n = v.len();
    if n < 2 {
        return;
    }
    let ghost orig = v@;
    let mut i: usize = 1;
    while i < n
        invariant
            n == v@.len(),
            1 <= i <= n,
            fracs_ok(v@),
            forall|a: int, b: int| 0 <= a < b < i ==> frac_le(#[trigger] v@[a], #[trigger] v@[b]),
            forall|x: int|
                count_below(v@, x) == count_below(orig, x) && count_at(v@, x) == count_at(orig, x),
        decreases n - i,
    {
        let mut j: usize = i;
        loop
            invariant
                n == v@.len(),
                0 <= j <= i < n,
                fracs_ok(v@),
                forall|a: int, b: int|
                    0 <= a < b <= i && a != j && b != j ==> frac_le(#[trigger] v@[a], #[trigger] v@[b]),
                forall|b: int| j < b <= i ==> frac_le(v@[j as int], #[trigger] v@[b]),
                forall|x: int|
                    count_below(v@, x) == count_below(orig, x) && count_at(v@, x) == count_at(orig, x),
            ensures
                j == 0 || frac_le(v@[j - 1], v@[j as int]),
            decreases j,
        {
            if j == 0 {
                break;
            }
            let p = v[j - 1];
            let e = v[j];
            assert(v@[j - 1].1 > 0 && v@[j as int].1 > 0);
            assert(-0x4_0000_0000_0000_0000_0000_0000 <= p.0 * e.1 <= 0x4_0000_0000_0000_0000_0000_0000) by (nonlinear_arith)
                requires
                    -0x4_0000_0000_0000_0000 <= p.0 <= 0x4_0000_0000_0000_0000,
                    0 < e.1 <= 0x1_0000_0000,
            ;
            assert(-0x4_0000_0000_0000_0000_0000_0000 <= e.0 * p.1 <= 0x4_0000_0000_0000_0000_0000_0000) by (nonlinear_arith)
                requires
                    -0x4_0000_0000_0000_0000 <= e.0 <= 0x4_0000_0000_0000_0000,
                    0 < p.1 <= 0x1_0000_0000,
            ;
            if p.0 * e.1 <= e.0 * p.1 {
                break;
            }
            let ghost before = v@;
            v.set(j - 1, e);
            v.set(j, p);
            proof {
                assert(v@ == before.update(j - 1, before[j as int]).update(j as int, before[j - 1]));
                assert forall|x: int|
                    count_below(v@, x) == count_below(orig, x) && count_at(v@, x) == count_at(
                        orig,
                        x,
                    ) by {
                    lemma_swap_counts(before, j - 1, x);
                }
                assert(frac_le(e, p));
            }
            j -= 1;
        }
        proof {
            assert forall|a: int, b: int| 0 <= a < b <= i implies frac_le(
                #[trigger] v@[a],
                #[trigger] v@[b],
            ) by {
                if b == j && a < j - 1 {
                    lemma_frac_trans(v@[a], v@[j - 1], v@[b]);
                }
            }
        }
        i += 1;
    }
}

} // verus!
