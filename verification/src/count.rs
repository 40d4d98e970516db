//! Counting facts: how many pairwise distinct values can a bounded range hold.
use vstd::prelude::*;
use vstd::arithmetic::power2::{pow2, lemma_pow2_pos, lemma_pow2_unfold, lemma_pow2_strictly_increases};
use vstd::set_lib::{set_int_range, lemma_int_range, lemma_len_subset};

verus! {

/// `s` is sorted in strictly increasing order (so it holds no value twice).
pub open spec fn strictly_increasing(s: Seq<usize>) -> bool {
    forall|i: int, j: int| 0 <= i < j < s.len() ==> s[i] < s[j]
}

/// Every value of `s` is below `n`.
pub open spec fn all_below(s: Seq<usize>, n: int) -> bool {
    forall|i: int| 0 <= i < s.len() ==> s[i] < n
}

/// The binary code of a set of small numbers: the sum of `2^x` over its members.
pub open spec fn subset_code(s: Seq<usize>) -> int
    decreases s.len(),
{
    if s.len() == 0 {
        0
    } else {
        subset_code(s.drop_last()) + pow2(s.last() as nat)
    }
}

proof fn lemma_code_nonneg(s: Seq<usize>)
    ensures
        subset_code(s) >= 0,
        s.len() > 0 ==> subset_code(s) > 0,
    decreases s.len(),
{
    if s.len() > 0 {
        lemma_code_nonneg(s.drop_last());
        lemma_pow2_pos(s.last() as nat);
    }
}

proof fn lemma_code_below_last(s: Seq<usize>)
    requires
        s.len() > 0,
        strictly_increasing(s),
    ensures
        subset_code(s) < pow2((s.last() + 1) as nat),
    decreases s.len(),
{
    let d = s.drop_last();
    lemma_pow2_unfold((s.last() + 1) as nat);
    assert(subset_code(s) == subset_code(d) + pow2(s.last() as nat));
    if d.len() == 0 {
        lemma_pow2_pos(s.last() as nat);
        assert(subset_code(d) == 0);
    } else {
        assert(strictly_increasing(d));
        lemma_code_below_last(d);
        assert(d.last() < s.last());
        if d.last() + 1 < s.last() {
            lemma_pow2_strictly_increases((d.last() + 1) as nat, s.last() as nat);
        }
        assert(subset_code(d) < pow2(s.last() as nat));
    }
}

proof fn lemma_code_bounded(s: Seq<usize>, n: nat)
    requires
        strictly_increasing(s),
        all_below(s, n as int),
    ensures
        0 <= subset_code(s) < pow2(n),
{
    lemma_code_nonneg(s);
    lemma_pow2_pos(n);
    if s.len() > 0 {
        lemma_code_below_last(s);
        if s.last() + 1 < n {
            lemma_pow2_strictly_increases((s.last() + 1) as nat, n);
        }
    }
}

proof fn lemma_code_injective(a: Seq<usize>, b: Seq<usize>)
    requires
        strictly_increasing(a),
        strictly_increasing(b),
        subset_code(a) == subset_code(b),
    ensures
        a == b,
    decreases a.len() + b.len(),
{
    lemma_code_nonneg(a);
    lemma_code_nonneg(b);
    if a.len() == 0 && b.len() == 0 {
        assert(a =~= b);
    } else if a.len() > 0 && b.len() > 0 {
        let la = a.last();
        let lb = b.last();
        lemma_code_nonneg(a.drop_last());
        lemma_code_nonneg(b.drop_last());
        if la < lb {
            lemma_code_below_last(a);
            if la + 1 < lb {
                lemma_pow2_strictly_increases((la + 1) as nat, lb as nat);
            }
            assert(false);
        } else if lb < la {
            lemma_code_below_last(b);
            if lb + 1 < la {
                lemma_pow2_strictly_increases((lb + 1) as nat, la as nat);
            }
            assert(false);
        }
        assert(strictly_increasing(a.drop_last()));
        assert(strictly_increasing(b.drop_last()));
        lemma_code_injective(a.drop_last(), b.drop_last());
        assert(a =~= a.drop_last().push(la));
        assert(b =~= b.drop_last().push(lb));
    }
}

/// A sequence of pairwise distinct integers from `[lo, hi)` has at most `hi - lo` members.
pub proof fn lemma_distinct_ints_bounded(s: Seq<int>, lo: int, hi: int)
    requires
        lo <= hi,
        s.no_duplicates(),
        forall|i: int| 0 <= i < s.len() ==> lo <= #[trigger] s[i] < hi,
    ensures
        s.len() <= hi - lo,
{
    s.unique_seq_to_set();
    lemma_int_range(lo, hi);
    assert(s.to_set().subset_of(set_int_range(lo, hi)));
    lemma_len_subset(s.to_set(), set_int_range(lo, hi));
}

/// Pairwise distinct sorted sequences of numbers below `n` number at most `2^n`.
pub proof fn lemma_distinct_subsets_bounded(labels: Seq<Seq<usize>>, n: nat)
    requires
        forall|i: int| 0 <= i < labels.len() ==> strictly_increasing(#[trigger] labels[i]),
        forall|i: int| 0 <= i < labels.len() ==> all_below(#[trigger] labels[i], n as int),
        forall|i: int, j: int| 0 <= i < j < labels.len() ==> labels[i] != labels[j],
    ensures
        labels.len() <= pow2(n),
        (forall|i: int| 0 <= i < labels.len() ==> #[trigger] labels[i].len() > 0) ==> labels.len() <= pow2(n) - 1,
{
    let codes = labels.map_values(|l: Seq<usize>| subset_code(l));
    assert forall|i: int| 0 <= i < codes.len() implies 0 <= #[trigger] codes[i] < pow2(n) by {
        lemma_code_bounded(labels[i], n);
    }
    assert forall|i: int, j: int| 0 <= i < codes.len() && 0 <= j < codes.len() && i != j
        implies codes[i] != codes[j] by {
        if codes[i] == codes[j] {
            lemma_code_injective(labels[i], labels[j]);
            if i < j {
                assert(labels[i] != labels[j]);
            } else {
                assert(labels[j] != labels[i]);
            }
        }
    }
    lemma_distinct_ints_bounded(codes, 0, pow2(n) as int);
    if forall|i: int| 0 <= i < labels.len() ==> #[trigger] labels[i].len() > 0 {
        assert forall|i: int| 0 <= i < codes.len() implies 1 <= #[trigger] codes[i] < pow2(n) by {
            assert(labels[i].len() > 0);
            lemma_code_nonneg(labels[i]);
        }
        lemma_pow2_pos(n);
        lemma_distinct_ints_bounded(codes, 1, pow2(n) as int);
    }
}

/// Two sorted sequences holding the same values are equal.
pub proof fn lemma_sorted_same_set(a: Seq<usize>, b: Seq<usize>)
    requires
        strictly_increasing(a),
        strictly_increasing(b),
        a.to_set() == b.to_set(),
    ensures
        a == b,
    decreases a.len(),
{
    if a.len() == 0 {
        if b.len() > 0 {
            assert(b.to_set().contains(b[0]));
        }
        assert(a =~= b);
    } else {
        assert(a.to_set().contains(a.last()));
        assert(b.contains(a.last()));
        let lb = b.last();
        assert(b.len() > 0);
        assert(b.to_set().contains(lb));
        assert(a.contains(lb));
        let ia = choose|i: int| 0 <= i < a.len() && a[i] == lb;
        let ib = choose|i: int| 0 <= i < b.len() && b[i] == a.last();
        assert(lb <= a.last());
        assert(a.last() <= lb);
        let da = a.drop_last();
        let db = b.drop_last();
        assert(strictly_increasing(da));
        assert(strictly_increasing(db));
        assert forall|x: usize| da.to_set().contains(x) <==> db.to_set().contains(x) by {
            if da.contains(x) {
                let i = choose|i: int| 0 <= i < da.len() && da[i] == x;
                assert(a[i] == x);
                assert(a.contains(x));
                assert(a.to_set().contains(x));
                assert(b.to_set().contains(x));
                let j = choose|j: int| 0 <= j < b.len() && b[j] == x;
                assert(x < a.last());
                assert(j != b.len() - 1);
                assert(db[j] == x);
            }
            if db.contains(x) {
                let i = choose|i: int| 0 <= i < db.len() && db[i] == x;
                assert(b[i] == x);
                assert(b.contains(x));
                assert(b.to_set().contains(x));
                assert(a.to_set().contains(x));
                let j = choose|j: int| 0 <= j < a.len() && a[j] == x;
                assert(x < lb);
                assert(j != a.len() - 1);
                assert(da[j] == x);
            }
        }
        assert(da.to_set() =~= db.to_set());
        lemma_sorted_same_set(da, db);
        assert(a =~= da.push(a.last()));
        assert(b =~= db.push(lb));
    }
}

} // verus!
