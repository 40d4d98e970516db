//! Small vector builders used by the automata constructions.
use vstd::prelude::*;

use crate::count::strictly_increasing;

verus! {

/// A vector of `n` copies of `false`.
pub(crate) fn all_false(n: usize) -> (v: Vec<bool>)
    ensures
        v@.len() == n,
        forall|i: int| 0 <= i < n ==> !#[trigger] v@[i],
{
    let mut v: Vec<bool> = Vec::new();
    let mut i: usize = 0;
    while i < n
        invariant
            i <= n,
            v@.len() == i,
            forall|j: int| 0 <= j < i ==> !#[trigger] v@[j],
        decreases n - i,
    {
        v.push(false);
        i = i + 1;
    }
    v
}

/// A copy of a list of states.
pub(crate) fn copy_states(v: &Vec<usize>) -> (r: Vec<usize>)
    ensures
        r@ == v@,
{
    let mut r: Vec<usize> = Vec::new();
    let mut i: usize = 0;
    while i < v.len()
        invariant
            i <= v@.len(),
            r@ == v@.take(i as int),
        decreases v@.len() - i,
    {
        r.push(v[i]);
        assert(r@ =~= v@.take(i + 1));
        i = i + 1;
    }
    assert(v@.take(v@.len() as int) =~= v@);
    r
}

/// Insert `x` into a strictly increasing list, keeping it strictly increasing (nothing is
/// inserted when `x` is already there).
pub(crate) fn insert_sorted(r: &mut Vec<usize>, x: usize)
    requires
        strictly_increasing(old(r)@),
    ensures
        strictly_increasing(final(r)@),
        forall|t: usize| #[trigger] final(r)@.contains(t) <==> (old(r)@.contains(t) || t == x),
{
    let mut k: usize = 0;
    while k < r.len() && r[k] < x
        invariant
            r@ == old(r)@,
            strictly_increasing(r@),
            k <= r@.len(),
            forall|j: int| 0 <= j < k ==> r@[j] < x,
        decreases r@.len() - k,
    {
        k = k + 1;
    }
    if k < r.len() && r[k] == x {
        return;
    }
    let ghost before = r@;
    r.insert(k, x);
    proof {
        assert(r@ == before.insert(k as int, x));
        assert forall|i: int, j: int| 0 <= i < j < r@.len() implies r@[i] < r@[j] by {
            if j < k {
                assert(r@[i] == before[i] && r@[j] == before[j]);
            } else if j == k {
                assert(r@[i] == before[i]);
            } else if i < k {
                assert(r@[i] == before[i] && r@[j] == before[j - 1]);
                if k < before.len() {
                    assert(before[k as int] > x);
                    if j - 1 > k {
                        assert(before[k as int] < before[j - 1]);
                    }
                }
            } else if i == k {
                assert(r@[j] == before[j - 1]);
                assert(before[k as int] > x);
                if j - 1 > k {
                    assert(before[k as int] < before[j - 1]);
                }
            } else {
                assert(r@[i] == before[i - 1] && r@[j] == before[j - 1]);
            }
        }
        assert forall|t: usize| #[trigger] r@.contains(t) <==> (before.contains(t) || t == x) by {
            if r@.contains(t) {
                let i = choose|i: int| 0 <= i < r@.len() && r@[i] == t;
                if i < k {
                    assert(before[i] == t);
                } else if i > k {
                    assert(before[i - 1] == t);
                }
            }
            if before.contains(t) {
                let i = choose|i: int| 0 <= i < before.len() && before[i] == t;
                if i < k {
                    assert(r@[i] == t);
                } else {
                    assert(r@[i + 1] == t);
                }
            }
            if t == x {
                assert(r@[k as int] == x);
            }
        }
    }
}

} // verus!
