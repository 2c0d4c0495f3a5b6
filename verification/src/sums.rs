//! Sums of natural numbers over sequences, and bounds on sums over
//! selections of positions.

use vstd::prelude::*;

verus! {

/// Sum of a sequence of naturals.
pub open spec fn sum_of(s: Seq<nat>) -> nat
    decreases s.len(),
{
    if s.len() == 0 {
        0
    } else {
        sum_of(s.drop_last()) + s.last()
    }
}

/// The weights at the given positions.
pub open spec fn picked(w: Seq<nat>, ps: Seq<int>) -> Seq<nat> {
    ps.map_values(|p: int| w[p])
}

/// Taking one weight out lowers the sum by that weight.
pub proof fn lemma_sum_remove(s: Seq<nat>, t: int)
    requires
        0 <= t < s.len(),
    ensures
        sum_of(s) == sum_of(s.remove(t)) + s[t],
    decreases s.len(),
{
    if t == s.len() - 1 {
        assert(s.remove(t) == s.drop_last());
    } else {
        lemma_sum_remove(s.drop_last(), t);
        assert(s.remove(t).drop_last() == s.drop_last().remove(t));
        assert(s.remove(t).last() == s.last());
    }
}

/// The weights at distinct positions add up to no more than all weights.
pub proof fn lemma_picked_sum(w: Seq<nat>, ps: Seq<int>)
    requires
        ps.no_duplicates(),
        forall|i: int| 0 <= i < ps.len() ==> 0 <= #[trigger] ps[i] < w.len(),
    ensures
        sum_of(picked(w, ps)) <= sum_of(w),
    decreases w.len(),
{
    if w.len() == 0 {
        if ps.len() > 0 {
            assert(0 <= ps[0] < w.len());
        }
        assert(picked(w, ps) =~= Seq::<nat>::empty());
    } else {
        let last = w.len() - 1;
        let w2 = w.drop_last();
        if ps.contains(last) {
            let t = choose|t: int| 0 <= t < ps.len() && ps[t] == last;
            let ps2 = ps.remove(t);
            assert forall|i: int| 0 <= i < ps2.len() implies 0 <= #[trigger] ps2[i] < w2.len() by {
                if i < t {
                    assert(ps2[i] == ps[i]);
                } else {
                    assert(ps2[i] == ps[i + 1]);
                }
            }
            assert(ps2.no_duplicates()) by {
                assert forall|i: int, j: int| 0 <= i < ps2.len() && 0 <= j < ps2.len() && i != j implies ps2[i] != ps2[j] by {
                    let a = if i < t { i } else { i + 1 };
                    let b = if j < t { j } else { j + 1 };
                    assert(ps2[i] == ps[a] && ps2[j] == ps[b]);
                }
            }
            lemma_picked_sum(w2, ps2);
            lemma_sum_remove(picked(w, ps), t);
            assert(picked(w, ps).remove(t) =~= picked(w2, ps2));
        } else {
            assert forall|i: int| 0 <= i < ps.len() implies 0 <= #[trigger] ps[i] < w2.len() by {
                assert(ps[i] != last);
            }
            lemma_picked_sum(w2, ps);
            assert(picked(w, ps) =~= picked(w2, ps));
        }
    }
}

/// A sum of equal weights is the weight times their number.
pub proof fn lemma_sum_constant(s: Seq<nat>, c: nat)
    requires
        forall|i: int| 0 <= i < s.len() ==> #[trigger] s[i] == c,
    ensures
        sum_of(s) == c * s.len(),
    decreases s.len(),
{
    if s.len() > 0 {
        lemma_sum_constant(s.drop_last(), c);
        assert(c * s.len() == c * (s.len() - 1) + c) by (nonlinear_arith)
            requires
                s.len() > 0,
        ;
    }
}

} // verus!
