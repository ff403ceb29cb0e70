use vstd::prelude::*;
use crate::consts::Num;
use crate::tools::checked_list::{CheckedListMut, ListAction, lemma_extends_refl, lemma_extends_trans, lemma_subwindow};
use crate::sorts::bubble::{compare_next, swap_next};
use crate::tools::seq_facts::{
    sorted, permutation, swapped, all_at_least, all_at_most, count_smaller, lemma_swap_permutation,
    lemma_permutation_bounds, lemma_permutation_splice, lemma_count_smaller_append,
    lemma_count_smaller_bounds, lemma_count_smaller_all, lemma_count_smaller_permutation,
};

verus! {

/// After sorting the first two thirds and then the last two thirds, the last
/// third holds values at least those before it.
proof fn lemma_stooge_middle(a: Seq<Num>, b: Seq<Num>, k: int, m: int)
    requires
        a.len() == b.len(),
        1 <= k,
        m == a.len() - k,
        k <= m - k,
        sorted(a.subrange(0, m)),
        forall|t: int| 0 <= t < k ==> #[trigger] b[t] == a[t],
        sorted(b.subrange(k, b.len() as int)),
        permutation(b.subrange(k, b.len() as int), a.subrange(k, a.len() as int)),
    ensures
        forall|i: int, j: int| 0 <= i < m <= j < b.len() ==> b[i] <= b[j],
{
    let n = a.len() as int;
    let sb = b.subrange(k, n);
    assert forall|i: int, j: int| 0 <= i < m <= j < n implies b[i] <= b[j] by {
        if i >= k {
            assert(b[i] == sb[i - k]);
            assert(b[j] == sb[j - k]);
        } else {
            let x = a[i];
            assert(b[i] == x);
            let lower = a.subrange(k, m);
            let upper = a.subrange(m, n);
            assert(all_at_least(lower, x)) by {
                assert forall|t: int| 0 <= t < lower.len() implies x <= #[trigger] lower[t] by {
                    assert(a.subrange(0, m)[i] <= a.subrange(0, m)[k + t]);
                }
            }
            assert(a.subrange(k, n) =~= lower + upper);
            lemma_count_smaller_append(x, lower, upper);
            lemma_count_smaller_bounds(x, lower);
            lemma_count_smaller_bounds(x, upper);
            lemma_count_smaller_permutation(x, sb, a.subrange(k, n));
            if sb[m - k] < x {
                let front = sb.subrange(0, m - k + 1);
                assert forall|t: int| 0 <= t < front.len() implies #[trigger] front[t] < x by {
                    assert(sb[t] <= sb[m - k]);
                }
                lemma_count_smaller_all(x, front);
                assert(sb =~= front + sb.subrange(m - k + 1, sb.len() as int));
                lemma_count_smaller_append(x, front, sb.subrange(m - k + 1, sb.len() as int));
                assert(false);
            }
            assert(sb[m - k] <= sb[j - k]);
            assert(b[j] == sb[j - k]);
        }
    }
}

/// Stooge sort on a window `s` that starts at `off`: two entries are
/// compared and swapped if out of order; a longer window has its first two
/// thirds (`n - n / 3` entries) sorted, then its last two thirds (from
/// `n / 3`), then its first two thirds again. Gives the list after it and the
/// actions it reports.
pub open spec fn stooge_run(s: Seq<Num>, off: int) -> (Seq<Num>, Seq<ListAction<Num>>)
    decreases s.len(),
{
    let n = s.len() as int;
    if n < 2 {
        (s, Seq::empty())
    } else if n == 2 {
        if s[0] > s[1] {
            (swapped(s, 0, 1), seq![compare_next(off, 0), swap_next(off, 0)])
        } else {
            (s, seq![compare_next(off, 0)])
        }
    } else {
        let third = n / 3;
        let m = n - third;
        let r1 = stooge_run(s.subrange(0, m), off);
        let s1 = r1.0 + s.subrange(m, n);
        let r2 = stooge_run(Seq::new((n - third) as nat, |k: int| s1[third + k]), off + third);
        let s2 = s1.subrange(0, third) + r2.0;
        let r3 = stooge_run(Seq::new(m as nat, |k: int| s2[k]), off);
        let s3 = r3.0 + s2.subrange(m, n);
        (s3, r1.1 + r2.1 + r3.1)
    }
}

/// Stooge sort keeps the window's length.
pub proof fn lemma_stooge_len(s: Seq<Num>, off: int)
    ensures
        stooge_run(s, off).0.len() == s.len(),
    decreases s.len(),
{
    let n = s.len() as int;
    if n > 2 {
        let third = n / 3;
        let m = n - third;
        lemma_stooge_len(s.subrange(0, m), off);
        let r1 = stooge_run(s.subrange(0, m), off);
        let s1 = r1.0 + s.subrange(m, n);
        lemma_stooge_len(Seq::new((n - third) as nat, |k: int| s1[third + k]), off + third);
        let r2 = stooge_run(Seq::new((n - third) as nat, |k: int| s1[third + k]), off + third);
        let s2 = s1.subrange(0, third) + r2.0;
        lemma_stooge_len(Seq::new(m as nat, |k: int| s2[k]), off);
    }
}

/// Stooge sort on a window of `n >= 3` entries works on thirds of `t`
/// entries, `n` divided by three and rounded down (`3 * t <= n < 3 * t + 3`):
/// it sorts the first `n - t` entries, then the last `n - t` (a window that
/// starts `t` places on) of the list that left, then the first `n - t`
/// again; its actions are those of the three sorts in that order, and the
/// list it leaves is what the third sort left.
pub proof fn lemma_stooge_thirds(s: Seq<Num>, off: int, t: int)
    requires
        s.len() >= 3,
        3 * t <= s.len() < 3 * t + 3,
    ensures
        ({
            let n = s.len() as int;
            let m = n - t;
            let r1 = stooge_run(s.subrange(0, m), off);
            let s1 = r1.0 + s.subrange(m, n);
            let r2 = stooge_run(s1.subrange(t, n), off + t);
            let s2 = s1.subrange(0, t) + r2.0;
            let r3 = stooge_run(s2.subrange(0, m), off);
            &&& stooge_run(s, off).1 == r1.1 + r2.1 + r3.1
            &&& stooge_run(s, off).0 == r3.0 + s2.subrange(m, n)
        }),
{
    let n = s.len() as int;
    assert(t == n / 3);
    let m = n - t;
    let r1 = stooge_run(s.subrange(0, m), off);
    lemma_stooge_len(s.subrange(0, m), off);
    let s1 = r1.0 + s.subrange(m, n);
    assert(Seq::new((n - t) as nat, |k: int| s1[t + k]) =~= s1.subrange(t, n));
    let r2 = stooge_run(s1.subrange(t, n), off + t);
    lemma_stooge_len(s1.subrange(t, n), off + t);
    let s2 = s1.subrange(0, t) + r2.0;
    assert(Seq::new(m as nat, |k: int| s2[k]) =~= s2.subrange(0, m));
}

/// Stooge sort: sort the first two thirds, the last two thirds, and the
/// first two thirds again.
#[verifier::rlimit(100)]
#[verifier::spinoff_prover]
pub fn stooge_sort(list: &mut CheckedListMut)
    requires
        old(list).wf(),
    ensures
        final(list).wf(),
        final(list).extends(old(list)),
        sorted(final(list)@),
        permutation(final(list)@, old(list)@),
        final(list)@ == stooge_run(old(list)@, old(list).lo() as int).0,
        final(list).trace() == old(list).trace() + stooge_run(old(list)@, old(list).lo() as int).1,
    decreases old(list)@.len(),
{
    let len = list.len();
    let ghost off = old(list).lo() as int;
    proof {
        lemma_extends_refl(list);
    }
    if len < 2 {
        proof {
            assert(list.trace() =~= old(list).trace() + Seq::<ListAction<Num>>::empty());
        }
        return;
    }
    if len == 2 {
        let ghost b0 = *list;
        let o = list.compare(0, 1);
        proof {
            lemma_extends_trans(list, &b0, old(list));
        }
        if o.is_gt() {
            let ghost b1 = *list;
            list.swap(0, 1);
            proof {
                lemma_extends_trans(list, &b1, old(list));
                lemma_swap_permutation(b1@, 0, 1);
                assert(list.trace() =~= old(list).trace() + seq![compare_next(off, 0), swap_next(off, 0)]);
            }
        } else {
            proof {
                assert(list.trace() =~= old(list).trace() + seq![compare_next(off, 0)]);
            }
        }
        return;
    }
    let third = len / 3;
    let m = len - third;
    // the first two thirds
    let ghost s0 = list@;
    let ghost p0 = *list;
    let prev = list.slice(0, m);
    let ghost sb = *list;
    stooge_sort(list);
    let ghost sa = *list;
    list.restore(prev);
    proof {
        lemma_subwindow(&p0, &sb, &sa, list, 0, m as int);
        lemma_extends_trans(list, &p0, old(list));
        assert(sb@ =~= s0.subrange(0, m as int));
        lemma_permutation_splice(s0, sa@, 0, m as int);
        assert(s0.subrange(0, 0) + sa@ + s0.subrange(m as int, len as int) =~= list@);
        assert(list@ =~= sa@ + s0.subrange(m as int, len as int));
    }
    let ghost s1 = list@;
    let ghost p1 = *list;
    // the last two thirds
    let prev = list.slice(third, len);
    let ghost sb2 = *list;
    stooge_sort(list);
    let ghost sa2 = *list;
    list.restore(prev);
    proof {
        lemma_subwindow(&p1, &sb2, &sa2, list, third as int, len as int);
        lemma_extends_trans(list, &p1, old(list));
        assert(sb2@ =~= s1.subrange(third as int, len as int));
        assert(sb2@ =~= Seq::new((len - third) as nat, |k: int| s1[third + k]));
        lemma_permutation_splice(s1, sa2@, third as int, len as int);
        assert(s1.subrange(0, third as int) + sa2@ + s1.subrange(len as int, len as int) =~= list@);
        assert(list@ =~= s1.subrange(0, third as int) + sa2@);
        let s2 = list@;
        assert(s1.subrange(0, m as int) =~= sa@);
        assert forall|t: int| 0 <= t < third implies #[trigger] s2[t] == s1[t] by {
            assert(s2[t] == s1.subrange(0, third as int)[t]);
        }
        assert(s2.subrange(third as int, len as int) =~= sa2@);
        lemma_stooge_middle(s1, s2, third as int, m as int);
    }
    let ghost s2 = list@;
    let ghost p2 = *list;
    // the first two thirds again
    let prev = list.slice(0, m);
    let ghost sb3 = *list;
    stooge_sort(list);
    let ghost sa3 = *list;
    list.restore(prev);
    proof {
        lemma_subwindow(&p2, &sb3, &sa3, list, 0, m as int);
        lemma_extends_trans(list, &p2, old(list));
        assert(sb3@ =~= s2.subrange(0, m as int));
        assert(sb3@ =~= Seq::new(m as nat, |k: int| s2[k]));
        lemma_permutation_splice(s2, sa3@, 0, m as int);
        assert(s2.subrange(0, 0) + sa3@ + s2.subrange(m as int, len as int) =~= list@);
        assert(list@ =~= sa3@ + s2.subrange(m as int, len as int));
        let r1 = stooge_run(sb@, off);
        let r2 = stooge_run(sb2@, off + third);
        let r3 = stooge_run(sb3@, off);
        assert(list.trace() =~= old(list).trace() + (r1.1 + r2.1 + r3.1));
        let s3 = list@;
        assert forall|i: int, j: int| 0 <= i <= j < len implies s3[i] <= s3[j] by {
            if j < m {
                assert(s3[i] == sa3@[i]);
                assert(s3[j] == sa3@[j]);
            } else if i >= m {
                assert(s3[i] == s2[i]);
                assert(s3[j] == s2[j]);
                assert(s2[i] == sa2@[i - third]);
                assert(s2[j] == sa2@[j - third]);
            } else {
                let y = s2[j];
                assert(all_at_most(sb3@, y)) by {
                    assert forall|t: int| 0 <= t < sb3@.len() implies #[trigger] sb3@[t] <= y by {
                        assert(sb3@[t] == s2[t]);
                    }
                }
                lemma_permutation_bounds(sb3@, sa3@, y);
                assert(s3[i] == sa3@[i]);
                assert(s3[j] == y);
            }
        }
    }
}

} // verus!
