use vstd::prelude::*;
use crate::consts::Num;
use crate::tools::checked_list::{CheckedListMut, ListAction, lemma_extends_refl, lemma_extends_trans};
use crate::tools::seq_facts::{sorted, permutation, swapped, lemma_swap_permutation};

verus! {

/// The comparison of the neighbours at `j` and `j + 1` of a window that
/// starts at `off`.
pub open spec fn compare_next(off: int, j: int) -> ListAction<Num> {
    ListAction::Compare(Some((off + j) as usize), Some((off + j + 1) as usize))
}

/// The exchange of the neighbours at `j` and `j + 1` of a window that
/// starts at `off`.
pub open spec fn swap_next(off: int, j: int) -> ListAction<Num> {
    ListAction::Swap((off + j) as usize, (off + j + 1) as usize)
}

/// A bubble pass over the neighbours `j, j + 1` for `j` from `j` below `i`:
/// each pair is compared and swapped if out of order. Gives the list after
/// it and the actions it reports.
pub open spec fn bubble_pass(s: Seq<Num>, j: int, i: int, off: int) -> (Seq<Num>, Seq<ListAction<Num>>)
    decreases i - j,
{
    if j < 0 || j >= i {
        (s, Seq::empty())
    } else if s[j] > s[j + 1] {
        let r = bubble_pass(swapped(s, j, j + 1), j + 1, i, off);
        (r.0, seq![compare_next(off, j), swap_next(off, j)] + r.1)
    } else {
        let r = bubble_pass(s, j + 1, i, off);
        (r.0, seq![compare_next(off, j)] + r.1)
    }
}

/// The bubble passes that end at `top - 1`, `top - 2`, ..., `0`.
pub open spec fn bubble_passes(s: Seq<Num>, top: int, off: int) -> (Seq<Num>, Seq<ListAction<Num>>)
    decreases top,
{
    if top <= 0 {
        (s, Seq::empty())
    } else {
        let p = bubble_pass(s, 0, top - 1, off);
        let r = bubble_passes(p.0, top - 1, off);
        (r.0, p.1 + r.1)
    }
}

/// The actions bubble sort reports on a window `s` that starts at `off`.
pub open spec fn bubble_trace(s: Seq<Num>, off: int) -> Seq<ListAction<Num>> {
    bubble_passes(s, s.len() as int, off).1
}

/// Bubble sort: each pass carries the largest value of the unsorted prefix
/// to its end by swapping neighbours that are out of order.
pub fn bubble_sort(list: &mut CheckedListMut)
    requires
        old(list).wf(),
    ensures
        final(list).wf(),
        final(list).extends(old(list)),
        sorted(final(list)@),
        permutation(final(list)@, old(list)@),
        final(list).trace() == old(list).trace() + bubble_trace(old(list)@, old(list).lo() as int),
{
    let n = list.len();
    let mut i = n;
    let ghost off = old(list).lo() as int;
    let ghost goal = old(list).trace() + bubble_trace(old(list)@, off);
    proof {
        lemma_extends_refl(list);
        assert(list.trace() + bubble_passes(list@, i as int, off).1 == goal);
    }
    while i > 0
        invariant
            list.lo() == off,
            list.trace() + bubble_passes(list@, i as int, off).1 == goal,
            list.wf(),
            list.extends(old(list)),
            permutation(list@, old(list)@),
            list@.len() == n,
            i <= n,
            forall|a: int, b: int| i <= a <= b < n ==> list@[a] <= list@[b],
            forall|a: int, b: int| 0 <= a < i <= b < n ==> list@[a] <= list@[b],
        decreases i,
    {
        i = i - 1;
        let mut j: usize = 0;
        let ghost start_s = list@;
        let ghost pre = list.trace();
        proof {
            let p = bubble_pass(start_s, 0, i as int, off);
            assert(bubble_passes(start_s, i + 1, off) == (bubble_passes(p.0, i as int, off).0, p.1
                + bubble_passes(p.0, i as int, off).1));
            assert(list.trace() + bubble_pass(list@, 0, i as int, off).1 == pre + p.1);
        }
        while j < i
            invariant
                list.lo() == off,
                bubble_pass(list@, j as int, i as int, off).0 == bubble_pass(start_s, 0, i as int, off).0,
                list.trace() + bubble_pass(list@, j as int, i as int, off).1 == pre + bubble_pass(
                    start_s,
                    0,
                    i as int,
                    off,
                ).1,
                list.wf(),
                list.extends(old(list)),
                permutation(list@, old(list)@),
                list@.len() == n,
                j <= i < n,
                forall|a: int, b: int| i + 1 <= a <= b < n ==> list@[a] <= list@[b],
                forall|a: int, b: int| 0 <= a <= i < b < n ==> list@[a] <= list@[b],
                forall|a: int| 0 <= a <= j ==> list@[a] <= list@[j as int],
            decreases i - j,
        {
            let ghost before = *list;
            if list.compare(j, j + 1).is_gt() {
                let ghost mid = *list;
                list.swap(j, j + 1);
                proof {
                    lemma_swap_permutation(mid@, j as int, j + 1);
                    lemma_extends_trans(&mid, &before, old(list));
                    lemma_extends_trans(list, &mid, old(list));
                    let r = bubble_pass(list@, j + 1, i as int, off);
                    assert(bubble_pass(before@, j as int, i as int, off) == (r.0, seq![
                        compare_next(off, j as int),
                        swap_next(off, j as int),
                    ] + r.1));
                    assert(list.trace() + r.1 =~= before.trace() + (seq![
                        compare_next(off, j as int),
                        swap_next(off, j as int),
                    ] + r.1));
                }
            } else {
                proof {
                    lemma_extends_trans(list, &before, old(list));
                    let r = bubble_pass(list@, j + 1, i as int, off);
                    assert(bubble_pass(before@, j as int, i as int, off) == (r.0, seq![
                        compare_next(off, j as int),
                    ] + r.1));
                    assert(list.trace() + r.1 =~= before.trace() + (seq![compare_next(off, j as int)]
                        + r.1));
                }
            }
            j = j + 1;
        }
        proof {
            let p = bubble_pass(start_s, 0, i as int, off);
            assert(list@ == p.0);
            assert(list.trace() =~= pre + p.1);
            assert(list.trace() + bubble_passes(list@, i as int, off).1 =~= pre + (p.1
                + bubble_passes(p.0, i as int, off).1));
        }
    }
}

} // verus!
