use vstd::prelude::*;
use crate::consts::Num;
use crate::tools::checked_list::{
    CheckedListMut, ListAction, compare_at, swap_at, lemma_extends_refl, lemma_extends_trans,
};
use crate::tools::seq_facts::{sorted, permutation, swapped, lemma_swap_permutation};

verus! {

/// The entry at `k` is at least each of its children that lies before `end`.
pub open spec fn heap_node_ok(s: Seq<Num>, k: int, end: int) -> bool {
    &&& (2 * k + 1 < end ==> s[2 * k + 1] <= s[k])
    &&& (2 * k + 2 < end ==> s[2 * k + 2] <= s[k])
}

/// Every node from `start` up to `end` is at least its children.
pub open spec fn is_heap(s: Seq<Num>, start: int, end: int) -> bool {
    forall|k: int| start <= k < end ==> #[trigger] heap_node_ok(s, k, end)
}

/// The positions from `end` on hold the largest values in ascending order.
pub open spec fn sorted_tail(s: Seq<Num>, end: int) -> bool {
    &&& forall|a: int, b: int| end <= a <= b < s.len() ==> s[a] <= s[b]
    &&& forall|a: int, b: int| 0 <= a < end <= b < s.len() ==> s[a] <= s[b]
}

/// The root of a heap holds its largest value.
proof fn lemma_heap_root_max(s: Seq<Num>, end: int, k: int)
    requires
        is_heap(s, 0, end),
        0 <= k < end <= s.len(),
    ensures
        s[k] <= s[0],
    decreases k,
{
    if k > 0 {
        let p = (k - 1) / 2;
        assert(heap_node_ok(s, p, end));
        lemma_heap_root_max(s, end, p);
    }
}

/// Swapping two positions before `end` keeps the tail sorted and above them.
proof fn lemma_swap_keeps_tail(s: Seq<Num>, end: int, i: int, j: int)
    requires
        sorted_tail(s, end),
        0 <= i < end,
        0 <= j < end,
        end <= s.len(),
    ensures
        sorted_tail(swapped(s, i, j), end),
{
    let t = swapped(s, i, j);
    assert forall|a: int, b: int| 0 <= a < end <= b < t.len() implies t[a] <= t[b] by {
        if a == i {
            assert(t[a] == s[j]);
        } else if a == j {
            assert(t[a] == s[i]);
        }
    }
}

/// One step of sifting down: exchanging a node with its larger child, when
/// that child is larger, repairs the node and moves the defect to the child.
proof fn lemma_sift_step(s: Seq<Num>, start: int, end: int, root: int, child: int, prev: int)
    requires
        end <= s.len(),
        0 <= start <= root < end,
        child == 2 * root + 1 || child == 2 * root + 2,
        child < end,
        s[root] < s[child],
        child == 2 * root + 1 && 2 * root + 2 < end ==> s[2 * root + 2] <= s[child],
        child == 2 * root + 2 ==> s[2 * root + 1] <= s[child],
        forall|k: int| start <= k < end && k != root ==> #[trigger] heap_node_ok(s, k, end),
        root > start ==> {
            &&& start <= prev < root
            &&& (root == 2 * prev + 1 || root == 2 * prev + 2)
            &&& (2 * root + 1 < end ==> s[2 * root + 1] <= s[prev])
            &&& (2 * root + 2 < end ==> s[2 * root + 2] <= s[prev])
        },
    ensures
        forall|k: int|
            start <= k < end && k != child ==> #[trigger] heap_node_ok(swapped(s, root, child), k, end),
        2 * child + 1 < end ==> swapped(s, root, child)[2 * child + 1] <= swapped(s, root, child)[root],
        2 * child + 2 < end ==> swapped(s, root, child)[2 * child + 2] <= swapped(s, root, child)[root],
{
    let t = swapped(s, root, child);
    assert forall|k: int| start <= k < end && k != child implies #[trigger] heap_node_ok(t, k, end) by {
        if k == root {
        } else if root > start && k == prev {
            assert(heap_node_ok(s, k, end));
        } else {
            assert(heap_node_ok(s, k, end));
            assert(2 * k + 1 != child && 2 * k + 2 != child);
            assert(2 * k + 1 != root && 2 * k + 2 != root);
        }
    }
    assert(heap_node_ok(s, child, end));
}

/// Sifting the entry at `root` down the heap `0..end`: pick the larger
/// child (comparing the two children when both lie in the heap; the right
/// one only if strictly larger), compare the root with it, and if the root
/// is smaller swap them and go on from the child. Gives the list after it
/// and the actions it reports.
pub open spec fn sift(s: Seq<Num>, root: int, end: int, off: int) -> (Seq<Num>, Seq<ListAction<Num>>)
    decreases end - root,
{
    if root < 0 || 2 * root + 1 >= end {
        (s, Seq::empty())
    } else {
        let c1 = 2 * root + 1;
        let child = if c1 + 1 < end && s[c1] < s[c1 + 1] { c1 + 1 } else { c1 };
        let picks = if c1 + 1 < end { seq![compare_at(off, c1, c1 + 1)] } else { Seq::empty() };
        if s[root] < s[child] {
            let r = sift(swapped(s, root, child), child, end, off);
            (r.0, picks + seq![compare_at(off, root, child), swap_at(off, root, child)] + r.1)
        } else {
            (s, picks + seq![compare_at(off, root, child)])
        }
    }
}

/// The heapsort loop from heap bounds `start..end`: while the heap is
/// being built (`start > 0`) sift down at `start - 1`; after that swap the
/// root to `end - 1` and sift down in `0..end - 1`; until `end` is 1.
pub open spec fn heap_loop(s: Seq<Num>, start: int, end: int, off: int) -> (Seq<Num>, Seq<ListAction<Num>>)
    decreases start + end,
{
    if end <= 1 || start < 0 {
        (s, Seq::empty())
    } else if start > 0 {
        let r1 = sift(s, start - 1, end, off);
        let r = heap_loop(r1.0, start - 1, end, off);
        (r.0, r1.1 + r.1)
    } else {
        let r1 = sift(swapped(s, end - 1, 0), 0, end - 1, off);
        let r = heap_loop(r1.0, 0, end - 1, off);
        (r.0, seq![swap_at(off, end - 1, 0)] + r1.1 + r.1)
    }
}

/// The actions heapsort reports on a window `s` that starts at `off`.
pub open spec fn heap_trace(s: Seq<Num>, off: int) -> Seq<ListAction<Num>> {
    heap_loop(s, (s.len() / 2) as int, s.len() as int, off).1
}

/// Heapsort: arrange the list as a max-heap, then repeatedly move its root
/// to the end of the shrinking heap and sift the new root down.
///
/// The list's length is bounded as that of any list of `Num`s in memory is.
#[verifier::rlimit(100)]
#[verifier::spinoff_prover]
pub fn heapsort(list: &mut CheckedListMut)
    requires
        old(list).wf(),
        old(list)@.len() <= usize::MAX / 2,
    ensures
        final(list).wf(),
        final(list).extends(old(list)),
        sorted(final(list)@),
        permutation(final(list)@, old(list)@),
        final(list).trace() == old(list).trace() + heap_trace(old(list)@, old(list).lo() as int),
{
    let len = list.len();
    let mut start = len / 2;
    let mut end = len;
    let ghost off = old(list).lo() as int;
    let ghost goal = old(list).trace() + heap_trace(old(list)@, off);
    proof {
        lemma_extends_refl(list);
        assert forall|k: int| start <= k < end implies #[trigger] heap_node_ok(list@, k, end as int) by {
            assert(2 * k + 1 >= len);
        }
    }
    while end > 1
        invariant
            list.wf(),
            list.extends(old(list)),
            permutation(list@, old(list)@),
            list@.len() == len,
            len <= usize::MAX / 2,
            start <= end <= len,
            start > 0 ==> end == len,
            is_heap(list@, start as int, end as int),
            sorted_tail(list@, end as int),
            list.lo() == off,
            list.trace() + heap_loop(list@, start as int, end as int, off).1 == goal,
        decreases start + end,
    {
        let ghost outer_s = list@;
        let ghost outer_t = list.trace();
        let ghost outer_start = start as int;
        let ghost outer_end = end as int;
        if start > 0 {
            start -= 1;
        } else {
            end -= 1;
            let ghost before = *list;
            proof {
                lemma_heap_root_max(list@, end + 1, end as int);
                assert forall|k: int| 0 <= k < end implies #[trigger] list@[k] <= list@[0] by {
                    lemma_heap_root_max(list@, end + 1, k);
                }
            }
            list.swap(end, 0);
            proof {
                lemma_swap_permutation(before@, end as int, 0);
                lemma_extends_trans(list, &before, old(list));
                let t = list@;
                assert forall|a: int, b: int| end <= a <= b < t.len() implies t[a] <= t[b] by {
                    if a == end && b > end {
                        assert(before@[b] >= before@[0]);
                    }
                }
                assert forall|a: int, b: int| 0 <= a < end <= b < t.len() implies t[a] <= t[b] by {
                    if a == 0 {
                        assert(t[a] == before@[end as int]);
                    }
                    assert(t[end as int] == before@[0]);
                }
                assert forall|k: int| 1 <= k < end implies #[trigger] heap_node_ok(t, k, end as int) by {
                    assert(heap_node_ok(before@, k, end + 1));
                }
            }
        }
        let mut root = start;
        let ghost mut prev: int = 0;
        let ghost s0 = list@;
        let ghost pre = list.trace();
        proof {
            if outer_start > 0 {
                assert(heap_loop(outer_s, outer_start, outer_end, off) == (heap_loop(
                    sift(s0, start as int, end as int, off).0,
                    start as int,
                    end as int,
                    off,
                ).0, sift(s0, start as int, end as int, off).1 + heap_loop(
                    sift(s0, start as int, end as int, off).0,
                    start as int,
                    end as int,
                    off,
                ).1));
                assert(pre == outer_t);
            } else {
                assert(s0 == swapped(outer_s, end as int, 0));
                assert(pre == outer_t.push(swap_at(off, end as int, 0)));
                assert(heap_loop(outer_s, outer_start, outer_end, off) == (heap_loop(
                    sift(s0, 0, end as int, off).0,
                    0,
                    end as int,
                    off,
                ).0, seq![swap_at(off, end as int, 0)] + sift(s0, 0, end as int, off).1 + heap_loop(
                    sift(s0, 0, end as int, off).0,
                    0,
                    end as int,
                    off,
                ).1));
            }
        }
        while 2 * root + 1 < end
            invariant_except_break
                sift(list@, root as int, end as int, off).0 == sift(s0, start as int, end as int, off).0,
                list.trace() + sift(list@, root as int, end as int, off).1 == pre + sift(
                    s0,
                    start as int,
                    end as int,
                    off,
                ).1,
            invariant
                list.lo() == off,
                list.wf(),
                list.extends(old(list)),
                permutation(list@, old(list)@),
                list@.len() == len,
                len <= usize::MAX / 2,
                start <= root < end <= len,
                start > 0 ==> end == len,
                sorted_tail(list@, end as int),
                forall|k: int|
                    start <= k < end && k != root ==> #[trigger] heap_node_ok(list@, k, end as int),
                root > start ==> {
                    &&& start <= prev < root
                    &&& (root == 2 * prev + 1 || root == 2 * prev + 2)
                    &&& (2 * root + 1 < end ==> list@[2 * root + 1] <= list@[prev])
                    &&& (2 * root + 2 < end ==> list@[2 * root + 2] <= list@[prev])
                },
            ensures
                list.wf(),
                list.extends(old(list)),
                permutation(list@, old(list)@),
                list@.len() == len,
                sorted_tail(list@, end as int),
                is_heap(list@, start as int, end as int),
                list.lo() == off,
                list@ == sift(s0, start as int, end as int, off).0,
                list.trace() == pre + sift(s0, start as int, end as int, off).1,
            decreases end - root,
        {
            let ghost top = *list;
            let mut child = 2 * root + 1;
            if child + 1 < end {
                let ghost b0 = *list;
                if list.compare(child, child + 1).is_lt() {
                    child += 1;
                }
                proof {
                    lemma_extends_trans(list, &b0, old(list));
                }
            }
            let ghost b1 = *list;
            let ghost c1 = 2 * root + 1;
            let ghost picks = if c1 + 1 < end {
                seq![compare_at(off, c1, c1 + 1)]
            } else {
                Seq::<ListAction<Num>>::empty()
            };
            proof {
                assert(b1@ == top@);
                assert(b1.trace() == top.trace() + picks);
            }
            if list.compare(root, child).is_lt() {
                let ghost b2 = *list;
                list.swap(root, child);
                proof {
                    lemma_extends_trans(&b2, &b1, old(list));
                    lemma_extends_trans(list, &b2, old(list));
                    lemma_swap_permutation(b2@, root as int, child as int);
                    lemma_swap_keeps_tail(b2@, end as int, root as int, child as int);
                    lemma_sift_step(b2@, start as int, end as int, root as int, child as int, prev);
                    prev = root as int;
                    let r = sift(list@, child as int, end as int, off);
                    assert(sift(top@, root as int, end as int, off) == (r.0, picks + seq![
                        compare_at(off, root as int, child as int),
                        swap_at(off, root as int, child as int),
                    ] + r.1));
                    assert(list.trace() + r.1 =~= top.trace() + (picks + seq![
                        compare_at(off, root as int, child as int),
                        swap_at(off, root as int, child as int),
                    ] + r.1));
                }
                root = child;
            } else {
                proof {
                    lemma_extends_trans(list, &b1, old(list));
                    assert(sift(top@, root as int, end as int, off) == (top@, picks + seq![
                        compare_at(off, root as int, child as int),
                    ]));
                    assert(list.trace() =~= top.trace() + (picks + seq![
                        compare_at(off, root as int, child as int),
                    ]));
                }
                break;
            }
        }
    }
    proof {
        let s = list@;
        assert forall|a: int, b: int| 0 <= a <= b < s.len() implies s[a] <= s[b] by {
            if a < end && b < end {
                assert(a == b);
            }
        }
    }
}

} // verus!
