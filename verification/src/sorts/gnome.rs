use vstd::prelude::*;
use crate::consts::Num;
use crate::tools::checked_list::{CheckedListMut, ListAction, lemma_extends_refl, lemma_extends_trans};
use crate::sorts::bubble::{compare_next, swap_next};
use crate::tools::seq_facts::{
    sorted, permutation, inversions, swapped, lemma_swap_permutation, lemma_swap_inversions,
};

verus! {

/// Gnome sort from position `ptr` on a window `s` that starts at `off`:
/// compare the neighbours at `ptr` and `ptr + 1`; if out of order swap them
/// and step back (not below 0), else step on; stop when `ptr + 1` reaches
/// the end. Gives the list after it and the actions it reports.
pub open spec fn gnome_run(s: Seq<Num>, ptr: int, off: int) -> (Seq<Num>, Seq<ListAction<Num>>)
    decreases inversions(s), s.len() - ptr,
{
    if ptr < 0 || ptr + 1 >= s.len() {
        (s, Seq::empty())
    } else if s[ptr] > s[ptr + 1] {
        proof {
            lemma_swap_inversions(s, ptr);
        }
        let r = gnome_run(swapped(s, ptr, ptr + 1), if ptr == 0 { 0 } else { ptr - 1 }, off);
        (r.0, seq![compare_next(off, ptr), swap_next(off, ptr)] + r.1)
    } else {
        let r = gnome_run(s, ptr + 1, off);
        (r.0, seq![compare_next(off, ptr)] + r.1)
    }
}

/// The actions gnome sort reports on a window `s` that starts at `off`.
pub open spec fn gnome_trace(s: Seq<Num>, off: int) -> Seq<ListAction<Num>> {
    gnome_run(s, 0, off).1
}

/// The first action of a gnome run from a place inside the window is the
/// comparison there.
proof fn lemma_gnome_first(s: Seq<Num>, ptr: int, off: int)
    requires
        0 <= ptr,
        ptr + 1 < s.len(),
    ensures
        gnome_run(s, ptr, off).1.len() > 0,
        gnome_run(s, ptr, off).1[0] == compare_next(off, ptr),
{
}

/// In the actions `t`, if the one at `i` is a swap of the entries at `x`
/// and `y`, a comparison follows it: of the entries at `x - 1` and `x` when
/// `x` is past the window's start `off`, else of those at `x` and `y`.
pub open spec fn steps_back_after(t: Seq<ListAction<Num>>, i: int, off: int) -> bool {
    t[i] matches ListAction::Swap(x, y) ==> i + 1 < t.len() && t[i + 1] == (if x > off {
        ListAction::<Num>::Compare(Some((x - 1) as usize), Some(x))
    } else {
        ListAction::Compare(Some(x), Some(y))
    })
}

/// Putting actions in front keeps what follows each swap.
proof fn lemma_steps_back_shift(p: Seq<ListAction<Num>>, r: Seq<ListAction<Num>>, i: int, off: int)
    requires
        0 <= i < r.len(),
        steps_back_after(r, i, off),
    ensures
        steps_back_after(p + r, i + p.len(), off),
{
    let t = p + r;
    assert(t[i + p.len()] == r[i]);
    if i + 1 < r.len() {
        assert(t[i + 1 + p.len()] == r[i + 1]);
    }
}

/// After a swap a gnome run steps back one place, but not below the start
/// of the window, and compares there next.
#[verifier::spinoff_prover]
proof fn lemma_gnome_run_steps_back(s: Seq<Num>, ptr: int, off: int)
    requires
        0 <= ptr,
        0 <= off,
        off + s.len() <= usize::MAX,
    ensures
        forall|i: int|
            0 <= i < gnome_run(s, ptr, off).1.len() ==> #[trigger] steps_back_after(gnome_run(s, ptr, off).1, i, off),
    decreases inversions(s), s.len() - ptr,
{
    let t = gnome_run(s, ptr, off).1;
    if ptr + 1 >= s.len() {
    } else if s[ptr] > s[ptr + 1] {
        lemma_swap_inversions(s, ptr);
        let q = if ptr == 0 { 0 } else { ptr - 1 };
        let s2 = swapped(s, ptr, ptr + 1);
        lemma_gnome_run_steps_back(s2, q, off);
        lemma_gnome_first(s2, q, off);
        let r = gnome_run(s2, q, off).1;
        let p = seq![compare_next(off, ptr), swap_next(off, ptr)];
        assert(t == p + r);
        assert forall|i: int| 0 <= i < t.len() implies #[trigger] steps_back_after(t, i, off) by {
            if i >= 2 {
                lemma_steps_back_shift(p, r, i - 2, off);
            } else if i == 1 {
                assert(t[2] == r[0]);
            }
        }
    } else {
        lemma_gnome_run_steps_back(s, ptr + 1, off);
        let r = gnome_run(s, ptr + 1, off).1;
        let p = seq![compare_next(off, ptr)];
        assert(t == p + r);
        assert forall|i: int| 0 <= i < t.len() implies #[trigger] steps_back_after(t, i, off) by {
            if i >= 1 {
                lemma_steps_back_shift(p, r, i - 1, off);
            }
        }
    }
}

/// Gnome sort steps back exactly one place after every swap: in what it
/// reports, a swap of the entries at `x` and `x + 1` is always followed by
/// the comparison of the entries at `x - 1` and `x`, or, when `x` is the
/// first place of the window, of those at `x` and `x + 1` again.
pub proof fn lemma_gnome_steps_back(s: Seq<Num>, off: int)
    requires
        0 <= off,
        off + s.len() <= usize::MAX,
    ensures
        forall|i: int|
            0 <= i < gnome_trace(s, off).len() ==> (#[trigger] gnome_trace(s, off)[i] matches ListAction::Swap(x, y)
                ==> i + 1 < gnome_trace(s, off).len() && gnome_trace(s, off)[i + 1] == (if x > off {
                ListAction::<Num>::Compare(Some((x - 1) as usize), Some(x))
            } else {
                ListAction::Compare(Some(x), Some(y))
            })),
{
    lemma_gnome_run_steps_back(s, 0, off);
    let t = gnome_trace(s, off);
    assert forall|i: int| 0 <= i < t.len() implies (#[trigger] t[i] matches ListAction::Swap(x, y) ==> i + 1
        < t.len() && t[i + 1] == (if x > off {
        ListAction::<Num>::Compare(Some((x - 1) as usize), Some(x))
    } else {
        ListAction::Compare(Some(x), Some(y))
    })) by {
        assert(steps_back_after(t, i, off));
    }
}

/// Gnome sort: walk up the list, and whenever two neighbours are out of
/// order swap them and step back.
pub fn gnome_sort(list: &mut CheckedListMut)
    requires
        old(list).wf(),
    ensures
        final(list).wf(),
        final(list).extends(old(list)),
        sorted(final(list)@),
        permutation(final(list)@, old(list)@),
        final(list).trace() == old(list).trace() + gnome_trace(old(list)@, old(list).lo() as int),
{
    let n = list.len();
    let mut ptr: usize = 0;
    let ghost off = old(list).lo() as int;
    let ghost goal = old(list).trace() + gnome_trace(old(list)@, off);
    proof {
        lemma_extends_refl(list);
    }
    while ptr + 1 < n
        invariant
            list.lo() == off,
            list.trace() + gnome_run(list@, ptr as int, off).1 == goal,
            list.wf(),
            list.extends(old(list)),
            permutation(list@, old(list)@),
            list@.len() == n,
            ptr == 0 || ptr < n,
            forall|a: int, b: int| 0 <= a <= b <= ptr && b < n ==> list@[a] <= list@[b],
        decreases inversions(list@), n - ptr,
    {
        let ghost before = *list;
        if list.compare(ptr, ptr + 1).is_gt() {
            let ghost mid = *list;
            list.swap(ptr, ptr + 1);
            proof {
                lemma_swap_permutation(mid@, ptr as int, ptr + 1);
                lemma_swap_inversions(mid@, ptr as int);
                lemma_extends_trans(&mid, &before, old(list));
                lemma_extends_trans(list, &mid, old(list));
                let r = gnome_run(list@, if ptr == 0 { 0 } else { ptr - 1 }, off);
                assert(gnome_run(before@, ptr as int, off) == (r.0, seq![
                    compare_next(off, ptr as int),
                    swap_next(off, ptr as int),
                ] + r.1));
                assert(list.trace() + r.1 =~= before.trace() + (seq![
                    compare_next(off, ptr as int),
                    swap_next(off, ptr as int),
                ] + r.1));
            }
            ptr = ptr.saturating_sub(1);
        } else {
            proof {
                lemma_extends_trans(list, &before, old(list));
                let r = gnome_run(list@, ptr + 1, off);
                assert(gnome_run(before@, ptr as int, off) == (r.0, seq![compare_next(off, ptr as int)]
                    + r.1));
                assert(list.trace() + r.1 =~= before.trace() + (seq![compare_next(off, ptr as int)]
                    + r.1));
            }
            ptr += 1;
        }
    }
    proof {
        assert(list.trace() =~= list.trace() + gnome_run(list@, ptr as int, off).1);
    }
}

} // verus!
