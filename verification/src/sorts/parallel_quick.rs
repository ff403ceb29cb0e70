use vstd::prelude::*;
use crate::consts::Num;
use crate::tools::checked_list::{
    CheckedListMut, ListAction, compare_at, swap_at, lemma_extends_refl, lemma_extends_trans, lemma_subwindow,
};
use crate::tools::seq_facts::{
    sorted, permutation, swapped, all_at_most, all_at_least, lemma_swap_permutation,
    lemma_permutation_bounds, lemma_permutation_no_duplicates, lemma_split_multiset,
};

verus! {

/// The last value of `s` is larger than every other.
pub open spec fn last_is_largest(s: Seq<Num>) -> bool {
    s.len() > 0 && forall|k: int| 0 <= k < s.len() - 1 ==> #[trigger] s[k] < s[s.len() - 1]
}

/// What shrinks from a call of the partition sort to the calls it makes.
pub open spec fn partition_measure(s: Seq<Num>) -> nat {
    2 * s.len() + if last_is_largest(s) {
        0nat
    } else {
        1nat
    }
}

/// Where the upward scan for the partition stops: the first position from
/// `a` on whose value is not below the pivot `p`, or the end.
pub open spec fn scan_up(s: Seq<Num>, p: Num, a: int) -> int
    decreases s.len() - a,
{
    if 0 <= a < s.len() && s[a] < p {
        scan_up(s, p, a + 1)
    } else {
        a
    }
}

/// Where the downward scan for the partition stops: the first position from
/// `b` down whose value is not above the pivot `p`, or 0.
pub open spec fn scan_down(s: Seq<Num>, p: Num, b: int) -> int
    decreases b,
{
    if 0 < b < s.len() && s[b] > p {
        scan_down(s, p, b - 1)
    } else {
        b
    }
}

/// The partition's exchange loop from the bounds `a` and `b`: scan up from
/// `a + 1` and down from `b - 1` against the pivot `s[0]`; when the scans
/// have not crossed, swap the two entries and go on from there. Gives the
/// list and where the downward scan stopped.
pub open spec fn exchange_loop(s: Seq<Num>, a: int, b: int) -> (Seq<Num>, int)
    decreases b - a,
{
    let a1 = scan_up(s, s[0], a + 1);
    let b1 = scan_down(s, s[0], b - 1);
    if a1 >= b1 || a1 <= a || b1 >= b {
        (s, b1)
    } else {
        exchange_loop(swapped(s, a1, b1), a1, b1)
    }
}

/// The partition of `s` around its first value: the list after the
/// exchange loop with the pivot swapped into place, and the pivot's place.
pub open spec fn partitioned(s: Seq<Num>) -> (Seq<Num>, int) {
    let (t, b) = exchange_loop(s, 0, s.len() as int);
    (swapped(t, b, 0), b)
}

/// The comparisons of the upward scan from `a` (window starting at `off`):
/// each entry tested is compared with the pivot at 0.
pub open spec fn scan_up_trace(s: Seq<Num>, p: Num, a: int, off: int) -> Seq<ListAction<Num>>
    decreases s.len() - a,
{
    if 0 <= a < s.len() {
        seq![compare_at(off, a, 0)] + if s[a] < p {
            scan_up_trace(s, p, a + 1, off)
        } else {
            Seq::empty()
        }
    } else {
        Seq::empty()
    }
}

/// The comparisons of the downward scan from `b`.
pub open spec fn scan_down_trace(s: Seq<Num>, p: Num, b: int, off: int) -> Seq<ListAction<Num>>
    decreases b,
{
    if 0 < b < s.len() {
        seq![compare_at(off, b, 0)] + if s[b] > p {
            scan_down_trace(s, p, b - 1, off)
        } else {
            Seq::empty()
        }
    } else {
        Seq::empty()
    }
}

/// The actions of the exchange loop from the bounds `a` and `b`.
pub open spec fn exchange_trace(s: Seq<Num>, a: int, b: int, off: int) -> Seq<ListAction<Num>>
    decreases b - a,
{
    let a1 = scan_up(s, s[0], a + 1);
    let b1 = scan_down(s, s[0], b - 1);
    let scans = scan_up_trace(s, s[0], a + 1, off) + scan_down_trace(s, s[0], b - 1, off);
    if a1 >= b1 || a1 <= a || b1 >= b {
        scans
    } else {
        scans + seq![swap_at(off, a1, b1)] + exchange_trace(swapped(s, a1, b1), a1, b1, off)
    }
}

/// The actions of the partition of `s` (window starting at `off`): the
/// exchange loop, then the swap of the pivot into place.
pub open spec fn partition_trace(s: Seq<Num>, off: int) -> Seq<ListAction<Num>> {
    exchange_trace(s, 0, s.len() as int, off) + seq![swap_at(off, exchange_loop(s, 0, s.len() as int).1, 0)]
}

/// The actions of the partition sort on `s` (window starting at `off`)
/// within `fuel` levels of calls, and whether it ended there: two entries
/// are compared (and swapped if out of order, which ends it); otherwise,
/// with fuel left, the partition, then the sort of the part up to the pivot
/// and, if that ended, of the part after it. Out of fuel it stops at once.
pub open spec fn quick_upto(s: Seq<Num>, off: int, fuel: nat) -> (Seq<ListAction<Num>>, bool)
    decreases fuel,
{
    let n = s.len() as int;
    if n < 2 {
        (Seq::empty(), true)
    } else if n == 2 && s[0] > s[1] {
        (seq![compare_at(off, 0, 1), swap_at(off, 0, 1)], true)
    } else {
        let first = if n == 2 { seq![compare_at(off, 0, 1)] } else { Seq::empty() };
        if fuel == 0 {
            (first, false)
        } else {
            let (t, b) = partitioned(s);
            let l = quick_upto(t.subrange(0, b + 1), off, (fuel - 1) as nat);
            if !l.1 {
                (first + partition_trace(s, off) + l.0, false)
            } else {
                let r = quick_upto(t.subrange(b + 1, n), off + b + 1, (fuel - 1) as nat);
                (first + partition_trace(s, off) + l.0 + r.0, r.1)
            }
        }
    }
}

/// The actions the partition sort reports on `s`, where it ends.
pub open spec fn quick_sort_trace(s: Seq<Num>, off: int) -> Seq<ListAction<Num>> {
    quick_upto(s, off, choose|fuel: nat| #[trigger] quick_run(s, fuel) is Some).0
}

/// The sort ends within `fuel` levels exactly when its list run does.
pub proof fn lemma_quick_upto_run(s: Seq<Num>, off: int, fuel: nat)
    ensures
        quick_upto(s, off, fuel).1 == (quick_run(s, fuel) is Some),
    decreases fuel,
{
    let n = s.len() as int;
    if n >= 2 && !(n == 2 && s[0] > s[1]) && fuel > 0 {
        let (t, b) = partitioned(s);
        lemma_quick_upto_run(t.subrange(0, b + 1), off, (fuel - 1) as nat);
        lemma_quick_upto_run(t.subrange(b + 1, n), off + b + 1, (fuel - 1) as nat);
    }
}

/// With more fuel the sort reports the same actions and more: those within
/// `f` levels come first, and if it ended there, nothing changes.
pub proof fn lemma_quick_upto_prefix(s: Seq<Num>, off: int, f: nat, g: nat)
    requires
        f <= g,
    ensures
        quick_upto(s, off, f).0.len() <= quick_upto(s, off, g).0.len(),
        quick_upto(s, off, g).0.subrange(0, quick_upto(s, off, f).0.len() as int) == quick_upto(s, off, f).0,
        quick_upto(s, off, f).1 ==> quick_upto(s, off, g) == quick_upto(s, off, f),
    decreases f,
{
    let n = s.len() as int;
    if n < 2 || (n == 2 && s[0] > s[1]) {
        assert(quick_upto(s, off, g).0.subrange(0, quick_upto(s, off, f).0.len() as int) =~= quick_upto(s, off, f).0);
    } else if f == 0 {
        let first = if n == 2 { seq![compare_at(off, 0, 1)] } else { Seq::<ListAction<Num>>::empty() };
        if g > 0 {
            let (t, b) = partitioned(s);
            let l = quick_upto(t.subrange(0, b + 1), off, (g - 1) as nat);
            assert(quick_upto(s, off, g).0 == first + (quick_upto(s, off, g).0.subrange(first.len() as int, quick_upto(s, off, g).0.len() as int))) by {
                assert(quick_upto(s, off, g).0 =~= first + quick_upto(s, off, g).0.subrange(first.len() as int, quick_upto(s, off, g).0.len() as int));
            }
        }
        assert(quick_upto(s, off, g).0.subrange(0, first.len() as int) =~= first);
    } else {
        let first = if n == 2 { seq![compare_at(off, 0, 1)] } else { Seq::<ListAction<Num>>::empty() };
        let (t, b) = partitioned(s);
        let pt = partition_trace(s, off);
        let left = t.subrange(0, b + 1);
        let right = t.subrange(b + 1, n);
        lemma_quick_upto_prefix(left, off, (f - 1) as nat, (g - 1) as nat);
        lemma_quick_upto_prefix(right, off + b + 1, (f - 1) as nat, (g - 1) as nat);
        let lf = quick_upto(left, off, (f - 1) as nat);
        let lg = quick_upto(left, off, (g - 1) as nat);
        let rf = quick_upto(right, off + b + 1, (f - 1) as nat);
        let rg = quick_upto(right, off + b + 1, (g - 1) as nat);
        let tf = quick_upto(s, off, f).0;
        let tg = quick_upto(s, off, g).0;
        if !lf.1 {
            if !lg.1 {
                assert(tg.subrange(0, tf.len() as int) =~= tf);
            } else {
                assert(tg =~= first + pt + lg.0 + rg.0);
                assert(tg.subrange(0, tf.len() as int) =~= tf);
            }
        } else {
            assert(lg == lf);
            assert(tg.subrange(0, tf.len() as int) =~= tf);
        }
    }
}

/// The list the partition sort leaves of `s` when it ends within `fuel`
/// levels of calls (`None` otherwise): two entries out of order are
/// swapped; a longer list (or two in order) is partitioned, then the part up
/// to and including the pivot and the part after it are sorted.
pub open spec fn quick_run(s: Seq<Num>, fuel: nat) -> Option<Seq<Num>>
    decreases fuel,
{
    let n = s.len() as int;
    if n < 2 {
        Some(s)
    } else if n == 2 && s[0] > s[1] {
        Some(swapped(s, 0, 1))
    } else if fuel == 0 {
        None
    } else {
        let (t, b) = partitioned(s);
        match quick_run(t.subrange(0, b + 1), (fuel - 1) as nat) {
            None => None,
            Some(x) => match quick_run(t.subrange(b + 1, n), (fuel - 1) as nat) {
                None => None,
                Some(y) => Some(x + y),
            },
        }
    }
}

/// The partition sort ends on `s`. It does not on every list with a
/// repeated value: on `[1, 1]` the part that holds the pivot is the whole
/// list again, unchanged.
pub open spec fn quick_ends(s: Seq<Num>) -> bool {
    exists|fuel: nat| #[trigger] quick_run(s, fuel) is Some
}

/// More fuel than a run needs changes nothing.
pub proof fn lemma_quick_fuel(s: Seq<Num>, f: nat, g: nat)
    requires
        f <= g,
        quick_run(s, f) is Some,
    ensures
        quick_run(s, g) == quick_run(s, f),
    decreases f,
{
    let n = s.len() as int;
    if n < 2 || (n == 2 && s[0] > s[1]) {
    } else {
        let (t, b) = partitioned(s);
        lemma_quick_fuel(t.subrange(0, b + 1), (f - 1) as nat, (g - 1) as nat);
        lemma_quick_fuel(t.subrange(b + 1, n), (f - 1) as nat, (g - 1) as nat);
    }
}

/// The upward scan passes only values below the pivot and stops at one that
/// is not, or at the end.
proof fn lemma_scan_up(s: Seq<Num>, p: Num, a: int)
    requires
        0 <= a,
    ensures
        a <= scan_up(s, p, a),
        scan_up(s, p, a) <= s.len() || scan_up(s, p, a) == a,
        forall|k: int| a <= k < scan_up(s, p, a) ==> #[trigger] s[k] < p,
        scan_up(s, p, a) < s.len() ==> s[scan_up(s, p, a)] >= p,
    decreases s.len() - a,
{
    if 0 <= a < s.len() && s[a] < p {
        lemma_scan_up(s, p, a + 1);
    }
}

/// The downward scan passes only values above the pivot and stops at one
/// that is not, or at 0.
proof fn lemma_scan_down(s: Seq<Num>, p: Num, b: int)
    requires
        b < s.len(),
    ensures
        scan_down(s, p, b) <= b,
        forall|k: int| scan_down(s, p, b) < k <= b ==> #[trigger] s[k] > p,
        0 < scan_down(s, p, b) ==> s[scan_down(s, p, b)] <= p,
    decreases b,
{
    if 0 < b < s.len() && s[b] > p {
        lemma_scan_down(s, p, b - 1);
    }
}

/// What the exchange loop keeps: the values, the pivot in front, small
/// values up to where it stops and large ones after.
proof fn lemma_exchange_loop(s: Seq<Num>, a: int, b: int)
    requires
        s.len() >= 2,
        0 <= a < b <= s.len(),
        forall|k: int| 1 <= k <= a ==> #[trigger] s[k] <= s[0],
        forall|k: int| b <= k < s.len() ==> #[trigger] s[k] >= s[0],
    ensures
        permutation(exchange_loop(s, a, b).0, s),
        exchange_loop(s, a, b).0.len() == s.len(),
        exchange_loop(s, a, b).0[0] == s[0],
        0 <= exchange_loop(s, a, b).1 < b,
        forall|k: int| 1 <= k <= exchange_loop(s, a, b).1 ==> #[trigger] exchange_loop(s, a, b).0[k] <= s[0],
        forall|k: int|
            exchange_loop(s, a, b).1 < k < s.len() ==> #[trigger] exchange_loop(s, a, b).0[k] >= s[0],
        exchange_loop(s, a, b).1 == s.len() - 1 ==> b == s.len() && s[s.len() - 1] <= s[0],
    decreases b - a,
{
    let p = s[0];
    let n = s.len() as int;
    let a1 = scan_up(s, p, a + 1);
    let b1 = scan_down(s, p, b - 1);
    lemma_scan_up(s, p, a + 1);
    lemma_scan_down(s, p, b - 1);
    if a1 >= b1 || a1 <= a || b1 >= b {
        assert(exchange_loop(s, a, b) == (s, b1));
        assert forall|k: int| 1 <= k <= b1 implies #[trigger] s[k] <= p by {
            if k > a && k < a1 {
            } else if k == a1 {
            }
        }
    } else {
        let t = swapped(s, a1, b1);
        lemma_swap_permutation(s, a1, b1);
        assert forall|k: int| 1 <= k <= a1 implies #[trigger] t[k] <= t[0] by {
            if k == a1 {
            } else if k > a {
            }
        }
        assert forall|k: int| b1 <= k < n implies #[trigger] t[k] >= t[0] by {
            if k == b1 {
            } else if k < b {
            }
        }
        lemma_exchange_loop(t, a1, b1);
    }
}

/// What the partition of a list of two or more entries gives: a
/// permutation, with the pivot at the place returned, values at most it up
/// to there and at least it after; the place is the last only when the last
/// value was at most the pivot.
proof fn lemma_partitioned(s: Seq<Num>)
    requires
        s.len() >= 2,
    ensures
        permutation(partitioned(s).0, s),
        partitioned(s).0.len() == s.len(),
        0 <= partitioned(s).1 < s.len(),
        partitioned(s).0[partitioned(s).1] == s[0],
        forall|k: int| 0 <= k <= partitioned(s).1 ==> #[trigger] partitioned(s).0[k] <= s[0],
        forall|k: int| partitioned(s).1 < k < s.len() ==> #[trigger] partitioned(s).0[k] >= s[0],
        partitioned(s).1 == s.len() - 1 ==> s[s.len() - 1] <= s[0],
{
    lemma_exchange_loop(s, 0, s.len() as int);
    let (t, b) = exchange_loop(s, 0, s.len() as int);
    lemma_swap_permutation(t, b, 0);
}

/// On a list that holds no value twice the partition sort ends.
pub proof fn lemma_quick_distinct(s: Seq<Num>)
    requires
        s.no_duplicates(),
    ensures
        quick_ends(s),
    decreases partition_measure(s),
{
    let n = s.len() as int;
    if n < 2 || (n == 2 && s[0] > s[1]) {
        assert(quick_run(s, 0) is Some);
        return;
    }
    lemma_partitioned(s);
    let (t, b) = partitioned(s);
    let p = s[0];
    lemma_permutation_no_duplicates(s, t);
    let left = t.subrange(0, b + 1);
    let right = t.subrange(b + 1, n);
    assert(left.no_duplicates());
    assert(right.no_duplicates());
    if b + 1 == n {
        assert(!last_is_largest(s)) by {
            if last_is_largest(s) {
                assert(s[n - 1] > s[0]);
            }
        }
        assert(left =~= t);
        assert(last_is_largest(left)) by {
            assert forall|k: int| 0 <= k < left.len() - 1 implies #[trigger] left[k]
                < left[left.len() - 1] by {
                assert(t[k] != t[b]);
            }
        }
    }
    lemma_quick_distinct(left);
    lemma_quick_distinct(right);
    let f1 = choose|f: nat| #[trigger] quick_run(left, f) is Some;
    let f2 = choose|f: nat| #[trigger] quick_run(right, f) is Some;
    let f: nat = if f1 <= f2 { f2 } else { f1 };
    lemma_quick_fuel(left, f1, f);
    lemma_quick_fuel(right, f2, f);
    assert(quick_run(s, f + 1) is Some);
}

/// Unless it is two entries out of order, a window of two or more entries is
/// partitioned (given a level of calls to do it in): after the comparison
/// of a two-entry window's entries, the next action, and for a longer window
/// the first, is the upward scan's comparison of the entry at 1 with the
/// pivot at 0.
pub proof fn lemma_quick_partitions(s: Seq<Num>, off: int, fuel: nat)
    requires
        s.len() >= 2,
        !(s.len() == 2 && s[0] > s[1]),
        fuel >= 1,
    ensures
        ({
            let t = quick_upto(s, off, fuel).0;
            let k: int = if s.len() == 2 { 1 } else { 0 };
            &&& k < t.len()
            &&& t[k] == ListAction::<Num>::Compare(Some((off + 1) as usize), Some(off as usize))
            &&& s.len() == 2 ==> t[0] == ListAction::<Num>::Compare(Some(off as usize), Some((off + 1) as usize))
        }),
{
    let n = s.len() as int;
    let first = if n == 2 { seq![compare_at(off, 0, 1)] } else { Seq::<ListAction<Num>>::empty() };
    let (t, b) = partitioned(s);
    let pt = partition_trace(s, off);
    let up = scan_up_trace(s, s[0], 1, off);
    assert(up[0] == compare_at(off, 1, 0));
    let ex = exchange_trace(s, 0, n, off);
    assert(ex.subrange(0, up.len() as int) =~= up) by {
        let a1 = scan_up(s, s[0], 1);
        let b1 = scan_down(s, s[0], n - 1);
        let scans = up + scan_down_trace(s, s[0], n - 1, off);
        if a1 >= b1 || a1 <= 0 || b1 >= n {
            assert(ex == scans);
        } else {
            assert(ex == scans + seq![swap_at(off, a1, b1)] + exchange_trace(swapped(s, a1, b1), a1, b1, off));
        }
    }
    assert(pt[0] == ex[0]);
    let l = quick_upto(t.subrange(0, b + 1), off, (fuel - 1) as nat);
    let whole = quick_upto(s, off, fuel).0;
    if !l.1 {
        assert(whole == first + pt + l.0);
    } else {
        let r = quick_upto(t.subrange(b + 1, n), off + b + 1, (fuel - 1) as nat);
        assert(whole == first + pt + l.0 + r.0);
        assert(whole == first + (pt + l.0 + r.0));
    }
    assert(whole[first.len() as int] == pt[0]);
}

/// A two-entry window already in order is still partitioned: its entries
/// are compared, the upward and the downward scan each compare the second
/// entry with the pivot, the pivot is swapped with itself, and that ends
/// the sort (given a level of calls to do it in).
pub proof fn lemma_quick_two_in_order(s: Seq<Num>, off: int, fuel: nat)
    requires
        s.len() == 2,
        s[0] < s[1],
        fuel >= 1,
    ensures
        quick_upto(s, off, fuel) == (seq![
            ListAction::<Num>::Compare(Some(off as usize), Some((off + 1) as usize)),
            ListAction::<Num>::Compare(Some((off + 1) as usize), Some(off as usize)),
            ListAction::<Num>::Compare(Some((off + 1) as usize), Some(off as usize)),
            ListAction::<Num>::Swap(off as usize, off as usize),
        ], true),
{
    let p = s[0];
    assert(scan_up(s, p, 1) == 1);
    assert(scan_down(s, p, 0) == 0);
    assert(scan_down(s, p, 1) == 0);
    assert(scan_up_trace(s, p, 1, off) =~= seq![compare_at(off, 1, 0)]);
    assert(scan_down_trace(s, p, 0, off) =~= Seq::<ListAction<Num>>::empty());
    assert(scan_down_trace(s, p, 1, off) =~= seq![compare_at(off, 1, 0)]);
    assert(exchange_loop(s, 0, 2) == (s, 0int));
    assert(exchange_trace(s, 0, 2, off) =~= seq![compare_at(off, 1, 0), compare_at(off, 1, 0)]);
    let (t, b) = partitioned(s);
    assert(b == 0);
    assert(t =~= s);
    assert(partition_trace(s, off) =~= seq![compare_at(off, 1, 0), compare_at(off, 1, 0), swap_at(off, 0, 0)]);
    let l = quick_upto(t.subrange(0, 1), off, (fuel - 1) as nat);
    let r = quick_upto(t.subrange(1, 2), off + 1, (fuel - 1) as nat);
    assert(l == (Seq::<ListAction<Num>>::empty(), true));
    assert(r == (Seq::<ListAction<Num>>::empty(), true));
    assert(quick_upto(s, off, fuel).0 =~= seq![compare_at(off, 0, 1)] + partition_trace(s, off) + l.0 + r.0);
}

/// Moves the values at most the first one before it and the others after it,
/// and returns the position the first value ends at.
fn partition(list: &mut CheckedListMut) -> (b: usize)
    requires
        old(list).wf(),
        old(list)@.len() >= 2,
    ensures
        final(list).wf(),
        final(list).extends(old(list)),
        permutation(final(list)@, old(list)@),
        b < old(list)@.len(),
        final(list)@[b as int] == old(list)@[0],
        forall|k: int| 0 <= k <= b ==> final(list)@[k] <= old(list)@[0],
        forall|k: int| b < k < old(list)@.len() ==> final(list)@[k] >= old(list)@[0],
        b == old(list)@.len() - 1 ==> old(list)@[b as int] <= old(list)@[0],
        partitioned(old(list)@) == (final(list)@, b as int),
        final(list).trace() == old(list).trace() + partition_trace(old(list)@, old(list).lo() as int),
{
    let ghost off = old(list).lo() as int;
    let ghost t0 = old(list).trace();
    let len = list.len();
    proof {
        lemma_extends_refl(list);
    }
    let ghost s0 = list@;
    let ghost p = s0[0];
    let mut a: usize = 0;
    let mut b: usize = len;
    loop
        invariant_except_break
            a < b <= len,
            forall|k: int| 1 <= k <= a ==> list@[k] <= p,
            forall|k: int| b <= k < len ==> list@[k] >= p,
            b == len ==> list@ == s0,
            exchange_loop(list@, a as int, b as int) == exchange_loop(s0, 0, len as int),
            list.trace() + exchange_trace(list@, a as int, b as int, off) == t0 + exchange_trace(
                s0,
                0,
                len as int,
                off,
            ),
        invariant
            list.lo() == off,
            list.wf(),
            list.extends(old(list)),
            permutation(list@, old(list)@),
            list@.len() == len,
            len >= 2,
            s0 == old(list)@,
            list@[0] == p,
        ensures
            s0 == old(list)@,
            list.wf(),
            list.extends(old(list)),
            permutation(list@, old(list)@),
            list@.len() == len,
            list@[0] == p,
            b < len,
            forall|k: int| 1 <= k <= b ==> list@[k] <= p,
            forall|k: int| b < k < len ==> list@[k] >= p,
            b == len - 1 ==> s0[b as int] <= p,
            exchange_loop(s0, 0, len as int) == (list@, b as int),
            list.trace() == t0 + exchange_trace(s0, 0, len as int, off),
        decreases b - a,
    {
        let ghost top = list@;
        let ghost top_t = list.trace();
        let ghost b_top = b;
        let ghost a_top = a;
        a += 1;
        loop
            invariant_except_break
                list.trace() + scan_up_trace(top, p, a as int, off) == top_t + scan_up_trace(
                    top,
                    p,
                    a_top + 1,
                    off,
                ),
            invariant
                list.wf(),
                list.extends(old(list)),
                permutation(list@, old(list)@),
                list@.len() == len,
                list@[0] == p,
                1 <= a <= len,
                a <= b + 1,
                a > a_top,
                list@ == top,
                forall|k: int| 1 <= k < a ==> list@[k] <= p,
                forall|k: int| b <= k < len ==> list@[k] >= p,
                scan_up(top, p, a as int) == scan_up(top, p, a_top + 1),
                list.lo() == off,
            ensures
                list.lo() == off,
                list.trace() == top_t + scan_up_trace(top, p, a_top + 1, off),
                a == scan_up(top, p, a_top + 1),
                list@ == top,
                a > a_top,
                list.wf(),
                list.extends(old(list)),
                permutation(list@, old(list)@),
                list@.len() == len,
                list@[0] == p,
                1 <= a <= len,
                forall|k: int| 1 <= k < a ==> list@[k] <= p,
                forall|k: int| b <= k < len ==> list@[k] >= p,
                a < len ==> list@[a as int] >= p,
            decreases len - a,
        {
            if a >= len {
                proof {
                    assert(list.trace() =~= list.trace() + scan_up_trace(top, p, a as int, off));
                }
                break;
            }
            let ghost b0 = *list;
            let o = list.compare(a, 0);
            proof {
                lemma_extends_trans(list, &b0, old(list));
                let rest = if top[a as int] < p {
                    scan_up_trace(top, p, a + 1, off)
                } else {
                    Seq::<ListAction<Num>>::empty()
                };
                assert(scan_up_trace(top, p, a as int, off) == seq![compare_at(off, a as int, 0)] + rest);
                assert(list.trace() + rest =~= b0.trace() + (seq![compare_at(off, a as int, 0)] + rest));
            }
            if !o.is_lt() {
                break;
            }
            a += 1;
        }
        b -= 1;
        loop
            invariant_except_break
                list.trace() + scan_down_trace(top, p, b as int, off) == top_t + scan_up_trace(
                    top,
                    p,
                    a_top + 1,
                    off,
                ) + scan_down_trace(top, p, b_top - 1, off),
            invariant
                list.wf(),
                list.extends(old(list)),
                permutation(list@, old(list)@),
                list@.len() == len,
                list@[0] == p,
                b < len,
                b < b_top,
                a > a_top,
                list@ == top,
                forall|k: int| 1 <= k < a ==> list@[k] <= p,
                forall|k: int| b < k < len ==> list@[k] >= p,
                a < len ==> list@[a as int] >= p,
                scan_down(top, p, b as int) == scan_down(top, p, b_top - 1),
                list.lo() == off,
            ensures
                list.lo() == off,
                list.trace() == top_t + scan_up_trace(top, p, a_top + 1, off) + scan_down_trace(
                    top,
                    p,
                    b_top - 1,
                    off,
                ),
                b == scan_down(top, p, b_top - 1),
                list@ == top,
                b < b_top,
                a > a_top,
                list.wf(),
                list.extends(old(list)),
                permutation(list@, old(list)@),
                list@.len() == len,
                list@[0] == p,
                b < len,
                forall|k: int| 1 <= k < a ==> list@[k] <= p,
                forall|k: int| b < k < len ==> list@[k] >= p,
                a < len ==> list@[a as int] >= p,
                list@[b as int] <= p,
            decreases b,
        {
            if b == 0 {
                proof {
                    assert(list.trace() =~= list.trace() + scan_down_trace(top, p, b as int, off));
                }
                break;
            }
            let ghost b0 = *list;
            let o = list.compare(b, 0);
            proof {
                lemma_extends_trans(list, &b0, old(list));
                let rest = if top[b as int] > p {
                    scan_down_trace(top, p, b - 1, off)
                } else {
                    Seq::<ListAction<Num>>::empty()
                };
                assert(scan_down_trace(top, p, b as int, off) == seq![compare_at(off, b as int, 0)] + rest);
                assert(list.trace() + rest =~= b0.trace() + (seq![compare_at(off, b as int, 0)] + rest));
            }
            if !o.is_gt() {
                break;
            }
            b -= 1;
        }
        proof {
            assert(top[0] == p);
            assert(exchange_loop(top, a_top as int, b_top as int) == if a >= b {
                (top, b as int)
            } else {
                exchange_loop(swapped(top, a as int, b as int), a as int, b as int)
            });
            let scans = scan_up_trace(top, p, a_top + 1, off) + scan_down_trace(top, p, b_top - 1, off);
            assert(exchange_trace(top, a_top as int, b_top as int, off) == if a >= b {
                scans
            } else {
                scans + seq![swap_at(off, a as int, b as int)] + exchange_trace(
                    swapped(top, a as int, b as int),
                    a as int,
                    b as int,
                    off,
                )
            });
            assert(list.trace() =~= top_t + scans);
        }
        if a >= b {
            break;
        }
        let ghost b1 = *list;
        list.swap(a, b);
        proof {
            lemma_extends_trans(list, &b1, old(list));
            lemma_swap_permutation(b1@, a as int, b as int);
            let scans = scan_up_trace(top, p, a_top + 1, off) + scan_down_trace(top, p, b_top - 1, off);
            assert(list.trace() + exchange_trace(list@, a as int, b as int, off) =~= top_t + (scans
                + seq![swap_at(off, a as int, b as int)] + exchange_trace(list@, a as int, b as int, off)));
        }
    }
    let ghost b2 = *list;
    list.swap(b, 0);
    proof {
        lemma_extends_trans(list, &b2, old(list));
        lemma_swap_permutation(b2@, b as int, 0);
        assert(list@[b as int] == b2@[0]);
        assert(b2@[0] == p);
        assert(list.trace() =~= t0 + partition_trace(s0, off));
    }
    b
}

/// Quicksort with the first entry as pivot: scan from both ends, swapping
/// pairs on the wrong side, put the pivot between the parts, then sort the
/// part up to and including the pivot and the part after it.
///
/// On some lists with a repeated value, such as `[1, 1]`, the part that
/// holds the pivot is the whole list again and the sort never ends; so it
/// goes at most `depth` levels of calls deep, and says whether it ended
/// (`quick_upto`). Where it ends (`quick_ends`), enough depth lets it.
pub fn parallel_quicksort(list: &mut CheckedListMut, depth: u64) -> (done: bool)
    requires
        old(list).wf(),
    ensures
        final(list).wf(),
        final(list).extends(old(list)),
        permutation(final(list)@, old(list)@),
        done == quick_upto(old(list)@, old(list).lo() as int, depth as nat).1,
        final(list).trace() == old(list).trace() + quick_upto(old(list)@, old(list).lo() as int, depth as nat).0,
        done ==> sorted(final(list)@),
        done ==> final(list).trace() == old(list).trace() + quick_sort_trace(old(list)@, old(list).lo() as int),
        done == (quick_run(old(list)@, depth as nat) is Some),
{
    let ghost off0 = old(list).lo() as int;
    let done = quick_within(list, depth);
    proof {
        lemma_quick_upto_run(old(list)@, off0, depth as nat);
        if done {
            let c = choose|f: nat| #[trigger] quick_run(old(list)@, f) is Some;
            lemma_quick_upto_run(old(list)@, off0, c);
            if c <= depth {
                lemma_quick_upto_prefix(old(list)@, off0, c, depth as nat);
            } else {
                lemma_quick_upto_prefix(old(list)@, off0, depth as nat, c);
            }
        }
    }
    done
}

/// `parallel_quicksort` within `depth` levels, without the link to
/// `quick_run`.
#[verifier::rlimit(100)]
#[verifier::spinoff_prover]
fn quick_within(list: &mut CheckedListMut, depth: u64) -> (done: bool)
    requires
        old(list).wf(),
    ensures
        final(list).wf(),
        final(list).extends(old(list)),
        done ==> sorted(final(list)@),
        permutation(final(list)@, old(list)@),
        done == quick_upto(old(list)@, old(list).lo() as int, depth as nat).1,
        final(list).trace() == old(list).trace() + quick_upto(old(list)@, old(list).lo() as int, depth as nat).0,
    decreases depth,
{
    let len = list.len();
    let ghost off = old(list).lo() as int;
    let ghost t0 = old(list).trace();
    proof {
        lemma_extends_refl(list);
    }
    if len < 2 {
        proof {
            assert(list.trace() =~= t0 + quick_upto(old(list)@, off, depth as nat).0);
        }
        return true;
    }
    if len == 2 {
        let ghost b0 = *list;
        let o = list.compare(0, 1);
        proof {
            lemma_extends_trans(list, &b0, old(list));
        }
        if o.is_gt() {
            let ghost b1 = *list;
            list.swap(0, 1);
            proof {
                lemma_extends_trans(list, &b1, old(list));
                lemma_swap_permutation(b1@, 0, 1);
                assert(list.trace() =~= t0 + quick_upto(old(list)@, off, depth as nat).0);
            }
            return true;
        }
    }
    let ghost first = if len == 2 {
        seq![compare_at(off, 0, 1)]
    } else {
        Seq::<ListAction<Num>>::empty()
    };
    proof {
        assert(list.trace() =~= t0 + first);
        assert(list@ == old(list)@);
    }
    if depth == 0 {
        return false;
    }
    let ghost s0 = list@;
    let ghost p = s0[0];
    let ghost b2 = *list;
    let b = partition(list);
    proof {
        lemma_extends_trans(list, &b2, old(list));
    }
    let ghost parted = list@;
    let ghost mid = *list;
    proof {
        assert(parted[b as int] == p);
    }
    // the part up to and including the pivot
    let prev = list.slice(0, b + 1);
    let ghost sub_before = *list;
    proof {
        assert(sub_before@ =~= parted.subrange(0, b + 1));
    }
    let done1 = quick_within(list, depth - 1);
    let ghost sub_after = *list;
    list.restore(prev);
    proof {
        lemma_subwindow(&mid, &sub_before, &sub_after, list, 0, b + 1);
        lemma_extends_trans(list, &mid, old(list));
        lemma_split_multiset(list@, b + 1);
        lemma_split_multiset(parted, b + 1);
        assert(list@.subrange(0, b + 1) =~= sub_after@);
        assert(list@.subrange(b + 1, len as int) =~= parted.subrange(b + 1, len as int));
    }
    if !done1 {
        proof {
            assert(list.trace() =~= t0 + (first + partition_trace(s0, off) + quick_upto(
                sub_before@,
                off,
                (depth - 1) as nat,
            ).0));
        }
        return false;
    }
    let ghost mid2 = *list;
    let prev2 = list.slice(b + 1, len);
    let ghost sub_before2 = *list;
    proof {
        assert(sub_before2@ =~= parted.subrange(b + 1, len as int));
    }
    let done2 = quick_within(list, depth - 1);
    let ghost sub_after2 = *list;
    list.restore(prev2);
    proof {
        lemma_subwindow(&mid2, &sub_before2, &sub_after2, list, b + 1, len as int);
        lemma_extends_trans(list, &mid2, old(list));
        let left = parted.subrange(0, b + 1);
        let right = parted.subrange(b + 1, len as int);
        let fin = list@;
        assert(fin =~= sub_after@ + sub_after2@);
        if done2 {
            assert(all_at_most(left, p));
            assert(all_at_least(right, p));
            lemma_permutation_bounds(left, sub_after@, p);
            lemma_permutation_bounds(right, sub_after2@, p);
            assert forall|i: int, j: int| 0 <= i <= j < fin.len() implies fin[i] <= fin[j] by {
                if j <= b {
                    assert(fin[i] == sub_after@[i]);
                    assert(fin[j] == sub_after@[j]);
                } else if i > b {
                    assert(fin[i] == sub_after2@[i - b - 1]);
                    assert(fin[j] == sub_after2@[j - b - 1]);
                } else {
                    assert(fin[i] == sub_after@[i]);
                    assert(fin[j] == sub_after2@[j - b - 1]);
                }
            }
        }
        lemma_split_multiset(fin, b + 1);
        lemma_split_multiset(parted, b + 1);
        assert(list.trace() =~= t0 + (first + partition_trace(s0, off) + quick_upto(
            sub_before@,
            off,
            (depth - 1) as nat,
        ).0 + quick_upto(sub_before2@, off + b + 1, (depth - 1) as nat).0));
        assert(fin.subrange(0, b + 1) =~= sub_after@);
        assert(fin.subrange(b + 1, len as int) =~= sub_after2@);
    }
    done2
}


} // verus!
