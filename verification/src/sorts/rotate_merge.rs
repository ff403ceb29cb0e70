use vstd::prelude::*;
use crate::tools::checked_list::{
    CheckedListMut, lemma_extends_refl, lemma_extends_trans, lemma_subwindow, lemma_rotated_whole_rounds,
    rotated, lemma_rotated_permutation, ListAction, rotate_trace,
};
use crate::consts::Num;
use crate::tools::checked_value::{search_answer_ok, search_answer, lemma_search_answer_ok, search_trace};
use crate::tools::seq_facts::{
    permutation, lemma_permutation_splice, lemma_permutation_no_duplicates, lemma_permutation_len,
};

verus! {

/// One pass of the rotation merge sort over a list of length `n`, from
/// position `j` on: each run `j..j + step` (cut at `n`) that is at least
/// `step / 2` long is rotation-merged at `step / 2`; `None` if a merge does
/// not end within `fuel` levels.
pub open spec fn rotate_pass(s: Seq<Num>, n: int, step: int, j: int, fuel: nat) -> Option<Seq<Num>>
    decreases if j < n { n - j } else { 0 },
{
    if step <= 0 {
        None
    } else if j >= n {
        Some(s)
    } else {
        let e = if j + step < n { j + step } else { n };
        let r = if e - j >= step / 2 {
            match rotate_merge_run(s.subrange(j, e), step / 2, fuel) {
                None => None,
                Some(a) => Some(s.subrange(0, j) + a + s.subrange(e, n)),
            }
        } else {
            Some(s)
        };
        match r {
            None => None,
            Some(t) => rotate_pass(t, n, step, j + step, fuel),
        }
    }
}

/// The passes of the rotation merge sort with run widths `step`, `2 * step`,
/// ..., up to the first that exceeds `n`.
pub open spec fn rotate_sort_run(s: Seq<Num>, n: int, step: int, fuel: nat) -> Option<Seq<Num>>
    decreases 2 * n + 2 - step,
{
    if step < 2 || step > 2 * n + 2 {
        None
    } else {
        match rotate_pass(s, n, step, 0, fuel) {
            None => None,
            Some(t) => if step > n {
                Some(t)
            } else {
                rotate_sort_run(t, n, 2 * step, fuel)
            },
        }
    }
}

/// One pass of the rotation merge sort (window starting at `off`) from
/// position `j` on, each merge within `fuel` levels, stopping at once at a
/// merge that does not end: the list after it (where it ended), the actions
/// it reports, and whether it ended.
pub open spec fn rotate_pass_upto(s: Seq<Num>, n: int, step: int, j: int, off: int, fuel: nat) -> (Seq<Num>, Seq<ListAction<Num>>, bool)
    decreases if j < n { n - j } else { 0 },
{
    if step <= 0 {
        (s, Seq::empty(), false)
    } else if j >= n {
        (s, Seq::empty(), true)
    } else {
        let e = if j + step < n { j + step } else { n };
        if e - j >= step / 2 {
            let m = rotate_merge_upto(s.subrange(j, e), step / 2, off + j, fuel);
            if !m.2 {
                (s, m.1, false)
            } else {
                let r = rotate_pass_upto(s.subrange(0, j) + m.0 + s.subrange(e, n), n, step, j + step, off, fuel);
                (r.0, m.1 + r.1, r.2)
            }
        } else {
            rotate_pass_upto(s, n, step, j + step, off, fuel)
        }
    }
}

/// The passes of the rotation merge sort from width `step` on, each merge
/// within `fuel` levels, stopping at once at a merge that does not end.
pub open spec fn rotate_sort_upto(s: Seq<Num>, n: int, step: int, off: int, fuel: nat) -> (Seq<Num>, Seq<ListAction<Num>>, bool)
    decreases 2 * n + 2 - step,
{
    if step < 2 || step > 2 * n + 2 {
        (s, Seq::empty(), false)
    } else {
        let p = rotate_pass_upto(s, n, step, 0, off, fuel);
        if !p.2 || step > n {
            p
        } else {
            let r = rotate_sort_upto(p.0, n, 2 * step, off, fuel);
            (r.0, p.1 + r.1, r.2)
        }
    }
}

/// The actions the rotation merge sort reports on `s` (a window that
/// starts at `off`), where it ends.
pub open spec fn rotate_merge_sort_trace(s: Seq<Num>, off: int) -> Seq<ListAction<Num>> {
    rotate_sort_upto(
        s,
        s.len() as int,
        2,
        off,
        choose|fuel: nat| #[trigger] rotate_sort_run(s, s.len() as int, 2, fuel) is Some,
    ).1
}

/// A bounded pass ends exactly when the pass does, with the same list.
pub proof fn lemma_rotate_pass_upto_run(s: Seq<Num>, n: int, step: int, j: int, off: int, fuel: nat)
    ensures
        rotate_pass_upto(s, n, step, j, off, fuel).2 == (rotate_pass(s, n, step, j, fuel) is Some),
        rotate_pass_upto(s, n, step, j, off, fuel).2 ==> rotate_pass(s, n, step, j, fuel) == Some(
            rotate_pass_upto(s, n, step, j, off, fuel).0,
        ),
    decreases if j < n { n - j } else { 0 },
{
    if step > 0 && j < n {
        let e = if j + step < n { j + step } else { n };
        if e - j >= step / 2 {
            lemma_rotate_merge_upto_run(s.subrange(j, e), step / 2, off + j, fuel);
            let m = rotate_merge_upto(s.subrange(j, e), step / 2, off + j, fuel);
            lemma_rotate_pass_upto_run(s.subrange(0, j) + m.0 + s.subrange(e, n), n, step, j + step, off, fuel);
        } else {
            lemma_rotate_pass_upto_run(s, n, step, j + step, off, fuel);
        }
    }
}

/// The bounded passes end exactly when the passes do, with the same list.
pub proof fn lemma_rotate_sort_upto_run(s: Seq<Num>, n: int, step: int, off: int, fuel: nat)
    ensures
        rotate_sort_upto(s, n, step, off, fuel).2 == (rotate_sort_run(s, n, step, fuel) is Some),
        rotate_sort_upto(s, n, step, off, fuel).2 ==> rotate_sort_run(s, n, step, fuel) == Some(
            rotate_sort_upto(s, n, step, off, fuel).0,
        ),
    decreases 2 * n + 2 - step,
{
    if 2 <= step <= 2 * n + 2 {
        lemma_rotate_pass_upto_run(s, n, step, 0, off, fuel);
        let p = rotate_pass_upto(s, n, step, 0, off, fuel);
        if p.2 && step <= n {
            lemma_rotate_sort_upto_run(p.0, n, 2 * step, off, fuel);
        }
    }
}

/// With more fuel a pass reports the same actions and more, and if it ended,
/// nothing changes.
pub proof fn lemma_rotate_pass_upto_prefix(s: Seq<Num>, n: int, step: int, j: int, off: int, f: nat, g: nat)
    requires
        f <= g,
    ensures
        rotate_pass_upto(s, n, step, j, off, f).1.len() <= rotate_pass_upto(s, n, step, j, off, g).1.len(),
        rotate_pass_upto(s, n, step, j, off, g).1.subrange(0, rotate_pass_upto(s, n, step, j, off, f).1.len() as int)
            == rotate_pass_upto(s, n, step, j, off, f).1,
        rotate_pass_upto(s, n, step, j, off, f).2 ==> rotate_pass_upto(s, n, step, j, off, g)
            == rotate_pass_upto(s, n, step, j, off, f),
    decreases if j < n { n - j } else { 0 },
{
    let tf = rotate_pass_upto(s, n, step, j, off, f).1;
    let tg = rotate_pass_upto(s, n, step, j, off, g).1;
    if step > 0 && j < n {
        let e = if j + step < n { j + step } else { n };
        if e - j >= step / 2 {
            let sub = s.subrange(j, e);
            lemma_rotate_merge_upto_prefix(sub, step / 2, off + j, f, g);
            let mf = rotate_merge_upto(sub, step / 2, off + j, f);
            let mg = rotate_merge_upto(sub, step / 2, off + j, g);
            if mf.2 {
                let t = s.subrange(0, j) + mf.0 + s.subrange(e, n);
                lemma_rotate_pass_upto_prefix(t, n, step, j + step, off, f, g);
                assert(tg.subrange(0, tf.len() as int) =~= tf);
            } else if mg.2 {
                let t = s.subrange(0, j) + mg.0 + s.subrange(e, n);
                assert(tg =~= mg.1 + rotate_pass_upto(t, n, step, j + step, off, g).1);
                assert(tg.subrange(0, tf.len() as int) =~= tf);
            } else {
                assert(tg.subrange(0, tf.len() as int) =~= tf);
            }
        } else {
            lemma_rotate_pass_upto_prefix(s, n, step, j + step, off, f, g);
        }
    } else {
        assert(tg.subrange(0, tf.len() as int) =~= tf);
    }
}

/// With more fuel the passes report the same actions and more, and if they
/// ended, nothing changes.
pub proof fn lemma_rotate_sort_upto_prefix(s: Seq<Num>, n: int, step: int, off: int, f: nat, g: nat)
    requires
        f <= g,
    ensures
        rotate_sort_upto(s, n, step, off, f).1.len() <= rotate_sort_upto(s, n, step, off, g).1.len(),
        rotate_sort_upto(s, n, step, off, g).1.subrange(0, rotate_sort_upto(s, n, step, off, f).1.len() as int)
            == rotate_sort_upto(s, n, step, off, f).1,
        rotate_sort_upto(s, n, step, off, f).2 ==> rotate_sort_upto(s, n, step, off, g)
            == rotate_sort_upto(s, n, step, off, f),
    decreases 2 * n + 2 - step,
{
    let tf = rotate_sort_upto(s, n, step, off, f).1;
    let tg = rotate_sort_upto(s, n, step, off, g).1;
    if 2 <= step <= 2 * n + 2 {
        lemma_rotate_pass_upto_prefix(s, n, step, 0, off, f, g);
        let pf = rotate_pass_upto(s, n, step, 0, off, f);
        let pg = rotate_pass_upto(s, n, step, 0, off, g);
        if step <= n {
            if pf.2 {
                lemma_rotate_sort_upto_prefix(pf.0, n, 2 * step, off, f, g);
                assert(tg.subrange(0, tf.len() as int) =~= tf);
            } else if pg.2 {
                assert(tg =~= pg.1 + rotate_sort_upto(pg.0, n, 2 * step, off, g).1);
                assert(tg.subrange(0, tf.len() as int) =~= tf);
            } else {
            }
        }
    } else {
        assert(tg.subrange(0, tf.len() as int) =~= tf);
    }
}

/// Every merge of the rotation merge sort of `s` ends.
pub open spec fn rotate_merge_sort_ends(s: Seq<Num>) -> bool {
    exists|fuel: nat| #[trigger] rotate_sort_run(s, s.len() as int, 2, fuel) is Some
}

/// What the rotation merge sort leaves of `s`, where it ends.
pub open spec fn rotate_merge_sort_result(s: Seq<Num>) -> Seq<Num> {
    match rotate_sort_run(
        s,
        s.len() as int,
        2,
        choose|fuel: nat| #[trigger] rotate_sort_run(s, s.len() as int, 2, fuel) is Some,
    ) {
        Some(r) => r,
        None => s,
    }
}

/// More fuel than a pass needs changes nothing.
pub proof fn lemma_rotate_pass_fuel(s: Seq<Num>, n: int, step: int, j: int, f: nat, g: nat)
    requires
        f <= g,
        rotate_pass(s, n, step, j, f) is Some,
    ensures
        rotate_pass(s, n, step, j, g) == rotate_pass(s, n, step, j, f),
    decreases if j < n { n - j } else { 0 },
{
    if step > 0 && j < n {
        let e = if j + step < n { j + step } else { n };
        if e - j >= step / 2 {
            lemma_rotate_merge_fuel(s.subrange(j, e), step / 2, f, g);
            let a = rotate_merge_run(s.subrange(j, e), step / 2, f)->0;
            lemma_rotate_pass_fuel(s.subrange(0, j) + a + s.subrange(e, n), n, step, j + step, f, g);
        } else {
            lemma_rotate_pass_fuel(s, n, step, j + step, f, g);
        }
    }
}

/// More fuel than the passes need changes nothing.
pub proof fn lemma_rotate_sort_fuel(s: Seq<Num>, n: int, step: int, f: nat, g: nat)
    requires
        f <= g,
        rotate_sort_run(s, n, step, f) is Some,
    ensures
        rotate_sort_run(s, n, step, g) == rotate_sort_run(s, n, step, f),
    decreases 2 * n + 2 - step,
{
    lemma_rotate_pass_fuel(s, n, step, 0, f, g);
    if step <= n {
        let t = rotate_pass(s, n, step, 0, f)->0;
        lemma_rotate_sort_fuel(t, n, 2 * step, f, g);
    }
}

/// Bottom-up rotation merge sort: rotation-merge neighbouring runs of width
/// 1, 2, 4, ... until one run covers the list.
///
/// A merge may never end on a list with a repeated value, so each goes at
/// most `depth` levels of calls deep, and the sort stops at once at one
/// that does not end, saying whether it ended (`rotate_sort_upto`). Where
/// every merge ends (`rotate_merge_sort_ends`), enough depth lets it, and
/// the result is `rotate_merge_sort_result`, a permutation of the list; the
/// merge step does not sort in general, so neither does this. The list's
/// length is bounded as that of any list of `Num`s in memory is.
#[verifier::rlimit(100)]
#[verifier::spinoff_prover]
pub fn rotate_merge_sort(list: &mut CheckedListMut, depth: u64) -> (done: bool)
    requires
        old(list).wf(),
        old(list)@.len() <= usize::MAX / 4,
    ensures
        final(list).wf(),
        final(list).extends(old(list)),
        permutation(final(list)@, old(list)@),
        done == rotate_sort_upto(old(list)@, old(list)@.len() as int, 2, old(list).lo() as int, depth as nat).2,
        final(list).trace() == old(list).trace() + rotate_sort_upto(
            old(list)@,
            old(list)@.len() as int,
            2,
            old(list).lo() as int,
            depth as nat,
        ).1,
        done ==> final(list)@ == rotate_sort_upto(
            old(list)@,
            old(list)@.len() as int,
            2,
            old(list).lo() as int,
            depth as nat,
        ).0,
        done == (rotate_sort_run(old(list)@, old(list)@.len() as int, 2, depth as nat) is Some),
        done ==> final(list)@ == rotate_merge_sort_result(old(list)@),
        done ==> final(list).trace() == old(list).trace() + rotate_merge_sort_trace(old(list)@, old(list).lo() as int),
{
    let len = list.len();
    let ghost n = len as int;
    let ghost off = old(list).lo() as int;
    let ghost fuel = depth as nat;
    let ghost goal = rotate_sort_upto(list@, n, 2, off, fuel);
    let ghost t0 = old(list).trace();
    let mut step: usize = 2;
    proof {
        lemma_extends_refl(list);
        assert(list.trace() + goal.1 == t0 + goal.1);
    }
    loop
        invariant_except_break
            list.trace() + rotate_sort_upto(list@, n, step as int, off, fuel).1 == t0 + goal.1,
            rotate_sort_upto(list@, n, step as int, off, fuel).2 == goal.2,
            goal.2 ==> rotate_sort_upto(list@, n, step as int, off, fuel).0 == goal.0,
        invariant
            list.lo() == off,
            list.wf(),
            list.extends(old(list)),
            permutation(list@, old(list)@),
            list@.len() == len,
            n == len,
            fuel == depth,
            len <= usize::MAX / 4,
            2 <= step <= 2 * len + 2,
            goal == rotate_sort_upto(old(list)@, n, 2, off, fuel),
            t0 == old(list).trace(),
            off == old(list).lo(),
        ensures
            goal.2,
            goal.0 == list@,
            list.trace() == t0 + goal.1,
        decreases 2 * len + 2 - step,
    {
        let ghost pass_start = list@;
        let ghost pre = list.trace();
        let ghost pass = rotate_pass_upto(pass_start, n, step as int, 0, off, fuel);
        let mut j: usize = 0;
        while j < len
            invariant
                list.wf(),
                list.extends(old(list)),
                permutation(list@, old(list)@),
                list@.len() == len,
                n == len,
                fuel == depth,
                len <= usize::MAX / 4,
                2 <= step <= 2 * len + 2,
                j < len + step,
                list.lo() == off,
                pass == rotate_pass_upto(pass_start, n, step as int, 0, off, fuel),
                list.trace() + rotate_pass_upto(list@, n, step as int, j as int, off, fuel).1 == pre + pass.1,
                rotate_pass_upto(list@, n, step as int, j as int, off, fuel).2 == pass.2,
                pass.2 ==> rotate_pass_upto(list@, n, step as int, j as int, off, fuel).0 == pass.0,
                pre + rotate_sort_upto(pass_start, n, step as int, off, fuel).1 == t0 + goal.1,
                rotate_sort_upto(pass_start, n, step as int, off, fuel).2 == goal.2,
                goal == rotate_sort_upto(old(list)@, n, 2, off, fuel),
                t0 == old(list).trace(),
                off == old(list).lo(),
            decreases len + step - j,
        {
            let e = if j + step < len {
                j + step
            } else {
                len
            };
            if e - j >= step / 2 {
                let ghost parent = *list;
                let prev = list.slice(j, e);
                let ghost sub_before = *list;
                proof {
                    assert(sub_before@ =~= parent@.subrange(j as int, e as int));
                }
                let merged = rotate_merge_sublists(list, step / 2, depth);
                let ghost sub_after = *list;
                list.restore(prev);
                proof {
                    lemma_subwindow(&parent, &sub_before, &sub_after, list, j as int, e as int);
                    lemma_extends_trans(list, &parent, old(list));
                    lemma_permutation_splice(parent@, sub_after@, j as int, e as int);
                    let m = rotate_merge_upto(sub_before@, (step / 2) as int, off + j, fuel);
                    if merged {
                        assert(list@ =~= parent@.subrange(0, j as int) + m.0 + parent@.subrange(e as int, n));
                        let rest = rotate_pass_upto(list@, n, step as int, j + step, off, fuel);
                        assert(rotate_pass_upto(parent@, n, step as int, j as int, off, fuel) == (rest.0, m.1 + rest.1, rest.2));
                        assert(list.trace() + rest.1 =~= parent.trace() + (m.1 + rest.1));
                    } else {
                        assert(rotate_pass_upto(parent@, n, step as int, j as int, off, fuel) == (parent@, m.1, false));
                        assert(list.trace() =~= pre + pass.1);
                        assert(!pass.2);
                        assert(rotate_sort_upto(pass_start, n, step as int, off, fuel) == pass);
                        assert(!goal.2);
                        assert(list.trace() =~= t0 + goal.1);
                        lemma_rotate_sort_upto_run(old(list)@, n, 2, off, fuel);
                    }
                }
                if !merged {
                    return false;
                }
            }
            j = j + step;
        }
        proof {
            assert(rotate_pass_upto(list@, n, step as int, j as int, off, fuel) == (list@, Seq::<ListAction<Num>>::empty(), true));
            assert(list.trace() =~= pre + pass.1);
            assert(pass.2);
            assert(pass.0 == list@);
        }
        if step > len {
            proof {
                assert(rotate_sort_upto(pass_start, n, step as int, off, fuel) == pass);
            }
            break;
        }
        proof {
            let r = rotate_sort_upto(list@, n, 2 * step, off, fuel);
            assert(rotate_sort_upto(pass_start, n, step as int, off, fuel) == (r.0, pass.1 + r.1, r.2));
            assert(list.trace() + r.1 =~= pre + (pass.1 + r.1));
        }
        step = step * 2;
    }
    proof {
        lemma_rotate_sort_upto_run(old(list)@, n, 2, off, fuel);
        let c = choose|f: nat| #[trigger] rotate_sort_run(old(list)@, n, 2, f) is Some;
        lemma_rotate_sort_upto_run(old(list)@, n, 2, off, c);
        if c <= fuel {
            lemma_rotate_sort_fuel(old(list)@, n, 2, c, fuel);
            lemma_rotate_sort_upto_prefix(old(list)@, n, 2, off, c, fuel);
        } else {
            lemma_rotate_sort_fuel(old(list)@, n, 2, fuel, c);
            lemma_rotate_sort_upto_prefix(old(list)@, n, 2, off, fuel, c);
        }
    }
    true
}

/// What shrinks, after the window's length, from a merge call to the calls it makes.
pub open spec fn rotate_measure(len: nat, mid: nat) -> nat {
    if mid == 0 || mid >= len {
        0
    } else {
        (len - mid + 1) as nat
    }
}

/// The position a binary search answer names, found or not.
pub open spec fn answer_position(r: Result<usize, usize>) -> usize {
    match r {
        Ok(x) => x,
        Err(x) => x,
    }
}

/// The window after the rotation merge of its parts `0..mid` and `mid..`,
/// when the merge ends within `fuel` levels of calls (`None` otherwise):
/// `i1` is the middle of the first part, `i2` where the search puts its
/// value in the second part; the stretch `i1..i2` is rotated left by
/// `mid - i1`; `split` is where the search puts the entry at `i2` (the
/// last entry, if `i2` is the end) in the stretch `i1..i2`; then the part
/// before `split` is merged at `i1`, and the part from `split` at `i2`.
pub open spec fn rotate_merge_run(s: Seq<Num>, mid: int, fuel: nat) -> Option<Seq<Num>>
    decreases fuel,
{
    let n = s.len() as int;
    if n < 2 || n <= mid || mid == 0 {
        Some(s)
    } else if fuel == 0 {
        None
    } else {
        let i1 = mid / 2;
        let i2 = answer_position(search_answer(s.subrange(mid, n), s[i1])) + mid;
        let s1 = s.subrange(0, i1) + rotated(s.subrange(i1, i2), mid - i1) + s.subrange(i2, n);
        let si = if i2 == n { i2 - 1 } else { i2 };
        let split = answer_position(search_answer(s1.subrange(i1, i2), s1[si])) as int;
        match rotate_merge_run(s1.subrange(0, split), i1, (fuel - 1) as nat) {
            None => None,
            Some(a) => {
                let s2 = a + s1.subrange(split, n);
                match rotate_merge_run(s2.subrange(split, n), i2, (fuel - 1) as nat) {
                    None => None,
                    Some(b) => Some(s2.subrange(0, split) + b),
                }
            },
        }
    }
}

/// The rotation merge of `s` at `mid` ends.
pub open spec fn rotate_merge_ends(s: Seq<Num>, mid: int) -> bool {
    exists|fuel: nat| #[trigger] rotate_merge_run(s, mid, fuel) is Some
}

/// What the rotation merge of `s` at `mid` leaves, where it ends.
pub open spec fn rotate_merge_result(s: Seq<Num>, mid: int) -> Seq<Num> {
    match rotate_merge_run(s, mid, choose|fuel: nat| #[trigger] rotate_merge_run(s, mid, fuel) is Some) {
        Some(r) => r,
        None => s,
    }
}

/// The actions of the rotation merge of `s` (a window that starts at
/// `off`) at `mid` within `fuel` levels: the search for the middle value of
/// the first part in the second, the rotation, the search that finds the
/// split, then the merges of the two sides.
pub open spec fn rotate_merge_trace_run(s: Seq<Num>, mid: int, off: int, fuel: nat) -> Seq<ListAction<Num>>
    decreases fuel,
{
    let n = s.len() as int;
    if n < 2 || n <= mid || mid == 0 || fuel == 0 {
        Seq::empty()
    } else {
        let i1 = mid / 2;
        let i2 = answer_position(search_answer(s.subrange(mid, n), s[i1])) + mid;
        let s1 = s.subrange(0, i1) + rotated(s.subrange(i1, i2), mid - i1) + s.subrange(i2, n);
        let si = if i2 == n { i2 - 1 } else { i2 };
        let split = answer_position(search_answer(s1.subrange(i1, i2), s1[si])) as int;
        let first = s1.subrange(0, split);
        let a = match rotate_merge_run(first, i1, (fuel - 1) as nat) {
            Some(a) => a,
            None => first,
        };
        let s2 = a + s1.subrange(split, n);
        search_trace(s.subrange(mid, n), s[i1], off + mid, Some((off + i1) as usize)) + rotate_trace(
            i2 - i1,
            mid - i1,
            off + i1,
        ) + search_trace(s1.subrange(i1, i2), s1[si], off + i1, Some((off + si) as usize))
            + rotate_merge_trace_run(first, i1, off, (fuel - 1) as nat) + rotate_merge_trace_run(
            s2.subrange(split, n),
            i2,
            off + split,
            (fuel - 1) as nat,
        )
    }
}

/// The actions of the rotation merge of `s` at `mid`, where it ends.
pub open spec fn rotate_merge_trace(s: Seq<Num>, mid: int, off: int) -> Seq<ListAction<Num>> {
    rotate_merge_trace_run(s, mid, off, choose|fuel: nat| #[trigger] rotate_merge_run(s, mid, fuel) is Some)
}

/// The rotation merge of `s` (a window that starts at `off`) at `mid`
/// within `fuel` levels of calls, stopping at once when out of fuel or when
/// the merge of the first side did not end: the list after it (where it
/// ended), the actions it reports, and whether it ended.
pub open spec fn rotate_merge_upto(s: Seq<Num>, mid: int, off: int, fuel: nat) -> (Seq<Num>, Seq<ListAction<Num>>, bool)
    decreases fuel,
{
    let n = s.len() as int;
    if n < 2 || n <= mid || mid == 0 {
        (s, Seq::empty(), true)
    } else if fuel == 0 {
        (s, Seq::empty(), false)
    } else {
        let i1 = mid / 2;
        let i2 = answer_position(search_answer(s.subrange(mid, n), s[i1])) + mid;
        let s1 = s.subrange(0, i1) + rotated(s.subrange(i1, i2), mid - i1) + s.subrange(i2, n);
        let si = if i2 == n { i2 - 1 } else { i2 };
        let split = answer_position(search_answer(s1.subrange(i1, i2), s1[si])) as int;
        let front = search_trace(s.subrange(mid, n), s[i1], off + mid, Some((off + i1) as usize))
            + rotate_trace(i2 - i1, mid - i1, off + i1) + search_trace(
            s1.subrange(i1, i2),
            s1[si],
            off + i1,
            Some((off + si) as usize),
        );
        let l = rotate_merge_upto(s1.subrange(0, split), i1, off, (fuel - 1) as nat);
        if !l.2 {
            (s1, front + l.1, false)
        } else {
            let s2 = l.0 + s1.subrange(split, n);
            let r = rotate_merge_upto(s2.subrange(split, n), i2, off + split, (fuel - 1) as nat);
            (s2.subrange(0, split) + r.0, front + l.1 + r.1, r.2)
        }
    }
}

/// The bounded merge ends exactly when the run does, and then gives the
/// run's list and actions.
pub proof fn lemma_rotate_merge_upto_run(s: Seq<Num>, mid: int, off: int, fuel: nat)
    ensures
        rotate_merge_upto(s, mid, off, fuel).2 == (rotate_merge_run(s, mid, fuel) is Some),
        rotate_merge_upto(s, mid, off, fuel).2 ==> rotate_merge_run(s, mid, fuel) == Some(
            rotate_merge_upto(s, mid, off, fuel).0,
        ) && rotate_merge_upto(s, mid, off, fuel).1 == rotate_merge_trace_run(s, mid, off, fuel),
    decreases fuel,
{
    let n = s.len() as int;
    if n < 2 || n <= mid || mid == 0 || fuel == 0 {
    } else {
        let i1 = mid / 2;
        let i2 = answer_position(search_answer(s.subrange(mid, n), s[i1])) + mid;
        let s1 = s.subrange(0, i1) + rotated(s.subrange(i1, i2), mid - i1) + s.subrange(i2, n);
        let si = if i2 == n { i2 - 1 } else { i2 };
        let split = answer_position(search_answer(s1.subrange(i1, i2), s1[si])) as int;
        lemma_rotate_merge_upto_run(s1.subrange(0, split), i1, off, (fuel - 1) as nat);
        let l = rotate_merge_upto(s1.subrange(0, split), i1, off, (fuel - 1) as nat);
        let s2 = l.0 + s1.subrange(split, n);
        lemma_rotate_merge_upto_run(s2.subrange(split, n), i2, off + split, (fuel - 1) as nat);
    }
}

/// With more fuel the bounded merge reports the same actions and more, and
/// if it ended, nothing changes.
pub proof fn lemma_rotate_merge_upto_prefix(s: Seq<Num>, mid: int, off: int, f: nat, g: nat)
    requires
        f <= g,
    ensures
        rotate_merge_upto(s, mid, off, f).1.len() <= rotate_merge_upto(s, mid, off, g).1.len(),
        rotate_merge_upto(s, mid, off, g).1.subrange(0, rotate_merge_upto(s, mid, off, f).1.len() as int)
            == rotate_merge_upto(s, mid, off, f).1,
        rotate_merge_upto(s, mid, off, f).2 ==> rotate_merge_upto(s, mid, off, g) == rotate_merge_upto(s, mid, off, f),
    decreases f,
{
    let n = s.len() as int;
    let tf = rotate_merge_upto(s, mid, off, f).1;
    let tg = rotate_merge_upto(s, mid, off, g).1;
    if n < 2 || n <= mid || mid == 0 || f == 0 {
        assert(tg.subrange(0, tf.len() as int) =~= tf);
    } else {
        let i1 = mid / 2;
        let i2 = answer_position(search_answer(s.subrange(mid, n), s[i1])) + mid;
        let s1 = s.subrange(0, i1) + rotated(s.subrange(i1, i2), mid - i1) + s.subrange(i2, n);
        let si = if i2 == n { i2 - 1 } else { i2 };
        let split = answer_position(search_answer(s1.subrange(i1, i2), s1[si])) as int;
        let first = s1.subrange(0, split);
        lemma_rotate_merge_upto_prefix(first, i1, off, (f - 1) as nat, (g - 1) as nat);
        let lf = rotate_merge_upto(first, i1, off, (f - 1) as nat);
        let lg = rotate_merge_upto(first, i1, off, (g - 1) as nat);
        if lf.2 {
            let s2 = lf.0 + s1.subrange(split, n);
            lemma_rotate_merge_upto_prefix(s2.subrange(split, n), i2, off + split, (f - 1) as nat, (g - 1) as nat);
            assert(tg.subrange(0, tf.len() as int) =~= tf);
        } else {
            assert(tg.subrange(0, tf.len() as int) =~= tf);
        }
    }
}

/// More fuel than a run needs changes nothing.
pub proof fn lemma_rotate_merge_fuel(s: Seq<Num>, mid: int, f: nat, g: nat)
    requires
        f <= g,
        rotate_merge_run(s, mid, f) is Some,
    ensures
        rotate_merge_run(s, mid, g) == rotate_merge_run(s, mid, f),
    decreases f,
{
    let n = s.len() as int;
    if n < 2 || n <= mid || mid == 0 {
    } else {
        let i1 = mid / 2;
        let i2 = answer_position(search_answer(s.subrange(mid, n), s[i1])) + mid;
        let s1 = s.subrange(0, i1) + rotated(s.subrange(i1, i2), mid - i1) + s.subrange(i2, n);
        let si = if i2 == n { i2 - 1 } else { i2 };
        let split = answer_position(search_answer(s1.subrange(i1, i2), s1[si])) as int;
        lemma_rotate_merge_fuel(s1.subrange(0, split), i1, (f - 1) as nat, (g - 1) as nat);
        let a = rotate_merge_run(s1.subrange(0, split), i1, (f - 1) as nat)->0;
        let s2 = a + s1.subrange(split, n);
        lemma_rotate_merge_fuel(s2.subrange(split, n), i2, (f - 1) as nat, (g - 1) as nat);
    }
}

/// A run that ends within `f` levels gives the result.
pub proof fn lemma_rotate_merge_result(s: Seq<Num>, mid: int, f: nat)
    requires
        rotate_merge_run(s, mid, f) is Some,
    ensures
        rotate_merge_ends(s, mid),
        rotate_merge_run(s, mid, f) == Some(rotate_merge_result(s, mid)),
{
    let c = choose|fuel: nat| #[trigger] rotate_merge_run(s, mid, fuel) is Some;
    if c <= f {
        lemma_rotate_merge_fuel(s, mid, c, f);
    } else {
        lemma_rotate_merge_fuel(s, mid, f, c);
    }
}

/// Rotates the window positions `start..end` left by `shift` places.
fn rotate_stretch(list: &mut CheckedListMut, start: usize, end: usize, shift: usize)
    requires
        old(list).wf(),
        start < end <= old(list)@.len(),
        shift <= end - start,
        old(list)@.len() <= usize::MAX / 2,
    ensures
        final(list).wf(),
        final(list).extends(old(list)),
        permutation(final(list)@, old(list)@),
        final(list)@.len() == old(list)@.len(),
        shift == end - start ==> final(list)@ == old(list)@,
        final(list)@ == old(list)@.subrange(0, start as int) + rotated(
            old(list)@.subrange(start as int, end as int),
            shift as int,
        ) + old(list)@.subrange(end as int, old(list)@.len() as int),
        final(list).trace() == old(list).trace() + rotate_trace(
            end - start,
            shift as int,
            old(list).lo() + start,
        ),
{
    let ghost s0 = list@;
    let ghost p1 = *list;
    let prev = list.slice(start, end);
    let ghost sb = *list;
    list.rotate_left(shift);
    let ghost sa = *list;
    list.restore(prev);
    proof {
        lemma_subwindow(&p1, &sb, &sa, list, start as int, end as int);
        assert(sb@ =~= s0.subrange(start as int, end as int));
        lemma_permutation_splice(s0, sa@, start as int, end as int);
        if shift == end - start {
            vstd::arithmetic::div_mod::lemma_mod_self_0(shift as int);
            lemma_rotated_whole_rounds(sb@, shift as int);
            assert(list@ =~= s0);
        }
    }
}

/// When the middle value of the first part lies before the whole second
/// part, it is smaller than the second part's first value.
proof fn lemma_first_search_at_start(s0: Seq<Num>, mid: int, index1: int, r1: Result<usize, usize>)
    requires
        s0.no_duplicates(),
        0 <= index1 < mid < s0.len(),
        search_answer_ok(s0.subrange(mid, s0.len() as int), s0[index1], r1),
        answer_position(r1) == 0,
    ensures
        s0[index1] < s0[mid],
{
    let bpart = s0.subrange(mid, s0.len() as int);
    assert(bpart[0] == s0[mid]);
    if r1 is Ok {
        assert(s0[index1] != s0[mid]);
    }
}

/// Then the second part's first value does not lie before the first part's
/// middle value.
proof fn lemma_second_search_not_at_start(s0: Seq<Num>, mid: int, index1: int, r2: Result<usize, usize>)
    requires
        s0.no_duplicates(),
        0 <= index1 < mid < s0.len(),
        s0[index1] < s0[mid],
        search_answer_ok(s0.subrange(index1, mid), s0[mid], r2),
    ensures
        answer_position(r2) > 0,
{
    let apart = s0.subrange(index1, mid);
    assert(apart[0] == s0[index1]);
}

/// On a window without repeated values the rotation merge ends, and leaves
/// a permutation of the window.
#[verifier::rlimit(100)]
#[verifier::spinoff_prover]
pub proof fn lemma_rotate_merge_distinct(s: Seq<Num>, mid: int)
    requires
        s.no_duplicates(),
        s.len() <= usize::MAX / 2,
        mid >= 0,
    ensures
        rotate_merge_ends(s, mid),
        permutation(rotate_merge_result(s, mid), s),
    decreases s.len(), rotate_measure(s.len(), mid as nat),
{
    let n = s.len() as int;
    if n < 2 || n <= mid || mid == 0 {
        lemma_rotate_merge_result(s, mid, 0);
        return;
    }
    let i1 = mid / 2;
    let r1 = search_answer(s.subrange(mid, n), s[i1]);
    lemma_search_answer_ok(s.subrange(mid, n), s[i1]);
    let found = answer_position(r1) as int;
    let i2 = found + mid;
    let stretch = s.subrange(i1, i2);
    lemma_rotated_permutation(stretch, mid - i1);
    let s1 = s.subrange(0, i1) + rotated(stretch, mid - i1) + s.subrange(i2, n);
    lemma_permutation_splice(s, rotated(stretch, mid - i1), i1, i2);
    lemma_permutation_no_duplicates(s, s1);
    let si = if i2 == n { i2 - 1 } else { i2 };
    let r2 = search_answer(s1.subrange(i1, i2), s1[si]);
    lemma_search_answer_ok(s1.subrange(i1, i2), s1[si]);
    let split = answer_position(r2) as int;
    if found == 0 {
        lemma_first_search_at_start(s, mid, i1, r1);
        vstd::arithmetic::div_mod::lemma_mod_self_0(mid - i1);
        lemma_rotated_whole_rounds(stretch, mid - i1);
        assert(s1 =~= s);
        lemma_second_search_not_at_start(s, mid, i1, r2);
    }
    // the first side
    let first = s1.subrange(0, split);
    assert(first.no_duplicates());
    lemma_rotate_merge_distinct(first, i1);
    let a = rotate_merge_result(first, i1);
    let f1 = choose|fuel: nat| #[trigger] rotate_merge_run(first, i1, fuel) is Some;
    lemma_rotate_merge_result(first, i1, f1);
    lemma_permutation_len(a, first);
    let s2 = a + s1.subrange(split, n);
    assert(s1.subrange(0, 0) + a + s1.subrange(split, n) =~= s2);
    lemma_permutation_splice(s1, a, 0, split);
    lemma_permutation_no_duplicates(s1, s2);
    // the second side
    let second = s2.subrange(split, n);
    assert(second.no_duplicates());
    lemma_rotate_merge_distinct(second, i2);
    let b = rotate_merge_result(second, i2);
    let f2 = choose|fuel: nat| #[trigger] rotate_merge_run(second, i2, fuel) is Some;
    lemma_rotate_merge_result(second, i2, f2);
    let f: nat = if f1 <= f2 { f2 } else { f1 };
    lemma_rotate_merge_fuel(first, i1, f1, f);
    lemma_rotate_merge_fuel(second, i2, f2, f);
    assert(s2.subrange(0, split) =~= a);
    assert(rotate_merge_run(s, mid, f + 1) == Some(s2.subrange(0, split) + b));
    lemma_rotate_merge_result(s, mid, f + 1);
    assert(s2.subrange(0, split) + b + s2.subrange(n, n) =~= s2.subrange(0, split) + b);
    lemma_permutation_splice(s2, b, split, n);
}

/// On a list without repeated values a pass ends (within the fuel
/// returned) and leaves a permutation of the list.
proof fn lemma_rotate_pass_distinct(s: Seq<Num>, n: int, step: int, j: int) -> (f: nat)
    requires
        s.no_duplicates(),
        s.len() == n,
        n <= usize::MAX / 4,
        step >= 2,
        j >= 0,
    ensures
        rotate_pass(s, n, step, j, f) is Some,
        permutation(rotate_pass(s, n, step, j, f)->0, s),
    decreases if j < n { n - j } else { 0 },
{
    if j >= n {
        return 0;
    }
    let e = if j + step < n { j + step } else { n };
    if e - j >= step / 2 {
        let sub = s.subrange(j, e);
        assert(sub.no_duplicates());
        lemma_rotate_merge_distinct(sub, step / 2);
        let res = rotate_merge_result(sub, step / 2);
        let f1 = choose|fuel: nat| #[trigger] rotate_merge_run(sub, step / 2, fuel) is Some;
        lemma_rotate_merge_result(sub, step / 2, f1);
        let t = s.subrange(0, j) + res + s.subrange(e, n);
        lemma_permutation_splice(s, res, j, e);
        lemma_permutation_no_duplicates(s, t);
        lemma_permutation_len(t, s);
        let f2 = lemma_rotate_pass_distinct(t, n, step, j + step);
        let f: nat = if f1 <= f2 { f2 } else { f1 };
        lemma_rotate_merge_fuel(sub, step / 2, f1, f);
        lemma_rotate_pass_fuel(t, n, step, j + step, f2, f);
        f
    } else {
        lemma_rotate_pass_distinct(s, n, step, j + step)
    }
}

/// On a list without repeated values the passes from width `step` on end
/// (within the fuel returned) and leave a permutation of the list.
proof fn lemma_rotate_sort_distinct(s: Seq<Num>, n: int, step: int) -> (f: nat)
    requires
        s.no_duplicates(),
        s.len() == n,
        n <= usize::MAX / 4,
        2 <= step <= 2 * n + 2,
    ensures
        rotate_sort_run(s, n, step, f) is Some,
        permutation(rotate_sort_run(s, n, step, f)->0, s),
    decreases 2 * n + 2 - step,
{
    let f1 = lemma_rotate_pass_distinct(s, n, step, 0);
    let t = rotate_pass(s, n, step, 0, f1)->0;
    if step > n {
        return f1;
    }
    lemma_permutation_no_duplicates(s, t);
    lemma_permutation_len(t, s);
    let f2 = lemma_rotate_sort_distinct(t, n, 2 * step);
    let f: nat = if f1 <= f2 { f2 } else { f1 };
    lemma_rotate_pass_fuel(s, n, step, 0, f1, f);
    lemma_rotate_sort_fuel(t, n, 2 * step, f2, f);
    f
}

/// On a list without repeated values every merge of the rotation merge
/// sort ends.
pub proof fn lemma_rotate_merge_sort_distinct(s: Seq<Num>)
    requires
        s.no_duplicates(),
        s.len() <= usize::MAX / 4,
    ensures
        rotate_merge_sort_ends(s),
{
    let f = lemma_rotate_sort_distinct(s, s.len() as int, 2);
}

/// Rotation merge of the window's parts `0..mid` and `mid..`: find where
/// the middle value of the first part falls in the second, rotate the stretch
/// between them so that it comes after, and treat the two sides the same way
/// (see `rotate_merge_upto`).
///
/// On some windows with a repeated value, such as `[1, 1]` at 1, a step
/// does not shrink the problem and the merge never ends; so it goes at most
/// `depth` levels of calls deep and says whether it ended. Where it ends
/// (`rotate_merge_ends`), enough depth lets it, and the result is
/// `rotate_merge_result`, a permutation of the window that is not sorted in
/// general. The window's length is bounded as that of any list of `Num`s in
/// memory is.
pub fn rotate_merge_sublists(list: &mut CheckedListMut, mid: usize, depth: u64) -> (done: bool)
    requires
        old(list).wf(),
        old(list)@.len() <= usize::MAX / 2,
    ensures
        final(list).wf(),
        final(list).extends(old(list)),
        permutation(final(list)@, old(list)@),
        done == rotate_merge_upto(old(list)@, mid as int, old(list).lo() as int, depth as nat).2,
        final(list).trace() == old(list).trace() + rotate_merge_upto(
            old(list)@,
            mid as int,
            old(list).lo() as int,
            depth as nat,
        ).1,
        done ==> final(list)@ == rotate_merge_upto(old(list)@, mid as int, old(list).lo() as int, depth as nat).0,
        done == (rotate_merge_run(old(list)@, mid as int, depth as nat) is Some),
        done ==> final(list)@ == rotate_merge_result(old(list)@, mid as int),
        done ==> final(list).trace() == old(list).trace() + rotate_merge_trace(
            old(list)@,
            mid as int,
            old(list).lo() as int,
        ),
{
    let ghost s0 = list@;
    let ghost off0 = old(list).lo() as int;
    let done = merge_within(list, mid, depth);
    proof {
        lemma_rotate_merge_upto_run(s0, mid as int, off0, depth as nat);
        if done {
            lemma_rotate_merge_result(s0, mid as int, depth as nat);
            let c = choose|f: nat| #[trigger] rotate_merge_run(s0, mid as int, f) is Some;
            lemma_rotate_merge_upto_run(s0, mid as int, off0, c);
            if c <= depth {
                lemma_rotate_merge_upto_prefix(s0, mid as int, off0, c, depth as nat);
            } else {
                lemma_rotate_merge_upto_prefix(s0, mid as int, off0, depth as nat, c);
            }
        }
    }
    done
}

/// The first half of a rotation merge step on a window whose parts are
/// `0..mid` and `mid..`: the search for the middle value `index1` of the
/// first part in the second (`index2`), the rotation of `index1..index2`,
/// and the search that finds the split. Returns the three positions.
fn merge_front(list: &mut CheckedListMut, mid: usize) -> (res: (usize, usize, usize))
    requires
        old(list).wf(),
        2 <= old(list)@.len(),
        0 < mid < old(list)@.len(),
        old(list)@.len() <= usize::MAX / 2,
    ensures
        final(list).wf(),
        final(list).extends(old(list)),
        permutation(final(list)@, old(list)@),
        ({
            let s = old(list)@;
            let n = s.len() as int;
            let off = old(list).lo() as int;
            let i1 = mid / 2;
            let i2 = answer_position(search_answer(s.subrange(mid as int, n), s[i1 as int])) + mid;
            let s1 = s.subrange(0, i1 as int) + rotated(s.subrange(i1 as int, i2), mid - i1) + s.subrange(i2, n);
            let si = if i2 == n { i2 - 1 } else { i2 };
            let split = answer_position(search_answer(s1.subrange(i1 as int, i2), s1[si])) as int;
            &&& res.0 == i1
            &&& res.1 == i2
            &&& res.2 == split
            &&& mid <= i2 <= n
            &&& split <= i2 - i1
            &&& final(list)@ == s1
            &&& final(list).trace() == old(list).trace() + search_trace(
                s.subrange(mid as int, n),
                s[i1 as int],
                off + mid,
                Some((off + i1) as usize),
            ) + rotate_trace(i2 - i1, mid - i1, off + i1) + search_trace(
                s1.subrange(i1 as int, i2),
                s1[si],
                off + i1,
                Some((off + si) as usize),
            )
        }),
{
    let len = list.len();
    proof {
        lemma_extends_refl(list);
    }
    let ghost s0 = list@;
    let index1 = mid / 2;
    let item1 = list.index(index1);
    let ghost b0 = *list;
    let r1 = list.cval_binary_search(mid, len, &item1);
    proof {
        lemma_extends_trans(list, &b0, old(list));
        assert(list@ == s0);
    }
    let found = match r1 {
        Ok(x) => x,
        Err(x) => x,
    };
    proof {
        assert(search_answer_ok(s0.subrange(mid as int, len as int), item1.value, r1));
        assert(found <= len - mid);
    }
    let index2 = found + mid;
    // rotate the stretch index1..index2 left by mid - index1
    let ghost p1 = *list;
    rotate_stretch(list, index1, index2, mid - index1);
    proof {
        lemma_extends_trans(list, &p1, old(list));
    }
    let ghost s1 = list@;
    let search_index = if index2 == len {
        index2 - 1
    } else {
        index2
    };
    let item2 = list.index(search_index);
    let ghost b1 = *list;
    let r2 = list.cval_binary_search(index1, index2, &item2);
    proof {
        lemma_extends_trans(list, &b1, old(list));
        assert(list@ == s1);
    }
    let split_index = match r2 {
        Ok(x) => x,
        Err(x) => x,
    };
    proof {
        assert(answer_position(r1) == found);
        assert(answer_position(r2) == split_index);
        assert(split_index <= index2 - index1);
    }
    proof {
        lemma_permutation_len(s1, s0);
    }
    (index1, index2, split_index)
}

/// Rotation-merges the stretch `start..end` of the window at `mid` (within
/// `depth` levels), leaving the rest as it is.
fn merge_side(list: &mut CheckedListMut, start: usize, end: usize, mid: usize, depth: u64) -> (done: bool)
    requires
        old(list).wf(),
        start <= end <= old(list)@.len(),
        old(list)@.len() <= usize::MAX / 2,
    ensures
        final(list).wf(),
        final(list).extends(old(list)),
        permutation(final(list)@, old(list)@),
        done == rotate_merge_upto(old(list)@.subrange(start as int, end as int), mid as int, old(list).lo() + start, depth as nat).2,
        done ==> final(list)@ == old(list)@.subrange(0, start as int) + rotate_merge_upto(
            old(list)@.subrange(start as int, end as int),
            mid as int,
            old(list).lo() + start,
            depth as nat,
        ).0 + old(list)@.subrange(end as int, old(list)@.len() as int),
        final(list).trace() == old(list).trace() + rotate_merge_upto(
            old(list)@.subrange(start as int, end as int),
            mid as int,
            old(list).lo() + start,
            depth as nat,
        ).1,
    decreases depth, 2nat,
{
    let ghost p = *list;
    let prev = list.slice(start, end);
    let ghost sb = *list;
    proof {
        assert(sb@ =~= p@.subrange(start as int, end as int));
    }
    let done = merge_within(list, mid, depth);
    let ghost sa = *list;
    list.restore(prev);
    proof {
        lemma_subwindow(&p, &sb, &sa, list, start as int, end as int);
        lemma_permutation_splice(p@, sa@, start as int, end as int);
    }
    done
}

/// `rotate_merge_sublists` without the link to `rotate_merge_run`.
#[verifier::rlimit(100)]
#[verifier::spinoff_prover]
fn merge_within(list: &mut CheckedListMut, mid: usize, depth: u64) -> (done: bool)
    requires
        old(list).wf(),
        old(list)@.len() <= usize::MAX / 2,
    ensures
        final(list).wf(),
        final(list).extends(old(list)),
        permutation(final(list)@, old(list)@),
        done == rotate_merge_upto(old(list)@, mid as int, old(list).lo() as int, depth as nat).2,
        done ==> final(list)@ == rotate_merge_upto(old(list)@, mid as int, old(list).lo() as int, depth as nat).0,
        final(list).trace() == old(list).trace() + rotate_merge_upto(
            old(list)@,
            mid as int,
            old(list).lo() as int,
            depth as nat,
        ).1,
    decreases depth, 1nat,
{
    let len = list.len();
    let ghost off = old(list).lo() as int;
    let ghost t0 = old(list).trace();
    proof {
        lemma_extends_refl(list);
    }
    if len < 2 || len <= mid || mid == 0 {
        proof {
            assert(list.trace() =~= t0 + Seq::<ListAction<Num>>::empty());
        }
        return true;
    }
    if depth == 0 {
        proof {
            assert(list.trace() =~= t0 + Seq::<ListAction<Num>>::empty());
        }
        return false;
    }
    let ghost s0 = list@;
    let (index1, index2, split_index) = merge_front(list, mid);
    let ghost s1 = list@;
    let ghost tf = list.trace();
    // the first side
    let ghost q1 = *list;
    let done1 = merge_side(list, 0, split_index, index1, depth - 1);
    proof {
        lemma_extends_trans(list, &q1, old(list));
    }
    if !done1 {
        proof {
            assert(list.trace() =~= tf + rotate_merge_upto(
                s1.subrange(0, split_index as int),
                index1 as int,
                off,
                (depth - 1) as nat,
            ).1);
        }
        return false;
    }
    let ghost s2 = list@;
    let ghost q2 = *list;
    // the second side
    let done2 = merge_side(list, split_index, len, index2, depth - 1);
    proof {
        lemma_extends_trans(list, &q2, old(list));
        let a = rotate_merge_upto(s1.subrange(0, split_index as int), index1 as int, off, (depth - 1) as nat).0;
        assert(s2 =~= a + s1.subrange(split_index as int, len as int));
        assert(s2.subrange(0, split_index as int) =~= a);
        let b = rotate_merge_upto(s2.subrange(split_index as int, len as int), index2 as int, off + split_index, (depth - 1) as nat).0;
        if done2 {
            assert(list@ =~= s2.subrange(0, split_index as int) + b);
        }
        assert(list.trace() =~= tf + (rotate_merge_upto(
            s1.subrange(0, split_index as int),
            index1 as int,
            off,
            (depth - 1) as nat,
        ).1 + rotate_merge_upto(
            s2.subrange(split_index as int, len as int),
            index2 as int,
            off + split_index,
            (depth - 1) as nat,
        ).1));
    }
    done2
}

} // verus!
