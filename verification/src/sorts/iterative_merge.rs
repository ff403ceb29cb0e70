use vstd::prelude::*;
use crate::tools::checked_list::{CheckedListMut, ListAction, lemma_extends_refl, lemma_extends_trans, lemma_subwindow};
use crate::consts::Num;
use crate::tools::checked_value::CheckedValue;
use crate::tools::seq_facts::{
    sorted, permutation, min_int, runs_sorted, reaches, lemma_reaches_step, lemma_runs_width_one,
    lemma_runs_frame, lemma_runs_extend, lemma_split_multiset, merge, lemma_merge_permutation,
};
use vstd::arithmetic::power2::{pow2, lemma_pow2_pos, lemma_pow2_unfold, lemma_pow2_strictly_increases};
use crate::sorts::merge::{merge_sublists, merge_trace, merge_compares, merge_count, lemma_merge_count_bound};

verus! {

/// One pass of the bottom-up merge sort over a list of length `n` whose
/// window starts at `off`, from position `j` on: each run `j..j + step`
/// (cut at `n`) that is at least `step / 2` long has its halves merged at
/// `step / 2`. Gives the list after it and the actions it reports.
pub open spec fn merge_pass(s: Seq<Num>, n: int, step: int, j: int, off: int) -> (Seq<Num>, Seq<ListAction<Num>>)
    decreases if j < n { n - j } else { 0 },
{
    if step <= 0 || j >= n {
        (s, Seq::empty())
    } else {
        let e = if j + step < n { j + step } else { n };
        let h = step / 2;
        if e - j >= h {
            let sub = s.subrange(j, e);
            let t = s.subrange(0, j) + merge(sub.subrange(0, h), sub.subrange(h, e - j)) + s.subrange(e, n);
            let r = merge_pass(t, n, step, j + step, off);
            (r.0, merge_trace(sub, h, off + j) + r.1)
        } else {
            merge_pass(s, n, step, j + step, off)
        }
    }
}

/// The passes of the bottom-up merge sort with run widths `step`,
/// `2 * step`, ..., up to the first that exceeds `n`.
pub open spec fn merge_passes(s: Seq<Num>, n: int, step: int, off: int) -> (Seq<Num>, Seq<ListAction<Num>>)
    decreases 2 * n + 2 - step,
{
    if step < 2 || step > 2 * n + 2 {
        (s, Seq::empty())
    } else {
        let p = merge_pass(s, n, step, 0, off);
        if step > n {
            p
        } else {
            let r = merge_passes(p.0, n, 2 * step, off);
            (r.0, p.1 + r.1)
        }
    }
}

/// The actions the bottom-up merge sort reports on a window `s` that starts
/// at `off`.
pub open spec fn iterative_merge_trace(s: Seq<Num>, off: int) -> Seq<ListAction<Num>> {
    merge_passes(s, s.len() as int, 2, off).1
}

/// The last run of a pass, when it holds at most half the pass's width
/// (`step / 2` entries), has nothing to be merged with: a run of exactly
/// half the width is still merged and so written back, each of its entries
/// in place with the value it holds, and nothing is compared; a shorter run
/// is left alone, and the pass reports nothing for it.
pub proof fn lemma_pass_last_run(s: Seq<Num>, n: int, step: int, j: int, off: int)
    requires
        step >= 2,
        0 <= j < n <= s.len(),
        n - j <= step / 2,
    ensures
        n - j == step / 2 ==> merge_pass(s, n, step, j, off).1 == Seq::new(
            (n - j) as nat,
            |i: int| ListAction::Write((off + j + i) as usize, s[j + i]),
        ),
        n - j < step / 2 ==> merge_pass(s, n, step, j, off).1 == Seq::<ListAction<Num>>::empty(),
{
    let h = step / 2;
    let e = n;
    assert(!(j + step < n));
    if n - j == h {
        let sub = s.subrange(j, e);
        assert(sub.subrange(h, e - j) =~= Seq::<Num>::empty());
        assert(sub.subrange(0, h) =~= sub);
        let m = merge(sub.subrange(0, h), sub.subrange(h, e - j));
        assert(m == sub);
        assert(merge_compares(sub, 0, h, h, h, off + j) == Seq::<ListAction<Num>>::empty());
        assert(merge_count(sub, 0, h, h, h) == h);
        let t = s.subrange(0, j) + m + s.subrange(e, n);
        assert(merge_pass(t, n, step, j + step, off).1 == Seq::<ListAction<Num>>::empty());
        let written = Seq::<Num>::empty() + m.subrange(0, h);
        assert(written =~= sub);
        assert(merge_trace(sub, h, off + j) =~= Seq::new(
            (n - j) as nat,
            |i: int| ListAction::Write((off + j + i) as usize, s[j + i]),
        ));
        assert(merge_pass(s, n, step, j, off).1 =~= merge_trace(sub, h, off + j));
    } else {
        assert(merge_pass(s, n, step, j + step, off).1 == Seq::<ListAction<Num>>::empty());
    }
}

/// A pass over a list of `n` entries leaves `n` entries.
proof fn lemma_merge_pass_len(s: Seq<Num>, n: int, step: int, j: int, off: int)
    requires
        0 <= j,
        s.len() == n,
    ensures
        merge_pass(s, n, step, j, off).0.len() == n,
    decreases if j < n { n - j } else { 0 },
{
    if step <= 0 || j >= n {
    } else {
        let e = if j + step < n { j + step } else { n };
        let h = step / 2;
        if e - j >= h {
            let sub = s.subrange(j, e);
            lemma_merge_permutation(sub.subrange(0, h), sub.subrange(h, e - j));
            let t = s.subrange(0, j) + merge(sub.subrange(0, h), sub.subrange(h, e - j)) + s.subrange(e, n);
            lemma_merge_pass_len(t, n, step, j + step, off);
        } else {
            lemma_merge_pass_len(s, n, step, j + step, off);
        }
    }
}

/// The passes from width `2^k` on end with the pass whose width `2^kk` is the
/// first power of two above `n`, over a list of `n` entries.
proof fn lemma_passes_end(s: Seq<Num>, n: int, k: nat, off: int)
    requires
        s.len() == n,
        k >= 1,
        pow2(k) / 2 <= n,
    ensures
        exists|p: Seq<ListAction<Num>>, x: Seq<Num>, kk: nat|
            pow2(kk) / 2 <= n < pow2(kk) && kk >= 1 && x.len() == n && #[trigger] merge_passes(s, n, pow2(k) as int, off).1
                == p + merge_pass(x, n, pow2(kk) as int, 0, off).1,
    decreases 2 * n + 2 - pow2(k),
{
    lemma_pow2_unfold(k);
    lemma_pow2_unfold(k + 1);
    lemma_pow2_pos(k);
    let step = pow2(k) as int;
    let p0 = merge_pass(s, n, step, 0, off);
    lemma_merge_pass_len(s, n, step, 0, off);
    if step > n {
        assert(merge_passes(s, n, step, off).1 == Seq::<ListAction<Num>>::empty() + p0.1);
    } else {
        assert(pow2(k + 1) == 2 * step);
        assert(0 <= 2 * n + 2 - pow2(k + 1) < 2 * n + 2 - pow2(k));
        lemma_passes_end(p0.0, n, k + 1, off);
        let rest = merge_passes(p0.0, n, pow2(k + 1) as int, off).1;
        assert(merge_passes(s, n, step, off).1 == p0.1 + rest);
        let (p1, x, kk) = choose|p: Seq<ListAction<Num>>, x: Seq<Num>, kk: nat|
            pow2(kk) / 2 <= n < pow2(kk) && kk >= 1 && x.len() == n && #[trigger] merge_passes(
                p0.0,
                n,
                pow2(k + 1) as int,
                off,
            ).1 == p + merge_pass(x, n, pow2(kk) as int, 0, off).1;
        assert(merge_passes(s, n, step, off).1 =~= (p0.1 + p1) + merge_pass(x, n, pow2(kk) as int, 0, off).1);
    }
}

/// On a window whose length `n` is a power of two, the bottom-up merge sort
/// ends with a pass whose single run is the whole window, exactly half its
/// width: that run is written back, so the last `n` actions write every
/// place of the window, from its first to its last.
pub proof fn lemma_iterative_merge_ends_writing(s: Seq<Num>, off: int, m: nat)
    requires
        s.len() == pow2(m),
    ensures
        ({
            let t = iterative_merge_trace(s, off);
            let n = s.len() as int;
            &&& n <= t.len()
            &&& forall|i: int|
                0 <= i < n ==> (#[trigger] t[t.len() - n + i] matches ListAction::Write(pos, _) && pos == (off + i) as usize)
        }),
{
    let n = s.len() as int;
    vstd::arithmetic::power2::lemma2_to64();
    lemma_pow2_pos(m);
    lemma_passes_end(s, n, 1, off);
    let t = iterative_merge_trace(s, off);
    let (p, x, kk) = choose|p: Seq<ListAction<Num>>, x: Seq<Num>, kk: nat|
        pow2(kk) / 2 <= n < pow2(kk) && kk >= 1 && x.len() == n && #[trigger] merge_passes(s, n, pow2(1) as int, off).1
            == p + merge_pass(x, n, pow2(kk) as int, 0, off).1;
    lemma_pow2_unfold(kk);
    let h = pow2((kk - 1) as nat) as int;
    if m < kk - 1 {
        lemma_pow2_strictly_increases(m, (kk - 1) as nat);
    } else if m > kk - 1 {
        if m > kk {
            lemma_pow2_strictly_increases(kk, m);
        }
    }
    assert(n == h);
    lemma_pass_last_run(x, n, pow2(kk) as int, 0, off);
    let w = merge_pass(x, n, pow2(kk) as int, 0, off).1;
    assert(t == p + w);
    assert forall|i: int| 0 <= i < n implies (#[trigger] t[t.len() - n + i] matches ListAction::Write(pos, _) && pos
        == (off + i) as usize) by {
        assert(t[t.len() - n + i] == w[i]);
    }
}

/// Bottom-up merge sort: merge neighbouring sorted runs of width 1, 2, 4, ...
/// until one run covers the list.
///
/// The list's length is bounded as that of any list of `Num`s in memory is.
#[verifier::rlimit(100)]
#[verifier::spinoff_prover]
pub fn iterative_merge_sort(list: &mut CheckedListMut)
    requires
        old(list).wf(),
        old(list)@.len() <= usize::MAX / 4,
    ensures
        final(list).wf(),
        final(list).extends(old(list)),
        sorted(final(list)@),
        permutation(final(list)@, old(list)@),
        final(list).trace() == old(list).trace() + iterative_merge_trace(old(list)@, old(list).lo() as int),
{
    let len = list.len();
    let ghost n = len as int;
    let ghost off = old(list).lo() as int;
    let ghost goal = old(list).trace() + iterative_merge_trace(old(list)@, off);
    let mut aux_buffer: Vec<CheckedValue> = Vec::with_capacity(len);
    let mut step: usize = 2;
    proof {
        lemma_extends_refl(list);
        lemma_runs_width_one(list@, 0, len as int);
    }
    loop
        invariant_except_break
            runs_sorted(list@, 0, len as int, (step / 2) as int),
            list.trace() + merge_passes(list@, n, step as int, off).1 == goal,
        invariant
            n == len,
            list.lo() == off,
            list.wf(),
            list.extends(old(list)),
            permutation(list@, old(list)@),
            list@.len() == len,
            len <= usize::MAX / 4,
            2 <= step <= 2 * len + 2,
            step % 2 == 0,
            aux_buffer@.len() == 0,
        ensures
            list.wf(),
            list.extends(old(list)),
            permutation(list@, old(list)@),
            sorted(list@),
            list.trace() == goal,
        decreases 2 * len + 2 - step,
    {
        let h = step / 2;
        let mut j: usize = 0;
        let ghost start_s = list@;
        let ghost pre = list.trace();
        while j < len
            invariant
                n == len,
                list.lo() == off,
                merge_pass(list@, n, step as int, j as int, off).0 == merge_pass(start_s, n, step as int, 0, off).0,
                list.trace() + merge_pass(list@, n, step as int, j as int, off).1 == pre + merge_pass(
                    start_s,
                    n,
                    step as int,
                    0,
                    off,
                ).1,
                list.wf(),
                list.extends(old(list)),
                permutation(list@, old(list)@),
                list@.len() == len,
                len <= usize::MAX / 4,
                2 <= step <= 2 * len + 2,
                h * 2 == step,
                j < len + step,
                reaches(0, j as int, step as int),
                runs_sorted(list@, 0, min_int(j as int, len as int), step as int),
                runs_sorted(list@, j as int, len as int, h as int),
                aux_buffer@.len() == 0,
            decreases len + step - j,
        {
            let e = if j + step < len { j + step } else { len };
            let ghost s = list@;
            proof {
                assert(runs_sorted(s, j as int, len as int, h as int));
                assert(sorted(s.subrange(j as int, min_int(j + h, len as int))));
                if j + h < len {
                    assert(runs_sorted(s, j + h, len as int, h as int));
                    assert(sorted(s.subrange(j + h, min_int(j + h + h, len as int))));
                }
                assert(runs_sorted(s, j + step, len as int, h as int));
            }
            if e - j >= h {
                let ghost parent = *list;
                let prev = list.slice(j, e);
                let ghost sub_before = *list;
                proof {
                    assert(sub_before@ =~= s.subrange(j as int, e as int));
                    assert(sub_before@.subrange(0, h as int) =~= s.subrange(j as int, j + h));
                    assert(sub_before@.subrange(h as int, sub_before@.len() as int) =~= s.subrange(
                        j + h,
                        e as int,
                    ));
                }
                proof {
                    lemma_merge_count_bound(sub_before@, 0, h as int, h as int, (e - j) as int);
                }
                merge_sublists(list, h, &mut aux_buffer);
                let ghost sub_after = *list;
                list.restore(prev);
                proof {
                    lemma_subwindow(&parent, &sub_before, &sub_after, list, j as int, e as int);
                    lemma_extends_trans(list, &parent, old(list));
                    let t = list@;
                    assert(t.subrange(j as int, e as int) =~= sub_after@);
                    lemma_runs_frame(s, t, 0, j as int, step as int);
                    lemma_runs_extend(t, 0, j as int, e as int, step as int);
                    lemma_runs_frame(s, t, j + step, len as int, h as int);
                    lemma_split_multiset(s, j as int);
                    lemma_split_multiset(s.subrange(j as int, len as int), e - j);
                    lemma_split_multiset(t, j as int);
                    lemma_split_multiset(t.subrange(j as int, len as int), e - j);
                    assert(s.subrange(j as int, len as int).subrange(0, e - j) =~= sub_before@);
                    assert(t.subrange(j as int, len as int).subrange(0, e - j) =~= sub_after@);
                    assert(s.subrange(j as int, len as int).subrange(e - j, len - j) =~= t.subrange(
                        j as int,
                        len as int,
                    ).subrange(e - j, len - j));
                    assert(s.subrange(0, j as int) =~= t.subrange(0, j as int));
                    assert(t =~= s.subrange(0, j as int) + merge(
                        sub_before@.subrange(0, h as int),
                        sub_before@.subrange(h as int, e - j),
                    ) + s.subrange(e as int, n));
                    let r = merge_pass(t, n, step as int, j + step, off);
                    assert(merge_pass(s, n, step as int, j as int, off) == (r.0, merge_trace(
                        sub_before@,
                        h as int,
                        off + j,
                    ) + r.1));
                    assert(list.trace() + r.1 =~= parent.trace() + (merge_trace(sub_before@, h as int, off + j) + r.1));
                }
            } else {
                proof {
                    assert(e == len);
                    assert(min_int(j + h, len as int) == len);
                    lemma_runs_extend(s, 0, j as int, e as int, step as int);
                }
            }
            proof {
                lemma_reaches_step(0, j as int, step as int);
            }
            j = j + step;
        }
        proof {
            let p = merge_pass(start_s, n, step as int, 0, off);
            assert(merge_pass(list@, n, step as int, j as int, off) == (list@, Seq::<ListAction<Num>>::empty()));
            assert(list.trace() =~= pre + p.1);
            assert(merge_passes(start_s, n, step as int, off) == if step > n {
                p
            } else {
                (merge_passes(p.0, n, 2 * step, off).0, p.1 + merge_passes(p.0, n, 2 * step, off).1)
            });
            assert(list.trace() + merge_passes(list@, n, 2 * step, off).1 =~= pre + (p.1
                + merge_passes(p.0, n, 2 * step, off).1));
        }
        if step > len {
            proof {
                if len > 0 {
                    assert(sorted(list@.subrange(0, min_int(step as int, len as int))));
                    assert(list@.subrange(0, len as int) =~= list@);
                }
            }
            break;
        }
        step = step * 2;
    }
}

} // verus!
