use vstd::prelude::*;
use crate::tools::checked_list::{
    CheckedListMut, ListAction, lemma_extends_refl, lemma_extends_trans, lemma_subwindow, lemma_frame_trans,
};
use crate::tools::checked_value::CheckedValue;
use crate::tools::seq_facts::{
    sorted, permutation, merge, lemma_merge_permutation, lemma_merge_sorted, lemma_split_multiset,
};
use crate::consts::Num;

verus! {

/// The values held by a buffer of checked values.
pub open spec fn values_of(buf: Seq<CheckedValue>) -> Seq<Num> {
    buf.map_values(|c: CheckedValue| c.value)
}

/// The comparisons of the merge of the runs `a..split` and `b..n` of `s`
/// (a window that starts at `off`): while both runs have values, their
/// heads are compared and the smaller (the first run's on a tie) is taken.
pub open spec fn merge_compares(s: Seq<Num>, a: int, b: int, split: int, n: int, off: int) -> Seq<ListAction<Num>>
    decreases (split - a) + (n - b),
{
    if a < 0 || a >= split || b >= n || b < split {
        Seq::empty()
    } else {
        let c = ListAction::Compare(Some((off + a) as usize), Some((off + b) as usize));
        if s[a] <= s[b] {
            seq![c] + merge_compares(s, a + 1, b, split, n, off)
        } else {
            seq![c] + merge_compares(s, a, b + 1, split, n, off)
        }
    }
}

/// How many values the merge takes before the first run is used up, or all
/// of them once the second is.
pub open spec fn merge_count(s: Seq<Num>, a: int, b: int, split: int, n: int) -> int
    decreases (split - a) + (n - b),
{
    if a < 0 || a >= split || b < split {
        a + b - split
    } else if b >= n {
        n
    } else if s[a] <= s[b] {
        merge_count(s, a + 1, b, split, n)
    } else {
        merge_count(s, a, b + 1, split, n)
    }
}

/// The actions of `merge_sublists` on `s` at `split`, for a window that
/// starts at `off`, with the buffer holding `pre` at first: the
/// comparisons, then the buffer written back from the window's start: `pre`,
/// then the merged values taken (the rest of the second run is in place).
pub open spec fn merge_trace_from(s: Seq<Num>, split: int, off: int, pre: Seq<Num>) -> Seq<ListAction<Num>> {
    let n = s.len() as int;
    let m = merge(s.subrange(0, split), s.subrange(split, n));
    let written = pre + m.subrange(0, merge_count(s, 0, split, split, n));
    merge_compares(s, 0, split, split, n, off) + Seq::new(
        written.len(),
        |i: int| ListAction::Write((off + i) as usize, written[i]),
    )
}

/// The actions of `merge_sublists` on `s` at `split` with an empty buffer.
pub open spec fn merge_trace(s: Seq<Num>, split: int, off: int) -> Seq<ListAction<Num>> {
    merge_trace_from(s, split, off, Seq::empty())
}

/// The merge takes at most the whole window.
pub proof fn lemma_merge_count_bound(s: Seq<Num>, a: int, b: int, split: int, n: int)
    requires
        0 <= a <= split <= b <= n,
    ensures
        merge_count(s, a, b, split, n) <= n,
    decreases (split - a) + (n - b),
{
    if a < split && b < n {
        if s[a] <= s[b] {
            lemma_merge_count_bound(s, a + 1, b, split, n);
        } else {
            lemma_merge_count_bound(s, a, b + 1, split, n);
        }
    }
}

/// Merge sort on a window `s` that starts at `off`: sort the first half
/// (`n / 2` entries) and the second, then merge them. Gives the list after
/// it and the actions it reports.
pub open spec fn merge_sort_run(s: Seq<Num>, off: int) -> (Seq<Num>, Seq<ListAction<Num>>)
    decreases s.len(),
{
    let n = s.len() as int;
    if n < 2 {
        (s, Seq::empty())
    } else {
        let h = n / 2;
        let l = merge_sort_run(s.subrange(0, h), off);
        let r = merge_sort_run(Seq::new((n - h) as nat, |k: int| s[h + k]), off + h);
        let t = l.0 + r.0;
        (merge(t.subrange(0, h), t.subrange(h, n)), l.1 + r.1 + merge_trace(t, h, off))
    }
}

/// Merge sort splits a window of `n >= 2` entries after its first `h`
/// entries, `n` halved and rounded down (`2 * h <= n <= 2 * h + 1`): it
/// reports the actions of the sort of those `h` entries, then of the sort of
/// the rest (a window that starts `h` places on), then of the merge of the
/// two sorted parts at `h`; the list it leaves is that merge.
pub proof fn lemma_merge_sort_splits(s: Seq<Num>, off: int, h: int)
    requires
        s.len() >= 2,
        2 * h <= s.len() <= 2 * h + 1,
    ensures
        ({
            let n = s.len() as int;
            let l = merge_sort_run(s.subrange(0, h), off);
            let r = merge_sort_run(s.subrange(h, n), off + h);
            &&& merge_sort_run(s, off).1 == l.1 + r.1 + merge_trace(l.0 + r.0, h, off)
            &&& merge_sort_run(s, off).0 == merge(l.0, r.0)
        }),
{
    let n = s.len() as int;
    assert(h == n / 2);
    assert(Seq::new((n - h) as nat, |k: int| s[h + k]) =~= s.subrange(h, n));
    let l = merge_sort_run(s.subrange(0, h), off);
    let r = merge_sort_run(s.subrange(h, n), off + h);
    lemma_merge_sort_len(s.subrange(0, h), off);
    lemma_merge_sort_len(s.subrange(h, n), off + h);
    let t = l.0 + r.0;
    assert(t.subrange(0, h) =~= l.0);
    assert(t.subrange(h, n) =~= r.0);
}

/// Merge sort keeps the window's length.
pub proof fn lemma_merge_sort_len(s: Seq<Num>, off: int)
    ensures
        merge_sort_run(s, off).0.len() == s.len(),
    decreases s.len(),
{
    let n = s.len() as int;
    if n >= 2 {
        let h = n / 2;
        lemma_merge_sort_len(s.subrange(0, h), off);
        lemma_merge_sort_len(Seq::new((n - h) as nat, |k: int| s[h + k]), off + h);
        let l = merge_sort_run(s.subrange(0, h), off);
        let r = merge_sort_run(Seq::new((n - h) as nat, |k: int| s[h + k]), off + h);
        let t = l.0 + r.0;
        lemma_merge_permutation(t.subrange(0, h), t.subrange(h, n));
    }
}

/// Merge sort: sort each half, then merge them.
#[verifier::rlimit(100)]
#[verifier::spinoff_prover]
pub fn merge_sort(list: &mut CheckedListMut)
    requires
        old(list).wf(),
    ensures
        final(list).wf(),
        final(list).extends(old(list)),
        sorted(final(list)@),
        permutation(final(list)@, old(list)@),
        final(list)@ == merge_sort_run(old(list)@, old(list).lo() as int).0,
        final(list).trace() == old(list).trace() + merge_sort_run(old(list)@, old(list).lo() as int).1,
    decreases old(list)@.len(),
{
    let len = list.len();
    let ghost off = old(list).lo() as int;
    let mut aux_buffer: Vec<CheckedValue> = Vec::with_capacity(len);
    if len < 2 {
        proof {
            lemma_extends_refl(list);
            assert(sorted(list@));
            assert(list.trace() =~= old(list).trace() + Seq::<ListAction<Num>>::empty());
        }
        return;
    }
    let half = len / 2;
    proof {
        lemma_extends_refl(list);
    }
    let ghost parent = *list;
    let prev = list.slice(0, half);
    let ghost sub_before = *list;
    merge_sort(list);
    let ghost sub_after = *list;
    list.restore(prev);
    proof {
        lemma_subwindow(&parent, &sub_before, &sub_after, list, 0, half as int);
        assert(sub_before@ =~= parent@.subrange(0, half as int));
    }
    let ghost parent2 = *list;
    let prev = list.slice(half, len);
    let ghost sub_before2 = *list;
    merge_sort(list);
    let ghost sub_after2 = *list;
    list.restore(prev);
    proof {
        lemma_subwindow(&parent2, &sub_before2, &sub_after2, list, half as int, len as int);
        assert(sub_before2@ =~= parent2@.subrange(half as int, len as int));
        lemma_extends_trans(&parent2, &parent, old(list));
        lemma_extends_trans(list, &parent2, old(list));
        assert(list@.subrange(0, half as int) =~= sub_after@);
        assert(list@.subrange(half as int, len as int) =~= sub_after2@);
        assert(parent2@.subrange(0, half as int) =~= sub_after@);
        lemma_split_multiset(parent@, half as int);
        lemma_split_multiset(parent2@, half as int);
        lemma_split_multiset(list@, half as int);
        assert(parent2@.subrange(half as int, len as int) =~= parent@.subrange(half as int, len as int));
    }
    let ghost before_merge = *list;
    proof {
        assert(sub_before2@ =~= Seq::new((len - half) as nat, |k: int| old(list)@[half + k]));
        assert(sub_before@ =~= old(list)@.subrange(0, half as int));
        assert(list@ =~= sub_after@ + sub_after2@);
    }
    proof {
        lemma_merge_count_bound(list@, 0, half as int, half as int, len as int);
    }
    merge_sublists(list, half, &mut aux_buffer);
    proof {
        lemma_extends_trans(list, &before_merge, old(list));
        let l = merge_sort_run(sub_before@, off);
        let r = merge_sort_run(sub_before2@, off + half);
        assert(list.trace() =~= old(list).trace() + (l.1 + r.1 + merge_trace(before_merge@, half as int, off)));
    }
}

/// Merges the sorted runs `0..split` and `split..` of the window, through
/// `aux_buffer`: the merged values are collected there (after what it held
/// already), then the whole buffer is written back from the window's start.
/// The buffer must leave room: what it held and the values taken must fit
/// in the window.
pub fn merge_sublists(list: &mut CheckedListMut, split: usize, aux_buffer: &mut Vec<CheckedValue>)
    requires
        old(list).wf(),
        split <= old(list)@.len(),
        old(aux_buffer)@.len() + merge_count(
            old(list)@,
            0,
            split as int,
            split as int,
            old(list)@.len() as int,
        ) <= old(list)@.len(),
    ensures
        final(list).wf(),
        final(list).extends_frame(old(list)),
        (forall|k: int|
            0 <= k < old(aux_buffer)@.len() ==> old(list).initial().contains(#[trigger] old(aux_buffer)@[k].value))
            ==> final(list).extends(old(list)),
        final(list)@ == values_of(old(aux_buffer)@) + merge(
            old(list)@.subrange(0, split as int),
            old(list)@.subrange(split as int, old(list)@.len() as int),
        ).subrange(0, merge_count(old(list)@, 0, split as int, split as int, old(list)@.len() as int))
            + old(list)@.subrange(
            old(aux_buffer)@.len() + merge_count(
                old(list)@,
                0,
                split as int,
                split as int,
                old(list)@.len() as int,
            ),
            old(list)@.len() as int,
        ),
        old(aux_buffer)@.len() == 0 ==> final(list)@ == merge(
            old(list)@.subrange(0, split as int),
            old(list)@.subrange(split as int, old(list)@.len() as int),
        ),
        old(aux_buffer)@.len() == 0 ==> permutation(final(list)@, old(list)@),
        old(aux_buffer)@.len() == 0 && sorted(old(list)@.subrange(0, split as int)) && sorted(
            old(list)@.subrange(split as int, old(list)@.len() as int),
        ) ==> sorted(final(list)@),
        final(aux_buffer)@.len() == 0,
        final(list).trace() == old(list).trace() + merge_trace_from(
            old(list)@,
            split as int,
            old(list).lo() as int,
            values_of(old(aux_buffer)@),
        ),
{
    let len = list.len();
    let ghost s = list@;
    let ghost off = old(list).lo() as int;
    let ghost t0 = old(list).trace();
    let ghost all_compares = merge_compares(s, 0, split as int, split as int, len as int, off);
    let ghost count = merge_count(s, 0, split as int, split as int, len as int);
    let ghost left = s.subrange(0, split as int);
    let ghost right = s.subrange(split as int, len as int);
    let ghost pre = values_of(aux_buffer@);
    let ghost k0 = aux_buffer@.len();
    let ghost aux_ok = old(list).from_initial() && forall|k: int|
        0 <= k < k0 ==> old(list).initial().contains(#[trigger] old(aux_buffer)@[k].value);
    let mut a: usize = 0;
    let mut b: usize = split;
    proof {
        lemma_extends_refl(list);
        assert(pre.len() == k0);
        assert(left.subrange(0, left.len() as int) =~= left);
        assert(right.subrange(0, right.len() as int) =~= right);
    }
    loop
        invariant
            list.wf(),
            list.extends(old(list)),
            list@ == s,
            s.len() == len,
            left == s.subrange(0, split as int),
            right == s.subrange(split as int, len as int),
            split <= len,
            a <= split <= b <= len,
            aux_buffer@.len() == k0 + a + (b - split),
            k0 + count <= len,
            pre.len() == k0,
            values_of(aux_buffer@) + merge(
                left.subrange(a as int, split as int),
                right.subrange(b - split, right.len() as int),
            ) == pre + merge(left, right),
            aux_ok ==> forall|k: int| 0 <= k < aux_buffer@.len() ==> list.initial().contains(#[trigger] aux_buffer@[k].value),
            aux_ok ==> old(list).from_initial(),
            list.lo() == off,
            list.trace() + merge_compares(s, a as int, b as int, split as int, len as int, off) == t0
                + all_compares,
            merge_count(s, a as int, b as int, split as int, len as int) == count,
        ensures
            list.wf(),
            list.extends(old(list)),
            list@ == s,
            list.lo() == off,
            list.trace() == t0 + all_compares,
            aux_buffer@.len() == k0 + count,
            aux_buffer@.len() <= len,
            pre.len() == k0,
            values_of(aux_buffer@) + s.subrange(aux_buffer@.len() - k0, len as int) == pre + merge(
                left,
                right,
            ),
            aux_ok ==> forall|k: int| 0 <= k < aux_buffer@.len() ==> list.initial().contains(#[trigger] aux_buffer@[k].value),
            aux_ok ==> old(list).from_initial(),
        decreases (split - a) + (len - b),
    {
        if a >= split {
            proof {
                assert(left.subrange(a as int, split as int).len() == 0);
                assert(right.subrange(b - split, right.len() as int) =~= s.subrange(
                    b as int,
                    len as int,
                ));
                assert(list.trace() =~= list.trace() + merge_compares(s, a as int, b as int, split as int, len as int, off));
            }
            break;
        }
        if b >= len {
            proof {
                assert(list.trace() =~= list.trace() + merge_compares(s, a as int, b as int, split as int, len as int, off));
            }
            while a < split
                invariant
                    list.wf(),
                    list.extends(old(list)),
                    list@ == s,
                    s.len() == len,
                    left == s.subrange(0, split as int),
                    right == s.subrange(split as int, len as int),
                    a <= split <= b,
                    b == len,
                    aux_buffer@.len() == k0 + a + (b - split),
            k0 + count <= len,
            pre.len() == k0,
                    values_of(aux_buffer@) + left.subrange(a as int, split as int) == merge(left, right),
                    aux_ok ==> forall|k: int| 0 <= k < aux_buffer@.len() ==> list.initial().contains(#[trigger] aux_buffer@[k].value),
                    aux_ok ==> old(list).from_initial(),
            aux_ok ==> old(list).from_initial(),
                    list.lo() == off,
                    list.trace() == t0 + all_compares,
                    count == len,
                decreases split - a,
            {
                let v = list.read(a);
                let ghost old_aux = aux_buffer@;
                aux_buffer.push(v);
                proof {
                    assert(values_of(aux_buffer@) =~= values_of(old_aux).push(v.value));
                if aux_ok {
                    assert(list.from_initial());
                    assert(list.initial().contains(v.value));
                    assert forall|k: int| 0 <= k < aux_buffer@.len() implies list.initial().contains(#[trigger] aux_buffer@[k].value) by {
                        if k < old_aux.len() {
                            assert(aux_buffer@[k] == old_aux[k]);
                        } else {
                            assert(aux_buffer@[k] == v);
                        }
                    }
                }
                    assert(left.subrange(a as int, split as int) =~= seq![v.value] + left.subrange(
                        a + 1,
                        split as int,
                    ));
                }
                a += 1;
            }
            proof {
                assert(s.subrange(aux_buffer@.len() - k0, len as int).len() == 0);
                assert(left.subrange(a as int, split as int).len() == 0);
            }
            break;
        }
        let ghost before = *list;
        let o = list.compare(a, b);
        proof {
            lemma_extends_trans(list, &before, old(list));
            let c = ListAction::Compare(Some((off + a) as usize), Some((off + b) as usize));
            let na: int = if s[a as int] <= s[b as int] { a + 1 } else { a as int };
            let nb: int = if s[a as int] <= s[b as int] { b as int } else { b + 1 };
            assert(merge_compares(s, a as int, b as int, split as int, len as int, off) == seq![c]
                + merge_compares(s, na, nb, split as int, len as int, off));
            assert(list.trace() + merge_compares(s, na, nb, split as int, len as int, off) =~= before.trace()
                + (seq![c] + merge_compares(s, na, nb, split as int, len as int, off)));
        }
        let ghost la = left.subrange(a as int, split as int);
        let ghost rb = right.subrange(b - split, right.len() as int);
        proof {
            assert(la[0] == s[a as int]);
            assert(rb[0] == s[b as int]);
        }
        let ghost old_aux = aux_buffer@;
        if o.is_le() {
            let v = list.read(a);
            aux_buffer.push(v);
            proof {
                assert(la.drop_first() =~= left.subrange(a + 1, split as int));
                assert(values_of(aux_buffer@) =~= values_of(old_aux).push(v.value));
                if aux_ok {
                    assert(list.from_initial());
                    assert(list.initial().contains(v.value));
                    assert forall|k: int| 0 <= k < aux_buffer@.len() implies list.initial().contains(#[trigger] aux_buffer@[k].value) by {
                        if k < old_aux.len() {
                            assert(aux_buffer@[k] == old_aux[k]);
                        } else {
                            assert(aux_buffer@[k] == v);
                        }
                    }
                }
                assert(values_of(old_aux).push(v.value) + merge(la.drop_first(), rb) =~= values_of(
                    old_aux,
                ) + (seq![v.value] + merge(la.drop_first(), rb)));
            }
            a += 1;
        } else {
            let v = list.read(b);
            aux_buffer.push(v);
            proof {
                assert(rb.drop_first() =~= right.subrange(b + 1 - split, right.len() as int));
                assert(values_of(aux_buffer@) =~= values_of(old_aux).push(v.value));
                if aux_ok {
                    assert(list.from_initial());
                    assert(list.initial().contains(v.value));
                    assert forall|k: int| 0 <= k < aux_buffer@.len() implies list.initial().contains(#[trigger] aux_buffer@[k].value) by {
                        if k < old_aux.len() {
                            assert(aux_buffer@[k] == old_aux[k]);
                        } else {
                            assert(aux_buffer@[k] == v);
                        }
                    }
                }
                assert(values_of(old_aux).push(v.value) + merge(la, rb.drop_first()) =~= values_of(
                    old_aux,
                ) + (seq![v.value] + merge(la, rb.drop_first())));
            }
            b += 1;
        }
    }
    let ghost merged = values_of(aux_buffer@);
    let ghost mg = merge(left, right);
    let m = aux_buffer.len();
    let mut i: usize = 0;
    proof {
        lemma_merge_permutation(left, right);
        assert(merged =~= pre + mg.subrange(0, count)) by {
            assert forall|k: int| 0 <= k < m implies #[trigger] merged[k] == (pre + mg.subrange(0, count))[k] by {
                assert((values_of(aux_buffer@) + s.subrange(m - k0, len as int))[k] == merged[k]);
                assert((pre + mg)[k] == merged[k]);
            }
        }
        assert(s.subrange(count, len as int) =~= mg.subrange(count, len as int)) by {
            assert forall|k: int| 0 <= k < len - count implies #[trigger] s.subrange(count, len as int)[k]
                == mg.subrange(count, len as int)[k] by {
                assert((values_of(aux_buffer@) + s.subrange(m - k0, len as int))[m + k] == (pre + mg)[m + k]);
            }
        }
        assert(list.trace() =~= t0 + all_compares + Seq::new(
            0,
            |k: int| ListAction::Write((off + k) as usize, merged[k]),
        ));
    }
    while i < m
        invariant
            list.extends_frame(old(list)),
            aux_ok ==> list.from_initial(),
            list.lo() == off,
            list.trace() == t0 + all_compares + Seq::new(
                i as nat,
                |k: int| ListAction::Write((off + k) as usize, merged[k]),
            ),
            list.wf(),
            s.len() == len,
            m == aux_buffer@.len(),
            m <= len,
            merged == values_of(aux_buffer@),
            list@ == merged.subrange(0, i as int) + s.subrange(i as int, len as int),
            i <= m,
            aux_ok ==> forall|k: int| 0 <= k < aux_buffer@.len() ==> list.initial().contains(#[trigger] aux_buffer@[k].value),
            aux_ok ==> old(list).from_initial(),
        decreases m - i,
    {
        let ghost before = *list;
        let x = aux_buffer[i];
        list.replace(i, x);
        proof {
            lemma_frame_trans(list, &before, old(list));
            if aux_ok {
                assert(list.initial().contains(aux_buffer@[i as int].value));
                assert(list.extends(&before));
            }
            assert(list@ =~= merged.subrange(0, i + 1) + s.subrange(i + 1, len as int));
            assert(merged[i as int] == x.value);
            assert(list.trace() =~= t0 + all_compares + Seq::new(
                (i + 1) as nat,
                |k: int| ListAction::Write((off + k) as usize, merged[k]),
            ));
        }
        i += 1;
    }
    aux_buffer.clear();
    proof {
        assert(list@ =~= merged + s.subrange(m as int, len as int));
        assert(list.trace() =~= t0 + merge_trace_from(s, split as int, off, pre));
        if k0 == 0 {
            assert(list@ =~= mg);
            assert(left + right =~= s);
            if sorted(left) && sorted(right) {
                lemma_merge_sorted(left, right);
            }
        }
    }
}

} // verus!
