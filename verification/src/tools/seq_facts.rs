use vstd::prelude::*;
use crate::consts::Num;

verus! {

broadcast use {vstd::seq_lib::group_to_multiset_ensures, vstd::multiset::group_multiset_axioms};

/// `s` is in ascending order.
pub open spec fn sorted(s: Seq<Num>) -> bool {
    forall|i: int, j: int| 0 <= i <= j < s.len() ==> s[i] <= s[j]
}

/// `s` and `t` hold the same values, each as often.
pub open spec fn permutation(s: Seq<Num>, t: Seq<Num>) -> bool {
    s.to_multiset() == t.to_multiset()
}

/// `s` with the entries at `i` and `j` exchanged.
pub open spec fn swapped(s: Seq<Num>, i: int, j: int) -> Seq<Num> {
    s.update(i, s[j]).update(j, s[i])
}

/// Exchanging two entries keeps the multiset of values.
pub proof fn lemma_swap_permutation(s: Seq<Num>, i: int, j: int)
    requires
        0 <= i < s.len(),
        0 <= j < s.len(),
    ensures
        permutation(swapped(s, i, j), s),
        swapped(s, i, j).len() == s.len(),
{
    let s1 = s.update(i, s[j]);
    assert(s1.to_multiset() == s.to_multiset().insert(s[j]).remove(s[i]));
    assert(s1.update(j, s[i]).to_multiset() == s1.to_multiset().insert(s[i]).remove(s1[j]));
    if i == j {
        assert(swapped(s, i, j) =~= s);
    } else {
        assert(s1[j] == s[j]);
        assert(s.to_multiset().insert(s[j]).remove(s[i]).insert(s[i]).remove(s[j]) =~= s.to_multiset());
    }
}

/// Length is preserved by a permutation.
pub proof fn lemma_permutation_len(s: Seq<Num>, t: Seq<Num>)
    requires
        permutation(s, t),
    ensures
        s.len() == t.len(),
{
    s.to_multiset_ensures();
    t.to_multiset_ensures();
}

/// Splitting a sequence at `m` splits its multiset.
pub proof fn lemma_split_multiset(s: Seq<Num>, m: int)
    requires
        0 <= m <= s.len(),
    ensures
        s.to_multiset() == s.subrange(0, m).to_multiset().add(s.subrange(m, s.len() as int).to_multiset()),
{
    assert(s =~= s.subrange(0, m) + s.subrange(m, s.len() as int));
    vstd::seq_lib::lemma_multiset_commutative(s.subrange(0, m), s.subrange(m, s.len() as int));
}

/// How many values of `t` are smaller than `x`.
pub open spec fn count_smaller(x: Num, t: Seq<Num>) -> nat
    decreases t.len(),
{
    if t.len() == 0 {
        0
    } else {
        count_smaller(x, t.drop_first()) + if t[0] < x { 1nat } else { 0nat }
    }
}

/// The number of pairs of positions that are out of order.
pub open spec fn inversions(s: Seq<Num>) -> nat
    decreases s.len(),
{
    if s.len() == 0 {
        0
    } else {
        count_smaller(s[0], s.drop_first()) + inversions(s.drop_first())
    }
}

proof fn lemma_count_smaller_swap(x: Num, t: Seq<Num>, k: int)
    requires
        0 <= k,
        k + 1 < t.len(),
    ensures
        count_smaller(x, swapped(t, k, k + 1)) == count_smaller(x, t),
    decreases t.len(),
{
    let u = swapped(t, k, k + 1);
    if k == 0 {
        assert(u.drop_first().drop_first() =~= t.drop_first().drop_first());
        assert(u.drop_first()[0] == t[0]);
        assert(t.drop_first()[0] == u[0]);
        assert(count_smaller(x, u.drop_first()) == count_smaller(x, u.drop_first().drop_first())
            + if u.drop_first()[0] < x { 1nat } else { 0nat });
        assert(count_smaller(x, t.drop_first()) == count_smaller(x, t.drop_first().drop_first())
            + if t.drop_first()[0] < x { 1nat } else { 0nat });
    } else {
        assert(u.drop_first() =~= swapped(t.drop_first(), k - 1, k));
        lemma_count_smaller_swap(x, t.drop_first(), k - 1);
    }
}

/// Exchanging two neighbours that are out of order removes exactly one inversion.
pub proof fn lemma_swap_inversions(s: Seq<Num>, k: int)
    requires
        0 <= k,
        k + 1 < s.len(),
        s[k] > s[k + 1],
    ensures
        inversions(swapped(s, k, k + 1)) + 1 == inversions(s),
    decreases s.len(),
{
    let u = swapped(s, k, k + 1);
    if k == 0 {
        let t = s.drop_first().drop_first();
        assert(u.drop_first().drop_first() =~= t);
        assert(u.drop_first()[0] == s[0]);
        assert(s.drop_first()[0] == u[0]);
        assert(count_smaller(s[0], s.drop_first()) == count_smaller(s[0], t) + 1);
        assert(count_smaller(u[0], u.drop_first()) == count_smaller(u[0], t));
        assert(inversions(s.drop_first()) == count_smaller(s[1], t) + inversions(t));
        assert(inversions(u.drop_first()) == count_smaller(u[1], t) + inversions(t));
    } else {
        assert(u.drop_first() =~= swapped(s.drop_first(), k - 1, k));
        lemma_swap_inversions(s.drop_first(), k - 1);
        lemma_count_smaller_swap(s[0], s.drop_first(), k - 1);
    }
}

/// Every value of `s` is at least `x`.
pub open spec fn all_at_least(s: Seq<Num>, x: Num) -> bool {
    forall|i: int| 0 <= i < s.len() ==> x <= #[trigger] s[i]
}

/// The stable merge of `a` and `b`: repeatedly take the smaller head,
/// preferring `a` on ties.
pub open spec fn merge(a: Seq<Num>, b: Seq<Num>) -> Seq<Num>
    decreases a.len() + b.len(),
{
    if a.len() == 0 {
        b
    } else if b.len() == 0 {
        a
    } else if a[0] <= b[0] {
        seq![a[0]] + merge(a.drop_first(), b)
    } else {
        seq![b[0]] + merge(a, b.drop_first())
    }
}

/// A merge holds the values of both inputs.
pub proof fn lemma_merge_permutation(a: Seq<Num>, b: Seq<Num>)
    ensures
        permutation(merge(a, b), a + b),
        merge(a, b).len() == a.len() + b.len(),
    decreases a.len() + b.len(),
{
    if a.len() == 0 {
        assert(a + b =~= b);
    } else if b.len() == 0 {
        assert(a + b =~= a);
    } else if a[0] <= b[0] {
        lemma_merge_permutation(a.drop_first(), b);
        let m = merge(a.drop_first(), b);
        assert(seq![a[0]] + m =~= m.insert(0, a[0]));
        assert(a + b =~= (a.drop_first() + b).insert(0, a[0]));
        vstd::seq_lib::to_multiset_insert(m, 0, a[0]);
        vstd::seq_lib::to_multiset_insert(a.drop_first() + b, 0, a[0]);
    } else {
        lemma_merge_permutation(a, b.drop_first());
        let m = merge(a, b.drop_first());
        assert(seq![b[0]] + m =~= m.insert(0, b[0]));
        vstd::seq_lib::to_multiset_insert(m, 0, b[0]);
        vstd::seq_lib::lemma_multiset_commutative(a, b);
        vstd::seq_lib::lemma_multiset_commutative(a, b.drop_first());
        assert(b =~= b.drop_first().insert(0, b[0]));
        vstd::seq_lib::to_multiset_insert(b.drop_first(), 0, b[0]);
        assert(merge(a, b).to_multiset() == m.to_multiset().insert(b[0]));
        assert(m.to_multiset() == a.to_multiset().add(b.drop_first().to_multiset()));
        assert(b.to_multiset() == b.drop_first().to_multiset().insert(b[0]));
        assert(a.to_multiset().add(b.drop_first().to_multiset()).insert(b[0]) =~= a.to_multiset().add(
            b.drop_first().to_multiset().insert(b[0]),
        ));
    }
}

proof fn lemma_merge_at_least(a: Seq<Num>, b: Seq<Num>, x: Num)
    requires
        all_at_least(a, x),
        all_at_least(b, x),
    ensures
        all_at_least(merge(a, b), x),
    decreases a.len() + b.len(),
{
    if a.len() == 0 || b.len() == 0 {
    } else if a[0] <= b[0] {
        lemma_merge_at_least(a.drop_first(), b, x);
        let m = merge(a.drop_first(), b);
        assert forall|i: int| 0 <= i < merge(a, b).len() implies x <= #[trigger] merge(a, b)[i] by {
            if i > 0 {
                assert(merge(a, b)[i] == m[i - 1]);
            }
        }
    } else {
        lemma_merge_at_least(a, b.drop_first(), x);
        let m = merge(a, b.drop_first());
        assert forall|i: int| 0 <= i < merge(a, b).len() implies x <= #[trigger] merge(a, b)[i] by {
            if i > 0 {
                assert(merge(a, b)[i] == m[i - 1]);
            }
        }
    }
}

/// A sorted value followed by a sorted sequence of larger values is sorted.
pub proof fn lemma_sorted_cons(x: Num, m: Seq<Num>)
    requires
        all_at_least(m, x),
        sorted(m),
    ensures
        sorted(seq![x] + m),
{
    let r = seq![x] + m;
    assert forall|i: int, j: int| 0 <= i <= j < r.len() implies r[i] <= r[j] by {
        if i == 0 {
            if j > 0 {
                assert(r[j] == m[j - 1]);
            }
        } else {
            assert(r[i] == m[i - 1]);
            assert(r[j] == m[j - 1]);
        }
    }
}

/// Merging two sorted sequences gives a sorted sequence.
pub proof fn lemma_merge_sorted(a: Seq<Num>, b: Seq<Num>)
    requires
        sorted(a),
        sorted(b),
    ensures
        sorted(merge(a, b)),
    decreases a.len() + b.len(),
{
    if a.len() == 0 || b.len() == 0 {
    } else if a[0] <= b[0] {
        lemma_merge_sorted(a.drop_first(), b);
        lemma_merge_at_least(a.drop_first(), b, a[0]);
        lemma_sorted_cons(a[0], merge(a.drop_first(), b));
    } else {
        lemma_merge_sorted(a, b.drop_first());
        lemma_merge_at_least(a, b.drop_first(), b[0]);
        lemma_sorted_cons(b[0], merge(a, b.drop_first()));
    }
}

/// The smaller of two integers.
pub open spec fn min_int(a: int, b: int) -> int {
    if a <= b {
        a
    } else {
        b
    }
}

/// Cutting `s` from `from` up to `to` into consecutive runs of width `w`
/// (the last one possibly shorter), every run is sorted.
pub open spec fn runs_sorted(s: Seq<Num>, from: int, to: int, w: int) -> bool
    decreases (if from < to { to - from } else { 0 }),
{
    if w <= 0 || from >= to {
        true
    } else {
        sorted(s.subrange(from, min_int(from + w, to))) && runs_sorted(s, from + w, to, w)
    }
}

/// `to` is reached from `from` by steps of width `w`.
pub open spec fn reaches(from: int, to: int, w: int) -> bool
    decreases (if from < to { to - from } else { 0 }),
{
    if w <= 0 || from > to {
        false
    } else if from == to {
        true
    } else {
        reaches(from + w, to, w)
    }
}

pub proof fn lemma_reaches_step(from: int, to: int, w: int)
    requires
        w > 0,
        reaches(from, to, w),
    ensures
        reaches(from, to + w, w),
    decreases (if from < to { to - from } else { 0 }),
{
    if from < to {
        lemma_reaches_step(from + w, to, w);
    } else {
        assert(reaches(from + w, to + w, w));
    }
}

/// Runs of width one are sorted.
pub proof fn lemma_runs_width_one(s: Seq<Num>, from: int, to: int)
    requires
        0 <= from,
        to <= s.len(),
    ensures
        runs_sorted(s, from, to, 1),
    decreases to - from,
{
    if from < to {
        lemma_runs_width_one(s, from + 1, to);
    }
}

/// Runs only depend on the values between `from` and `to`.
pub proof fn lemma_runs_frame(s: Seq<Num>, t: Seq<Num>, from: int, to: int, w: int)
    requires
        0 <= from,
        to <= s.len(),
        to <= t.len(),
        runs_sorted(s, from, to, w),
        forall|k: int| from <= k < to ==> s[k] == t[k],
    ensures
        runs_sorted(t, from, to, w),
    decreases (if from < to { to - from } else { 0 }),
{
    if w > 0 && from < to {
        assert(s.subrange(from, min_int(from + w, to)) =~= t.subrange(from, min_int(from + w, to)));
        lemma_runs_frame(s, t, from + w, to, w);
    }
}

/// One more sorted run, right after runs that end at `j`.
pub proof fn lemma_runs_extend(s: Seq<Num>, from: int, j: int, e: int, w: int)
    requires
        w > 0,
        0 <= from <= j <= e <= j + w,
        e <= s.len(),
        reaches(from, j, w),
        runs_sorted(s, from, j, w),
        sorted(s.subrange(j, e)),
    ensures
        runs_sorted(s, from, e, w),
    decreases j - from,
{
    if from == j {
        if j < e {
            assert(min_int(j + w, e) == e);
            assert(runs_sorted(s, j + w, e, w));
        }
    } else {
        assert(reaches(from + w, j, w));
        assert(from + w <= j);
        lemma_runs_extend(s, from + w, j, e, w);
    }
}

/// Every value of `s` is at most `x`.
pub open spec fn all_at_most(s: Seq<Num>, x: Num) -> bool {
    forall|i: int| 0 <= i < s.len() ==> #[trigger] s[i] <= x
}

/// A permutation keeps the bounds of the values.
pub proof fn lemma_permutation_bounds(s: Seq<Num>, t: Seq<Num>, x: Num)
    requires
        permutation(t, s),
    ensures
        all_at_most(s, x) ==> all_at_most(t, x),
        all_at_least(s, x) ==> all_at_least(t, x),
{
    s.to_multiset_ensures();
    t.to_multiset_ensures();
    assert forall|i: int| 0 <= i < t.len() implies s.contains(#[trigger] t[i]) by {
        assert(t.contains(t[i]));
        assert(t.to_multiset().count(t[i]) > 0);
    }
    if all_at_most(s, x) {
        assert forall|i: int| 0 <= i < t.len() implies #[trigger] t[i] <= x by {
            assert(s.contains(t[i]));
        }
    }
    if all_at_least(s, x) {
        assert forall|i: int| 0 <= i < t.len() implies x <= #[trigger] t[i] by {
            assert(s.contains(t[i]));
        }
    }
}

/// A permutation of a sequence without repeated values has none either.
pub proof fn lemma_permutation_no_duplicates(s: Seq<Num>, t: Seq<Num>)
    requires
        permutation(t, s),
        s.no_duplicates(),
    ensures
        t.no_duplicates(),
{
    s.lemma_multiset_has_no_duplicates();
    t.lemma_multiset_has_no_duplicates_conv();
}

/// Counting smaller values adds up over a concatenation.
pub proof fn lemma_count_smaller_append(x: Num, a: Seq<Num>, b: Seq<Num>)
    ensures
        count_smaller(x, a + b) == count_smaller(x, a) + count_smaller(x, b),
    decreases a.len(),
{
    if a.len() == 0 {
        assert(a + b =~= b);
    } else {
        assert((a + b).drop_first() =~= a.drop_first() + b);
        lemma_count_smaller_append(x, a.drop_first(), b);
    }
}

/// At most every value is smaller, and none when all are at least `x`.
pub proof fn lemma_count_smaller_bounds(x: Num, a: Seq<Num>)
    ensures
        count_smaller(x, a) <= a.len(),
        all_at_least(a, x) ==> count_smaller(x, a) == 0,
    decreases a.len(),
{
    if a.len() > 0 {
        lemma_count_smaller_bounds(x, a.drop_first());
    }
}

/// When every value is smaller than `x`, all of them count.
pub proof fn lemma_count_smaller_all(x: Num, a: Seq<Num>)
    requires
        forall|i: int| 0 <= i < a.len() ==> #[trigger] a[i] < x,
    ensures
        count_smaller(x, a) == a.len(),
    decreases a.len(),
{
    if a.len() > 0 {
        lemma_count_smaller_all(x, a.drop_first());
    }
}

proof fn lemma_count_smaller_remove(x: Num, a: Seq<Num>, i: int)
    requires
        0 <= i < a.len(),
    ensures
        count_smaller(x, a) == count_smaller(x, a.remove(i)) + if a[i] < x { 1nat } else { 0nat },
    decreases a.len(),
{
    if i > 0 {
        assert(a.remove(i).drop_first() =~= a.drop_first().remove(i - 1));
        lemma_count_smaller_remove(x, a.drop_first(), i - 1);
    } else {
        assert(a.remove(0) =~= a.drop_first());
    }
}

/// Permuted sequences have as many values smaller than `x`.
pub proof fn lemma_count_smaller_permutation(x: Num, a: Seq<Num>, b: Seq<Num>)
    requires
        permutation(a, b),
    ensures
        count_smaller(x, a) == count_smaller(x, b),
    decreases a.len(),
{
    lemma_permutation_len(a, b);
    if a.len() > 0 {
        a.to_multiset_ensures();
        b.to_multiset_ensures();
        assert(a.contains(a[0]));
        assert(b.to_multiset().count(a[0]) > 0);
        assert(b.contains(a[0]));
        let i = choose|i: int| 0 <= i < b.len() && b[i] == a[0];
        assert(a.remove(0) =~= a.drop_first());
        assert(a.drop_first().to_multiset() == a.to_multiset().remove(a[0]));
        assert(b.remove(i).to_multiset() == b.to_multiset().remove(b[i]));
        lemma_count_smaller_permutation(x, a.drop_first(), b.remove(i));
        lemma_count_smaller_remove(x, b, i);
    }
}

/// Replacing a stretch of a sequence by a permutation of it permutes the sequence.
pub proof fn lemma_permutation_splice(s: Seq<Num>, x: Seq<Num>, start: int, end: int)
    requires
        0 <= start <= end <= s.len(),
        permutation(x, s.subrange(start, end)),
    ensures
        permutation(s.subrange(0, start) + x + s.subrange(end, s.len() as int), s),
{
    let pre = s.subrange(0, start);
    let mid = s.subrange(start, end);
    let post = s.subrange(end, s.len() as int);
    assert(s =~= pre + mid + post);
    vstd::seq_lib::lemma_multiset_commutative(pre + x, post);
    vstd::seq_lib::lemma_multiset_commutative(pre, x);
    vstd::seq_lib::lemma_multiset_commutative(pre + mid, post);
    vstd::seq_lib::lemma_multiset_commutative(pre, mid);
}

} // verus!
