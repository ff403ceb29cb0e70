use vstd::prelude::*;
use std::cmp::Ordering;
use crate::consts::Num;
use crate::tools::checked_list::{
    CheckedListMut, ListAction, position_ok, compare_at, lemma_extends_refl, lemma_extends_trans,
};
use crate::tools::seq_facts::sorted;

verus! {

/// A value taken from a list, with the position it is known by there
/// (`None` for a copy held outside the list).
#[derive(Copy, Clone, Debug)]
pub struct CheckedValue {
    pub index: Option<usize>,
    pub value: Num,
}

impl CheckedValue {
    pub fn new(value: Num, index: Option<usize>) -> (res: Self)
        ensures
            res.value == value,
            res.index == index,
    {
        CheckedValue { index, value }
    }
}

/// How `a` compares with `b`, as `std` puts it.
pub open spec fn ordering_of(a: Num, b: Num) -> Ordering {
    if a < b {
        Ordering::Less
    } else if a == b {
        Ordering::Equal
    } else {
        Ordering::Greater
    }
}

/// The `Ordering` that an `Order` stands for.
pub open spec fn std_ordering(o: Order) -> Ordering {
    match o {
        Order::Less => Ordering::Less,
        Order::Equal => Ordering::Equal,
        Order::Greater => Ordering::Greater,
    }
}

impl CheckedValue {
    /// Compares the two values, and reports the comparison to `log`.
    pub fn cmp(&self, other: &Self, log: &mut Vec<ListAction<Num>>) -> (o: Ordering)
        ensures
            final(log)@ == old(log)@.push(ListAction::Compare(self.index, other.index)),
            o == ordering_of(self.value, other.value),
    {
        log.push(ListAction::Compare(self.index, other.index));
        Order::of(self.value, other.value).to_ordering()
    }
}

/// Compares the two values, and reports the comparison to `log`.
pub fn cmp(a: &CheckedValue, b: &CheckedValue, log: &mut Vec<ListAction<Num>>) -> (o: Ordering)
    ensures
        final(log)@ == old(log)@.push(ListAction::Compare(a.index, b.index)),
        o == ordering_of(a.value, b.value),
{
    a.cmp(b, log)
}

/// The outcome of comparing two values.
#[derive(Copy, Clone, Debug, PartialEq, Eq)]
pub enum Order {
    Less,
    Equal,
    Greater,
}

/// How `a` compares with `b`.
pub open spec fn order_of(a: Num, b: Num) -> Order {
    if a < b {
        Order::Less
    } else if a == b {
        Order::Equal
    } else {
        Order::Greater
    }
}

impl Order {
    /// How `a` compares with `b`.
    pub fn of(a: Num, b: Num) -> (o: Order)
        ensures
            o == order_of(a, b),
    {
        if a < b {
            Order::Less
        } else if a == b {
            Order::Equal
        } else {
            Order::Greater
        }
    }

    /// The `Ordering` this stands for.
    pub fn to_ordering(self) -> (o: Ordering)
        ensures
            o == std_ordering(self),
    {
        match self {
            Order::Less => Ordering::Less,
            Order::Equal => Ordering::Equal,
            Order::Greater => Ordering::Greater,
        }
    }

    pub fn is_lt(self) -> (r: bool)
        ensures
            r == (self == Order::Less),
    {
        match self {
            Order::Less => true,
            _ => false,
        }
    }

    pub fn is_le(self) -> (r: bool)
        ensures
            r == (self != Order::Greater),
    {
        match self {
            Order::Greater => false,
            _ => true,
        }
    }

    pub fn is_gt(self) -> (r: bool)
        ensures
            r == (self == Order::Greater),
    {
        match self {
            Order::Greater => true,
            _ => false,
        }
    }

    pub fn is_eq(self) -> (r: bool)
        ensures
            r == (self == Order::Equal),
    {
        match self {
            Order::Equal => true,
            _ => false,
        }
    }
}

/// What a binary search for `x` in `s` may answer: `Ok(i)` where `x` is,
/// `Err(i)` after a smaller value and (at the start) before a larger one.
pub open spec fn search_answer_ok(s: Seq<Num>, x: Num, r: Result<usize, usize>) -> bool {
    match r {
        Ok(i) => i < s.len() && s[i as int] == x,
        Err(i) => {
            &&& i <= s.len()
            &&& i > 0 ==> s[i - 1] < x
            &&& i == 0 && s.len() > 0 ==> x < s[0]
        },
    }
}

/// Where the search for `x` settles, starting from the stretch of `size`
/// entries at `base`: each round probes the entry half way in and keeps the
/// upper half when that entry is at most `x`, else the lower half.
pub open spec fn search_base(s: Seq<Num>, x: Num, base: int, size: int) -> int
    decreases size,
{
    if size <= 1 {
        base
    } else {
        let mid = base + size / 2;
        search_base(s, x, if s[mid] <= x { mid } else { base }, size - size / 2)
    }
}

/// The positions probed by the halving rounds, in order.
pub open spec fn search_probes(s: Seq<Num>, x: Num, base: int, size: int) -> Seq<int>
    decreases size,
{
    if size <= 1 {
        Seq::empty()
    } else {
        let mid = base + size / 2;
        seq![mid] + search_probes(s, x, if s[mid] <= x { mid } else { base }, size - size / 2)
    }
}

/// The answer of the binary search for `x` in `s`: where it settles, `Ok`
/// if the entry there is `x`, else `Err` just after it (smaller) or at it
/// (larger); `Err(0)` for an empty `s`.
pub open spec fn search_answer(s: Seq<Num>, x: Num) -> Result<usize, usize> {
    if s.len() == 0 {
        Err(0)
    } else {
        let b = search_base(s, x, 0, s.len() as int);
        if s[b] == x {
            Ok(b as usize)
        } else if s[b] < x {
            Err((b + 1) as usize)
        } else {
            Err(b as usize)
        }
    }
}

/// Comparisons of the entries at positions `ps` (shifted by `off`) with the
/// value known by `idx`.
pub open spec fn compares_at(ps: Seq<int>, off: int, idx: Option<usize>) -> Seq<ListAction<Num>> {
    Seq::new(ps.len(), |k: int| ListAction::Compare(Some((off + ps[k]) as usize), idx))
}

/// The comparisons the binary search for `x` in `s` reports: each halving
/// probe, then the entry where it settles; none for an empty `s`. Their
/// number depends on the length of `s` alone.
pub open spec fn search_trace(s: Seq<Num>, x: Num, off: int, idx: Option<usize>) -> Seq<ListAction<Num>> {
    if s.len() == 0 {
        Seq::empty()
    } else {
        compares_at(
            search_probes(s, x, 0, s.len() as int).push(search_base(s, x, 0, s.len() as int)),
            off,
            idx,
        )
    }
}

/// The number of halving probes depends on the size alone.
pub proof fn lemma_search_probes_len(s: Seq<Num>, x: Num, t: Seq<Num>, y: Num, base: int, other: int, size: int)
    ensures
        search_probes(s, x, base, size).len() == search_probes(t, y, other, size).len(),
    decreases size,
{
    if size > 1 {
        let mid = base + size / 2;
        let mid2 = other + size / 2;
        lemma_search_probes_len(
            s,
            x,
            t,
            y,
            if s[mid] <= x { mid } else { base },
            if t[mid2] <= y { mid2 } else { other },
            size - size / 2,
        );
    }
}

/// The settled position lies in the stretch searched.
pub proof fn lemma_search_base_bounds(s: Seq<Num>, x: Num, base: int, size: int)
    requires
        size >= 1,
    ensures
        base <= search_base(s, x, base, size) < base + size,
    decreases size,
{
    if size > 1 {
        let mid = base + size / 2;
        lemma_search_base_bounds(s, x, if s[mid] <= x { mid } else { base }, size - size / 2);
    }
}

/// Whatever `s` holds, the answer is of the kind `search_answer_ok` allows.
pub proof fn lemma_search_answer_ok(s: Seq<Num>, x: Num)
    requires
        s.len() < usize::MAX,
    ensures
        search_answer_ok(s, x, search_answer(s, x)),
{
    if s.len() > 0 {
        let b = search_base(s, x, 0, s.len() as int);
        lemma_search_settles(s, x, 0, s.len() as int);
        lemma_search_base_bounds(s, x, 0, s.len() as int);
        assert(0 <= b < s.len());
        if s[b] == x {
        } else if s[b] < x {
        } else {
            assert(b == 0);
        }
    }
}

/// Where the search settles, the entry is at most `x` unless it settled at
/// the start, and the next entry (if any, within the stretch) is above `x`
/// unless it settled at the start of a stretch that began there.
proof fn lemma_search_settles(s: Seq<Num>, x: Num, base: int, size: int)
    requires
        0 <= base,
        size >= 1,
        base + size <= s.len(),
        base > 0 ==> s[base] <= x,
    ensures
        search_base(s, x, base, size) > 0 ==> s[search_base(s, x, base, size)] <= x,
    decreases size,
{
    if size > 1 {
        let mid = base + size / 2;
        lemma_search_settles(s, x, if s[mid] <= x { mid } else { base }, size - size / 2);
    }
}

/// The comparisons of the sortedness check of `s` (a window that starts at
/// `off`) from neighbour pair `i - 1, i` on: each pair is compared, until one
/// is out of order or the end is reached.
pub open spec fn sorted_check_trace(s: Seq<Num>, i: int, off: int) -> Seq<ListAction<Num>>
    decreases s.len() - i,
{
    if i <= 0 || i >= s.len() {
        Seq::empty()
    } else {
        seq![compare_at(off, i - 1, i)] + if s[i - 1] > s[i] {
            Seq::empty()
        } else {
            sorted_check_trace(s, i + 1, off)
        }
    }
}

/// What a binary search for `x` in the sorted `s` answers: `Ok(i)` where
/// `x` is, `Err(i)` where `x` would be inserted to keep `s` sorted.
pub open spec fn sorted_search_answer(s: Seq<Num>, x: Num, r: Result<usize, usize>) -> bool {
    match r {
        Ok(i) => i < s.len() && s[i as int] == x,
        Err(i) => {
            &&& i <= s.len()
            &&& forall|j: int| 0 <= j < i ==> s[j] < x
            &&& forall|j: int| i <= j < s.len() ==> x < s[j]
        },
    }
}

impl CheckedListMut {
    /// Compares the entries at window positions `fst` and `snd` and reports it.
    pub fn cmp(&mut self, fst: usize, snd: usize) -> (o: Ordering)
        requires
            old(self).wf(),
            fst < old(self)@.len(),
            snd < old(self)@.len(),
        ensures
            final(self).wf(),
            final(self).extends(old(self)),
            final(self).whole() == old(self).whole(),
            final(self).trace() == old(self).trace().push(
                ListAction::Compare(Some(old(self).pos(fst)), Some(old(self).pos(snd))),
            ),
            o == ordering_of(old(self).at(fst), old(self).at(snd)),
    {
        self.compare(fst, snd).to_ordering()
    }

    /// Binary search for the value of `item` among the window positions
    /// `start..end`; the answer counts from `start`. Every probe is reported
    /// as a comparison of the probed entry with `item`.
    pub fn cval_binary_search(&mut self, start: usize, end: usize, item: &CheckedValue) -> (r:
        Result<usize, usize>)
        requires
            old(self).wf(),
            start <= end <= old(self)@.len(),
            position_ok(item.index, old(self).whole().len()),
        ensures
            final(self).wf(),
            final(self).extends(old(self)),
            final(self).whole() == old(self).whole(),
            search_answer_ok(old(self)@.subrange(start as int, end as int), item.value, r),
            sorted(old(self)@.subrange(start as int, end as int)) ==> sorted_search_answer(
                old(self)@.subrange(start as int, end as int),
                item.value,
                r,
            ),
            r == search_answer(old(self)@.subrange(start as int, end as int), item.value),
            final(self).trace() == old(self).trace() + search_trace(
                old(self)@.subrange(start as int, end as int),
                item.value,
                old(self).lo() + start,
                item.index,
            ),
            forall|k: int|
                old(self).trace().len() <= k < final(self).trace().len() ==> (
                #[trigger] final(self).trace()[k] is Compare),
    {
        let ghost s = self@.subrange(start as int, end as int);
        let ghost x = item.value;
        let ghost t0 = self.trace();
        let ghost off = old(self).lo() + start;
        let ghost n = (end - start) as int;
        let mut size = end - start;
        proof {
            lemma_extends_refl(self);
        }
        if size == 0 {
            proof {
                assert(self.trace() =~= t0 + search_trace(s, x, off, item.index));
            }
            return Err(0);
        }
        let mut base: usize = 0;
        let ghost mut done: Seq<int> = Seq::empty();
        proof {
            assert(done + search_probes(s, x, 0, n) =~= search_probes(s, x, 0, n));
            assert(self.trace() =~= t0 + compares_at(done, off, item.index));
        }
        while size > 1
            invariant
                n == s.len(),
                off == old(self).lo() + start,
                self.lo() == old(self).lo(),
                search_base(s, x, base as int, size as int) == search_base(s, x, 0, n),
                done + search_probes(s, x, base as int, size as int) == search_probes(s, x, 0, n),
                self.trace() == t0 + compares_at(done, off, item.index),
                self.wf(),
                self.extends(old(self)),
                self.whole() == old(self).whole(),
                t0 == old(self).trace(),
                start <= end <= self@.len(),
                s == self@.subrange(start as int, end as int),
                x == item.value,
                position_ok(item.index, self.whole().len()),
                1 <= size,
                base + size <= s.len(),
                base > 0 ==> s[base as int] <= x,
                sorted(s) ==> forall|j: int| 0 <= j < base ==> s[j] <= x,
                sorted(s) ==> forall|j: int| base + size <= j < s.len() ==> x < s[j],
                forall|k: int| t0.len() <= k < self.trace().len() ==> (#[trigger] self.trace()[k] is Compare),
            decreases size,
        {
            let half = size / 2;
            let mid = base + half;
            let ghost before = *self;
            let o = self.compare_with(start + mid, item);
            proof {
                lemma_extends_trans(self, &before, old(self));
                assert(self.trace()[self.trace().len() - 1] is Compare);
                assert(s[mid as int] == old(self)@[start + mid]);
                let ghost nb: int = if s[mid as int] <= x { mid as int } else { base as int };
                assert(search_probes(s, x, base as int, size as int) == seq![mid as int]
                    + search_probes(s, x, nb, size - half));
                assert(done + search_probes(s, x, base as int, size as int) =~= done.push(mid as int)
                    + search_probes(s, x, nb, size - half));
                assert(self.trace() =~= t0 + compares_at(done.push(mid as int), off, item.index));
                done = done.push(mid as int);
            }
            if !o.is_gt() {
                base = mid;
            }
            size -= half;
        }
        proof {
            assert(done =~= search_probes(s, x, 0, n));
        }
        let ghost before = *self;
        let o = self.compare_with(start + base, item);
        proof {
            lemma_extends_trans(self, &before, old(self));
            assert(self.trace()[self.trace().len() - 1] is Compare);
            assert(s[base as int] == old(self)@[start + base]);
            assert(search_base(s, x, 0, n) == base);
            assert(self.trace() =~= t0 + search_trace(s, x, off, item.index));
        }
        if o.is_eq() {
            Ok(base)
        } else if o.is_lt() {
            Err(base + 1)
        } else {
            Err(base)
        }
    }

    /// Whether the window is in ascending order, comparing neighbours from
    /// the start until a pair is out of order; each comparison is reported.
    pub fn cval_is_sorted(&mut self) -> (r: bool)
        requires
            old(self).wf(),
        ensures
            final(self).wf(),
            final(self).extends(old(self)),
            final(self).whole() == old(self).whole(),
            r == sorted(old(self)@),
            final(self).trace() == old(self).trace() + sorted_check_trace(
                old(self)@,
                1,
                old(self).lo() as int,
            ),
            forall|k: int|
                old(self).trace().len() <= k < final(self).trace().len() ==> (
                #[trigger] final(self).trace()[k] is Compare),
    {
        let ghost off = old(self).lo() as int;
        let n = self.len();
        let ghost s = self@;
        let ghost t0 = self.trace();
        proof {
            lemma_extends_refl(self);
        }
        let mut i: usize = 1;
        while i < n
            invariant
                self.wf(),
                self.extends(old(self)),
                self.whole() == old(self).whole(),
                t0 == old(self).trace(),
                s == old(self)@,
                self@ == s,
                n == s.len(),
                1 <= i,
                i <= n || n == 0,
                forall|a: int, b: int| 0 <= a <= b < i && b < n ==> s[a] <= s[b],
                forall|k: int| t0.len() <= k < self.trace().len() ==> (#[trigger] self.trace()[k] is Compare),
                self.lo() == off,
                self.trace() + sorted_check_trace(s, i as int, off) == t0 + sorted_check_trace(s, 1, off),
            decreases n - i,
        {
            let ghost before = *self;
            let o = self.compare(i - 1, i);
            proof {
                lemma_extends_trans(self, &before, old(self));
                assert(self.trace()[self.trace().len() - 1] is Compare);
                let rest = if s[i - 1] > s[i as int] {
                    Seq::<ListAction<Num>>::empty()
                } else {
                    sorted_check_trace(s, i + 1, off)
                };
                assert(sorted_check_trace(s, i as int, off) == seq![compare_at(off, i - 1, i as int)] + rest);
                assert(self.trace() + rest =~= before.trace() + (seq![compare_at(off, i - 1, i as int)] + rest));
            }
            if o.is_gt() {
                proof {
                    assert(self.trace() =~= self.trace() + Seq::<ListAction<Num>>::empty());
                }
                return false;
            }
            i += 1;
        }
        proof {
            assert(self.trace() =~= self.trace() + sorted_check_trace(s, i as int, off));
        }
        true
    }
}

} // verus!
