use vstd::prelude::*;
use crate::consts::Num;
use crate::tools::checked_value::{CheckedValue, Order, order_of};
use crate::tools::seq_facts::{permutation, swapped, lemma_swap_permutation};
use crate::tools::misc::{gcd, divides, spec_gcd, lemma_spec_gcd, lemma_gcd_unique};
use crate::tools::rotation::{
    orbit, lemma_orbit_next, lemma_orbit_zero, lemma_orbit_back, lemma_orbit_residue,
    lemma_orbit_covers,
};
use vstd::arithmetic::div_mod::{lemma_mod_multiples_vanish, lemma_small_mod, lemma_mod_bound};

verus! {

/// One observable step of a sort: what it reports to whoever displays the list.
#[derive(Copy, Clone, Debug, PartialEq, Eq)]
pub enum ListAction<T> {
    /// The entries at the two positions were exchanged.
    Swap(usize, usize),
    /// The values at the two positions (or values held outside the list, `None`)
    /// were compared.
    Compare(Option<usize>, Option<usize>),
    /// The value was written at the position.
    Write(usize, T),
}

/// What an action does to the list it is reported for.
pub open spec fn apply_action(s: Seq<Num>, a: ListAction<Num>) -> Seq<Num> {
    match a {
        ListAction::Swap(i, j) => swapped(s, i as int, j as int),
        ListAction::Compare(_, _) => s,
        ListAction::Write(i, v) => s.update(i as int, v),
    }
}

/// The list obtained by applying `acts` in order to `s`.
pub open spec fn replay(s: Seq<Num>, acts: Seq<ListAction<Num>>) -> Seq<Num>
    decreases acts.len(),
{
    if acts.len() == 0 {
        s
    } else {
        apply_action(replay(s, acts.drop_last()), acts.last())
    }
}

/// An optional position lies inside a list of length `n`.
pub open spec fn position_ok(p: Option<usize>, n: nat) -> bool {
    match p {
        Some(i) => i < n,
        None => true,
    }
}

/// Every position the action names lies inside a list of length `n`.
pub open spec fn action_ok(a: ListAction<Num>, n: nat) -> bool {
    match a {
        ListAction::Swap(i, j) => i < n && j < n,
        ListAction::Compare(x, y) => position_ok(x, n) && position_ok(y, n),
        ListAction::Write(i, _) => i < n,
    }
}

/// A written value is one of `vals`.
pub open spec fn writes_from(a: ListAction<Num>, vals: Seq<Num>) -> bool {
    match a {
        ListAction::Write(_, v) => vals.contains(v),
        _ => true,
    }
}

/// Replaying one more action applies it to the replayed list.
pub proof fn lemma_replay_push(s: Seq<Num>, acts: Seq<ListAction<Num>>, a: ListAction<Num>)
    ensures
        replay(s, acts.push(a)) == apply_action(replay(s, acts), a),
{
    assert(acts.push(a).drop_last() =~= acts);
}

/// Replaying the first action, then the rest, replays them all: stepping
/// through the actions one at a time does not change where they lead.
pub proof fn lemma_replay_first(s: Seq<Num>, acts: Seq<ListAction<Num>>)
    requires
        acts.len() > 0,
    ensures
        replay(apply_action(s, acts[0]), acts.drop_first()) == replay(s, acts),
    decreases acts.len(),
{
    if acts.len() == 1 {
        assert(acts.drop_first() =~= Seq::<ListAction<Num>>::empty());
        assert(acts.drop_last() =~= Seq::<ListAction<Num>>::empty());
        assert(replay(s, acts.drop_last()) == s);
        assert(replay(apply_action(s, acts[0]), acts.drop_first()) == apply_action(s, acts[0]));
        assert(acts.last() == acts[0]);
    } else {
        lemma_replay_first(s, acts.drop_last());
        assert(acts.drop_first().drop_last() =~= acts.drop_last().drop_first());
        assert(acts.drop_last()[0] == acts[0]);
        assert(acts.drop_first().last() == acts.last());
        let t = apply_action(s, acts[0]);
        assert(replay(t, acts.drop_first()) == apply_action(
            replay(t, acts.drop_first().drop_last()),
            acts.drop_first().last(),
        ));
    }
}

/// The comparison of the entries at `i` and `j` of a window that starts at `off`.
pub open spec fn compare_at(off: int, i: int, j: int) -> ListAction<Num> {
    ListAction::Compare(Some((off + i) as usize), Some((off + j) as usize))
}

/// The exchange of the entries at `i` and `j` of a window that starts at `off`.
pub open spec fn swap_at(off: int, i: int, j: int) -> ListAction<Num> {
    ListAction::Swap((off + i) as usize, (off + j) as usize)
}

/// The swaps of the rotation cycle that starts at place `start`, from place
/// `i` on, for at most `steps` more places: each place is swapped with the
/// place `m` further on (modulo `n`), until that is the start again.
pub open spec fn cycle_swaps(start: int, i: int, m: int, n: int, off: int, steps: nat) -> Seq<ListAction<Num>>
    decreases steps,
{
    if steps == 0 || n <= 0 {
        Seq::empty()
    } else {
        let ni = (i + m) % n;
        if ni == start {
            Seq::empty()
        } else {
            seq![swap_at(off, i, ni)] + cycle_swaps(start, ni, m, n, off, (steps - 1) as nat)
        }
    }
}

/// The swaps of the rotation cycles that start at `start`, ..., `g - 1`.
pub open spec fn cycles_swaps(start: int, g: int, m: int, n: int, off: int) -> Seq<ListAction<Num>>
    decreases g - start,
{
    if start >= g {
        Seq::empty()
    } else {
        cycle_swaps(start, start, m, n, off, n as nat) + cycles_swaps(start + 1, g, m, n, off)
    }
}

/// The actions of rotating a window of length `n` that starts at `off`
/// left by `m`: the swaps along each of the `gcd(n, m)` cycles, one cycle
/// after the other.
pub open spec fn rotate_trace(n: int, m: int, off: int) -> Seq<ListAction<Num>> {
    if n <= 0 {
        Seq::empty()
    } else {
        cycles_swaps(0, spec_gcd(n as nat, m as nat) as int, m, n, off)
    }
}

/// `s` rotated left by `m` places, modulo its length.
#[verifier::opaque]
pub open spec fn rotated(s: Seq<Num>, m: int) -> Seq<Num> {
    Seq::new(s.len(), |p: int| s[(p + m) % (s.len() as int)])
}

/// Rotating by a whole number of rounds changes nothing.
pub proof fn lemma_rotated_whole_rounds(s: Seq<Num>, m: int)
    requires
        s.len() > 0,
        m >= 0,
        m % (s.len() as int) == 0,
    ensures
        rotated(s, m) == s,
{
    let n = s.len() as int;
    reveal(rotated);
    assert forall|p: int| 0 <= p < n implies #[trigger] rotated(s, m)[p] == s[p] by {
        vstd::arithmetic::div_mod::lemma_add_mod_noop(p, m, n);
        lemma_small_mod(p as nat, n as nat);
    }
    assert(rotated(s, m) =~= s);
}

/// A rotation is the part from `m % len` on, then the part before it, so it
/// keeps the values.
pub proof fn lemma_rotated_permutation(s: Seq<Num>, m: int)
    requires
        s.len() > 0,
        m >= 0,
    ensures
        permutation(rotated(s, m), s),
        rotated(s, m).len() == s.len(),
{
    let n = s.len() as int;
    let r = m % n;
    reveal(rotated);
    assert(0 <= r < n);
    let back = s.subrange(r, n) + s.subrange(0, r);
    assert forall|p: int| 0 <= p < n implies #[trigger] rotated(s, m)[p] == back[p] by {
        vstd::arithmetic::div_mod::lemma_add_mod_noop(p, m, n);
        lemma_small_mod(p as nat, n as nat);
        lemma_mod_bound(m, n);
        if p + r < n {
            lemma_small_mod((p + r) as nat, n as nat);
        } else {
            vstd::arithmetic::div_mod::lemma_fundamental_div_mod_converse(p + r, n, 1, p + r - n);
        }
    }
    assert(rotated(s, m) =~= back);
    assert(s =~= s.subrange(0, r) + s.subrange(r, n));
    let a = s.subrange(0, r);
    let b = s.subrange(r, n);
    vstd::seq_lib::lemma_multiset_commutative(b, a);
    vstd::seq_lib::lemma_multiset_commutative(a, b);
    assert(b.to_multiset().add(a.to_multiset()) =~= a.to_multiset().add(b.to_multiset()));
    assert(back.to_multiset() == s.to_multiset());
}

/// Place `q` is among the first `k + 1` places of the orbit of `s`.
pub open spec fn visited(s: int, k: int, m: int, n: int, q: int) -> bool {
    exists|j: int| 0 <= j <= k && #[trigger] orbit(s, j, m, n) == q
}

/// `extends` is reflexive.
pub proof fn lemma_extends_refl(a: &CheckedListMut)
    ensures
        a.extends(a),
{
    assert(a.trace().subrange(0, a.trace().len() as int) =~= a.trace());
}

/// `extends` is transitive.
pub proof fn lemma_extends_trans(c: &CheckedListMut, b: &CheckedListMut, a: &CheckedListMut)
    requires
        b.extends(a),
        c.extends(b),
    ensures
        c.extends(a),
{
    assert(c.trace().subrange(0, a.trace().len() as int) =~= b.trace().subrange(
        0,
        a.trace().len() as int,
    ));
    assert forall|k: int|
        0 <= k < a.lo() || a.hi() <= k < a.whole().len() implies #[trigger] c.whole()[k]
        == a.whole()[k] by {
        assert(c.whole()[k] == b.whole()[k]);
    }
}

/// `extends_frame` is transitive.
pub proof fn lemma_frame_trans(c: &CheckedListMut, b: &CheckedListMut, a: &CheckedListMut)
    requires
        b.extends_frame(a),
        c.extends_frame(b),
    ensures
        c.extends_frame(a),
{
    assert(c.trace().subrange(0, a.trace().len() as int) =~= b.trace().subrange(
        0,
        a.trace().len() as int,
    ));
    assert forall|k: int|
        0 <= k < a.lo() || a.hi() <= k < a.whole().len() implies #[trigger] c.whole()[k]
        == a.whole()[k] by {
        assert(c.whole()[k] == b.whole()[k]);
    }
}

/// Working on a narrower window and then widening it again changes the wider
/// window only where the narrower one lies.
pub proof fn lemma_subwindow(
    parent: &CheckedListMut,
    sub_before: &CheckedListMut,
    sub_after: &CheckedListMut,
    parent_after: &CheckedListMut,
    start: int,
    end: int,
)
    requires
        parent.wf(),
        0 <= start <= end <= parent@.len(),
        sub_before.whole() == parent.whole(),
        sub_before.trace() == parent.trace(),
        sub_before.initial() == parent.initial(),
        sub_before.lo() == parent.lo() + start,
        sub_before.hi() == parent.lo() + end,
        sub_after.extends(sub_before),
        parent_after.whole() == sub_after.whole(),
        parent_after.trace() == sub_after.trace(),
        parent_after.initial() == sub_after.initial(),
        parent_after.lo() == parent.lo(),
        parent_after.hi() == parent.hi(),
    ensures
        parent_after.extends(parent),
        parent_after@ == parent@.subrange(0, start) + sub_after@ + parent@.subrange(
            end,
            parent@.len() as int,
        ),
        parent_after@.len() == parent@.len(),
{
    let lo = parent.lo() as int;
    assert forall|k: int|
        0 <= k < parent.lo() || parent.hi() <= k < parent.whole().len() implies #[trigger] parent_after.whole()[k]
        == parent.whole()[k] by {
        assert(sub_after.whole()[k] == sub_before.whole()[k]);
    }
    assert(parent_after@ =~= parent@.subrange(0, start) + sub_after@ + parent@.subrange(
        end,
        parent@.len() as int,
    )) by {
        assert forall|k: int| 0 <= k < parent@.len() implies #[trigger] parent_after@[k] == (
        parent@.subrange(0, start) + sub_after@ + parent@.subrange(end, parent@.len() as int))[k] by {
            if k < start {
                assert(sub_after.whole()[lo + k] == sub_before.whole()[lo + k]);
            } else if k >= end {
                assert(sub_after.whole()[lo + k] == sub_before.whole()[lo + k]);
            }
        }
    }
}

/// A list handed to a sort.
pub struct CheckedList {
    inner: Vec<Num>,
}

impl View for CheckedList {
    type V = Seq<Num>;

    closed spec fn view(&self) -> Seq<Num> {
        self.inner@
    }
}

impl CheckedList {
    /// Wraps the values of `list`; the entry at position `i` is known by index `i`.
    pub fn new(list: Vec<Num>) -> (res: Self)
        ensures
            res@ == list@,
    {
        CheckedList { inner: list }
    }

    /// The whole list, ready to be sorted, with nothing reported yet.
    pub fn as_mut(self) -> (res: CheckedListMut)
        ensures
            res.wf(),
            res.whole() == self@,
            res.initial() == self@,
            res.lo() == 0,
            res.hi() == self@.len(),
            res.trace() == Seq::<ListAction<Num>>::empty(),
            res.from_initial(),
    {
        let len = self.inner.len();
        let ghost init = self.inner@;
        let res = CheckedListMut {
            values: self.inner,
            actions: Vec::new(),
            lo: 0,
            hi: len,
            initial: Ghost(init),
        };
        proof {
            assert forall|k: int| 0 <= k < res.values@.len() implies res.initial@.contains(
                res.values@[k],
            ) by {
                assert(res.initial@[k] == res.values@[k]);
            }
        }
        res
    }
}

/// A window of a list that a sort works on, together with the record of
/// every action reported so far. Positions passed to its methods count from
/// the start of the window; the actions it records name positions in the
/// whole list.
pub struct CheckedListMut {
    values: Vec<Num>,
    actions: Vec<ListAction<Num>>,
    lo: usize,
    hi: usize,
    initial: Ghost<Seq<Num>>,
}

impl View for CheckedListMut {
    type V = Seq<Num>;

    /// The values inside the window.
    open spec fn view(&self) -> Seq<Num> {
        self.whole().subrange(self.lo() as int, self.hi() as int)
    }
}

impl CheckedListMut {
    /// The values of the whole list.
    pub closed spec fn whole(&self) -> Seq<Num> {
        self.values@
    }

    /// The first position of the window.
    pub closed spec fn lo(&self) -> nat {
        self.lo as nat
    }

    /// One past the last position of the window.
    pub closed spec fn hi(&self) -> nat {
        self.hi as nat
    }

    /// Every action reported so far, oldest first.
    pub closed spec fn trace(&self) -> Seq<ListAction<Num>> {
        self.actions@
    }

    /// The values of the whole list before the first action.
    pub closed spec fn initial(&self) -> Seq<Num> {
        self.initial@
    }

    /// The window lies in the list, the reported actions replayed from the
    /// initial list give the current list, and every action names positions
    /// of the list.
    pub open spec fn wf(&self) -> bool {
        &&& self.lo() <= self.hi() <= self.whole().len()
        &&& self.initial().len() == self.whole().len()
        &&& replay(self.initial(), self.trace()) == self.whole()
        &&& forall|k: int|
            0 <= k < self.trace().len() ==> action_ok(#[trigger] self.trace()[k], self.whole().len())
    }

    /// Every value written, and every value in the list, is one the list
    /// started with.
    pub open spec fn from_initial(&self) -> bool {
        &&& forall|k: int|
            0 <= k < self.trace().len() ==> writes_from(#[trigger] self.trace()[k], self.initial())
        &&& forall|k: int| 0 <= k < self.whole().len() ==> self.initial().contains(#[trigger] self.whole()[k])
    }

    /// `self` is `old` after more actions inside the same window, and if
    /// only values the list started with were written before, that is still so.
    pub open spec fn extends(&self, old: &Self) -> bool {
        &&& self.extends_frame(old)
        &&& old.from_initial() ==> self.from_initial()
    }

    /// `self` is `old` after more actions inside the same window: the list
    /// outside the window, the window and the earlier actions are unchanged.
    pub open spec fn extends_frame(&self, old: &Self) -> bool {
        &&& self.lo() == old.lo()
        &&& self.hi() == old.hi()
        &&& self.initial() == old.initial()
        &&& self.whole().len() == old.whole().len()
        &&& forall|k: int|
            0 <= k < old.lo() || old.hi() <= k < old.whole().len() ==> #[trigger] self.whole()[k]
                == old.whole()[k]
        &&& old.trace().len() <= self.trace().len()
        &&& self.trace().subrange(0, old.trace().len() as int) == old.trace()
    }

    /// The position in the whole list of window position `i`.
    pub open spec fn position(&self, i: int) -> usize {
        (self.lo() + i) as usize
    }

    /// The value at window position `i`.
    pub open spec fn at(&self, i: usize) -> Num {
        self@[i as int]
    }

    /// The position in the whole list of window position `i`.
    pub open spec fn pos(&self, i: usize) -> usize {
        (self.lo() + i) as usize
    }

    /// The number of entries in the window.
    pub fn len(&self) -> (n: usize)
        requires
            self.wf(),
        ensures
            n == self@.len(),
    {
        self.hi - self.lo
    }

    /// The entry at window position `i`, known by its position in the whole list.
    pub fn index(&self, i: usize) -> (v: CheckedValue)
        requires
            self.wf(),
            i < self@.len(),
        ensures
            v.value == self@[i as int],
            v.index == Some(self.position(i as int)),
    {
        CheckedValue { index: Some(self.lo + i), value: self.values[self.lo + i] }
    }

    /// A copy of the value at window position `idx`, held outside the list.
    pub fn read(&self, idx: usize) -> (v: CheckedValue)
        requires
            self.wf(),
            idx < self@.len(),
        ensures
            v.value == self@[idx as int],
            v.index == None::<usize>,
            self.from_initial() ==> self.initial().contains(v.value),
    {
        CheckedValue { index: None, value: self.values[self.lo + idx] }
    }

    /// Exchanges the entries at window positions `a` and `b` and reports it.
    pub fn swap(&mut self, a: usize, b: usize)
        requires
            old(self).wf(),
            a < old(self)@.len(),
            b < old(self)@.len(),
        ensures
            final(self).wf(),
            final(self).extends(old(self)),
            final(self)@ == swapped(old(self)@, a as int, b as int),
            final(self).trace() == old(self).trace().push(
                ListAction::Swap(old(self).position(a as int), old(self).position(b as int)),
            ),
    {
        let ga = self.lo + a;
        let gb = self.lo + b;
        let va = self.values[ga];
        let vb = self.values[gb];
        let ghost old_whole = self.values@;
        self.values.set(ga, vb);
        self.values.set(gb, va);
        let act = ListAction::Swap(ga, gb);
        let ghost old_trace = self.actions@;
        self.actions.push(act);
        proof {
            lemma_replay_push(self.initial@, old_trace, act);
            assert(self.values@ =~= swapped(old_whole, ga as int, gb as int));
            assert(self@ =~= swapped(old(self)@, a as int, b as int));
            if old(self).from_initial() {
                assert forall|k: int| 0 <= k < self.values@.len() implies self.initial@.contains(
                    #[trigger] self.values@[k],
                ) by {
                    if k == ga {
                        assert(old_whole[gb as int] == self.values@[k]);
                    } else if k == gb {
                        assert(old_whole[ga as int] == self.values@[k]);
                    } else {
                        assert(old_whole[k] == self.values@[k]);
                    }
                }
                assert forall|k: int| 0 <= k < self.actions@.len() implies writes_from(
                    #[trigger] self.actions@[k],
                    self.initial@,
                ) by {
                    if k < old_trace.len() {
                        assert(self.actions@[k] == old_trace[k]);
                    }
                }
            }
            assert forall|k: int| 0 <= k < self.actions@.len() implies action_ok(
                #[trigger] self.actions@[k],
                self.values@.len(),
            ) by {
                if k < old_trace.len() {
                    assert(self.actions@[k] == old_trace[k]);
                }
            }
            assert(self.actions@.subrange(0, old_trace.len() as int) =~= old_trace);
        }
    }

    /// Writes the value of `val` at window position `idx`, reports it, and
    /// returns the value that was there, held outside the list.
    pub fn replace(&mut self, idx: usize, val: CheckedValue) -> (prev: CheckedValue)
        requires
            old(self).wf(),
            idx < old(self)@.len(),
        ensures
            final(self).wf(),
            final(self).extends_frame(old(self)),
            old(self).initial().contains(val.value) ==> final(self).extends(old(self)),
            final(self)@ == old(self)@.update(idx as int, val.value),
            final(self).trace() == old(self).trace().push(
                ListAction::Write(old(self).position(idx as int), val.value),
            ),
            prev.value == old(self)@[idx as int],
            prev.index == None::<usize>,
    {
        let g = self.lo + idx;
        let old_value = self.values[g];
        let ghost old_whole = self.values@;
        self.values.set(g, val.value);
        let act = ListAction::Write(g, val.value);
        let ghost old_trace = self.actions@;
        self.actions.push(act);
        proof {
            lemma_replay_push(self.initial@, old_trace, act);
            assert(self@ =~= old(self)@.update(idx as int, val.value));
            if old(self).from_initial() && old(self).initial().contains(val.value) {
                assert forall|k: int| 0 <= k < self.values@.len() implies self.initial@.contains(
                    #[trigger] self.values@[k],
                ) by {
                    if k != g {
                        assert(old_whole[k] == self.values@[k]);
                    }
                }
                assert forall|k: int| 0 <= k < self.actions@.len() implies writes_from(
                    #[trigger] self.actions@[k],
                    self.initial@,
                ) by {
                    if k < old_trace.len() {
                        assert(self.actions@[k] == old_trace[k]);
                    }
                }
            }
            assert forall|k: int| 0 <= k < self.actions@.len() implies action_ok(
                #[trigger] self.actions@[k],
                self.values@.len(),
            ) by {
                if k < old_trace.len() {
                    assert(self.actions@[k] == old_trace[k]);
                }
            }
            assert(self.actions@.subrange(0, old_trace.len() as int) =~= old_trace);
        }
        CheckedValue { index: None, value: old_value }
    }

    /// Narrows the window to its positions `start..end` and returns the
    /// bounds it had, for `restore`.
    pub fn slice(&mut self, start: usize, end: usize) -> (prev: (usize, usize))
        requires
            old(self).wf(),
            start <= end <= old(self)@.len(),
        ensures
            final(self).wf(),
            final(self).whole() == old(self).whole(),
            final(self).trace() == old(self).trace(),
            final(self).initial() == old(self).initial(),
            final(self).lo() == old(self).lo() + start,
            final(self).hi() == old(self).lo() + end,
            prev.0 == old(self).lo(),
            prev.1 == old(self).hi(),
    {
        let prev = (self.lo, self.hi);
        self.hi = self.lo + end;
        self.lo = self.lo + start;
        prev
    }

    /// Sets the window back to bounds that `slice` returned.
    pub fn restore(&mut self, bounds: (usize, usize))
        requires
            old(self).wf(),
            bounds.0 <= bounds.1 <= old(self).whole().len(),
        ensures
            final(self).wf(),
            final(self).whole() == old(self).whole(),
            final(self).trace() == old(self).trace(),
            final(self).initial() == old(self).initial(),
            final(self).lo() == bounds.0,
            final(self).hi() == bounds.1,
    {
        self.lo = bounds.0;
        self.hi = bounds.1;
    }

    /// Compares the entries at window positions `a` and `b` and reports it.
    pub fn compare(&mut self, a: usize, b: usize) -> (o: Order)
        requires
            old(self).wf(),
            a < old(self)@.len(),
            b < old(self)@.len(),
        ensures
            final(self).wf(),
            final(self).extends(old(self)),
            final(self).whole() == old(self).whole(),
            final(self).trace() == old(self).trace().push(
                ListAction::Compare(Some(old(self).pos(a)), Some(old(self).pos(b))),
            ),
            o == order_of(old(self)@[a as int], old(self)@[b as int]),
    {
        let va = self.values[self.lo + a];
        let vb = self.values[self.lo + b];
        self.record(ListAction::Compare(Some(self.lo + a), Some(self.lo + b)));
        Order::of(va, vb)
    }

    /// Compares the entry at window position `a` with `item` and reports it.
    pub fn compare_with(&mut self, a: usize, item: &CheckedValue) -> (o: Order)
        requires
            old(self).wf(),
            a < old(self)@.len(),
            position_ok(item.index, old(self).whole().len()),
        ensures
            final(self).wf(),
            final(self).extends(old(self)),
            final(self).whole() == old(self).whole(),
            final(self).trace() == old(self).trace().push(
                ListAction::Compare(Some(old(self).pos(a)), item.index),
            ),
            o == order_of(old(self)@[a as int], item.value),
    {
        let va = self.values[self.lo + a];
        self.record(ListAction::Compare(Some(self.lo + a), item.index));
        Order::of(va, item.value)
    }

    /// Reports a comparison, which changes no value.
    fn record(&mut self, act: ListAction<Num>)
        requires
            old(self).wf(),
            act is Compare,
            action_ok(act, old(self).whole().len()),
        ensures
            final(self).wf(),
            final(self).extends(old(self)),
            final(self).whole() == old(self).whole(),
            final(self).lo() == old(self).lo(),
            final(self).hi() == old(self).hi(),
            final(self).trace() == old(self).trace().push(act),
    {
        let ghost old_trace = self.actions@;
        self.actions.push(act);
        proof {
            lemma_replay_push(self.initial@, old_trace, act);
            assert forall|k: int| 0 <= k < self.actions@.len() implies action_ok(
                #[trigger] self.actions@[k],
                self.values@.len(),
            ) && (old(self).from_initial() ==> writes_from(self.actions@[k], self.initial@)) by {
                if k < old_trace.len() {
                    assert(self.actions@[k] == old_trace[k]);
                }
            }
            assert(self.actions@.subrange(0, old_trace.len() as int) =~= old_trace);
        }
    }

    /// Rotates the window left by `mid` places (modulo its length) with swaps,
    /// following each cycle of "the entry `mid` places on" in turn.
    pub fn rotate_left(&mut self, mid: usize)
        requires
            old(self).wf(),
            old(self)@.len() > 0 || mid == 0,
            old(self)@.len() + mid <= usize::MAX,
        ensures
            final(self).wf(),
            final(self).extends(old(self)),
            permutation(final(self)@, old(self)@),
            final(self)@ == rotated(old(self)@, mid as int),
            final(self).trace() == old(self).trace() + rotate_trace(
                old(self)@.len() as int,
                mid as int,
                old(self).lo() as int,
            ),
    {
        let len = self.len();
        let g = gcd(len, mid);
        let ghost n = len as int;
        let ghost m = mid as int;
        let ghost off = old(self).lo() as int;
        let ghost t0 = old(self).trace();
        proof {
            lemma_extends_refl(self);
            if len > 0 {
                lemma_spec_gcd(len as nat, mid as nat);
                lemma_gcd_unique(n, m, g as int, spec_gcd(len as nat, mid as nat) as int);
                assert(divides(g as int, n));
                assert(g <= len) by {
                    if g > len {
                        lemma_small_mod(len as nat, g as nat);
                    }
                }
            }
        }
        let ghost s0 = self@;
        let mut starting_i: usize = 0;
        while starting_i < g
            invariant
                self.wf(),
                self.extends(old(self)),
                permutation(self@, old(self)@),
                self@.len() == len,
                n == len,
                m == mid,
                len + mid <= usize::MAX,
                s0 == old(self)@,
                len > 0 ==> g == spec_gcd(len as nat, mid as nat) && 0 < g <= len && n % (g as int)
                    == 0 && m % (g as int) == 0,
                len == 0 ==> g == 0,
                starting_i <= g,
                self.lo() == off,
                self.trace() + cycles_swaps(starting_i as int, g as int, m, n, off) == t0 + cycles_swaps(
                    0,
                    g as int,
                    m,
                    n,
                    off,
                ),
                forall|p: int|
                    0 <= p < n ==> (p % (g as int) < starting_i ==> #[trigger] self@[p] == s0[(p + m)
                        % n]) && (p % (g as int) >= starting_i ==> self@[p] == s0[p]),
            decreases g - starting_i,
        {
            let ghost c = self@;
            let ghost tc = self.trace();
            let s = starting_i;
            let mut i = s;
            let ghost mut k: int = 0;
            let ghost goal_c = tc + cycle_swaps(s as int, s as int, m, n, off, n as nat);
            proof {
                lemma_orbit_zero(s as int, m, n);
                assert forall|q: int| 0 <= q < n && !visited(s as int, k, m, n, q) implies #[trigger] self@[q]
                    == c[q] by {}
            }
            loop
                invariant_except_break
                    self.trace() + cycle_swaps(s as int, i as int, m, n, off, (n - k) as nat) == goal_c,
                invariant
                    self.lo() == off,
                    self.wf(),
                    self.extends(old(self)),
                    permutation(self@, old(self)@),
                    self@.len() == len,
                    n == len,
                    m == mid,
                    n > 0,
                    len + mid <= usize::MAX,
                    s < len,
                    c.len() == len,
                    0 <= k < n,
                    i == orbit(s as int, k, m, n),
                    i < len,
                    forall|j: int| 0 < j <= k ==> #[trigger] orbit(s as int, j, m, n) != s,
                    forall|j: int|
                        0 <= j < k ==> self@[#[trigger] orbit(s as int, j, m, n)] == c[orbit(
                            s as int,
                            j + 1,
                            m,
                            n,
                        )],
                    self@[i as int] == c[s as int],
                    forall|q: int| 0 <= q < n && !visited(s as int, k, m, n, q) ==> #[trigger] self@[q] == c[q],
                ensures
                    self.trace() == goal_c,
                    self.lo() == off,
                    self.wf(),
                    self.extends(old(self)),
                    permutation(self@, old(self)@),
                    self@.len() == len,
                    0 <= k < n,
                    i == orbit(s as int, k, m, n),
                    orbit(s as int, k + 1, m, n) == s,
                    forall|j: int|
                        0 <= j < k ==> self@[#[trigger] orbit(s as int, j, m, n)] == c[orbit(
                            s as int,
                            j + 1,
                            m,
                            n,
                        )],
                    self@[i as int] == c[s as int],
                    forall|q: int| 0 <= q < n && !visited(s as int, k, m, n, q) ==> #[trigger] self@[q] == c[q],
                decreases n - k,
            {
                let new_i = (i + mid) % len;
                proof {
                    lemma_orbit_next(s as int, k, m, n);
                }
                if new_i == s {
                    proof {
                        assert(cycle_swaps(s as int, i as int, m, n, off, (n - k) as nat) == Seq::<
                            ListAction<Num>,
                        >::empty());
                        assert(self.trace() =~= self.trace() + Seq::<ListAction<Num>>::empty());
                    }
                    break;
                }
                proof {
                    // the next place was not visited yet
                    assert forall|j: int| 0 <= j <= k implies #[trigger] orbit(s as int, j, m, n) != new_i by {
                        if orbit(s as int, j, m, n) == new_i {
                            lemma_orbit_back(s as int, k + 1, j, m, n);
                        }
                    }
                    assert forall|j: int| 0 <= j < k implies #[trigger] orbit(s as int, j, m, n) != i by {
                        if orbit(s as int, j, m, n) == i {
                            lemma_orbit_back(s as int, k, j, m, n);
                        }
                    }
                    assert(!visited(s as int, k, m, n, new_i as int));
                    assert(self@[new_i as int] == c[new_i as int]);
                    if k + 1 == n {
                        lemma_mod_multiples_vanish(m, s as int, n);
                        assert(n * m == (k + 1) * m);
                        lemma_small_mod(s as nat, len as nat);
                    }
                }
                let ghost before = *self;
                self.swap(i, new_i);
                proof {
                    lemma_extends_trans(self, &before, old(self));
                    lemma_swap_permutation(before@, i as int, new_i as int);
                    let k1 = k + 1;
                    let rest = cycle_swaps(s as int, new_i as int, m, n, off, (n - k1) as nat);
                    assert(cycle_swaps(s as int, i as int, m, n, off, (n - k) as nat) == seq![swap_at(
                        off,
                        i as int,
                        new_i as int,
                    )] + rest);
                    assert(self.trace() + rest =~= before.trace() + (seq![swap_at(
                        off,
                        i as int,
                        new_i as int,
                    )] + rest));
                    assert forall|j: int| 0 <= j < k1 implies self@[#[trigger] orbit(s as int, j, m, n)]
                        == c[orbit(s as int, j + 1, m, n)] by {
                        if j < k {
                            assert(orbit(s as int, j, m, n) != new_i);
                        }
                    }
                    assert forall|q: int| 0 <= q < n && !visited(s as int, k1, m, n, q) implies #[trigger] self@[q]
                        == c[q] by {
                        assert(q != new_i) by {
                            if q == new_i {
                                assert(orbit(s as int, k1, m, n) == q);
                            }
                        }
                        assert(q != i) by {
                            if q == i {
                                assert(orbit(s as int, k, m, n) == q);
                            }
                        }
                        assert(!visited(s as int, k, m, n, q)) by {
                            if visited(s as int, k, m, n, q) {
                                let j = choose|j: int| 0 <= j <= k && #[trigger] orbit(s as int, j, m, n) == q;
                                assert(0 <= j <= k1 && orbit(s as int, j, m, n) == q);
                            }
                        }
                    }
                    k = k1;
                }
                i = new_i;
            }
            proof {
                let len_c = k + 1;
                assert forall|p: int| 0 <= p < n implies (p % (g as int) < s + 1 ==> #[trigger] self@[p]
                    == s0[(p + m) % n]) && (p % (g as int) >= s + 1 ==> self@[p] == s0[p]) by {
                    lemma_mod_bound(p, g as int);
                    if p % (g as int) != s {
                        assert(!visited(s as int, k, m, n, p)) by {
                            if visited(s as int, k, m, n, p) {
                                let j = choose|j: int| 0 <= j <= k && #[trigger] orbit(s as int, j, m, n) == p;
                                lemma_orbit_residue(s as int, j, m, n, g as int);
                                lemma_small_mod(s as nat, g as nat);
                            }
                        }
                    } else {
                        lemma_small_mod(s as nat, g as nat);
                        lemma_orbit_covers(s as int, p, mid as nat, len as nat, len_c);
                        let j = choose|j: int| 0 <= j < len_c && orbit(s as int, j, m, n) == p;
                        lemma_orbit_next(s as int, j, m, n);
                        let q = orbit(s as int, j + 1, m, n);
                        lemma_orbit_residue(s as int, j + 1, m, n, g as int);
                        lemma_mod_bound(s as int + (j + 1) * m, n);
                        assert(c[q] == s0[q]);
                        if j == k {
                            assert(self@[p] == c[s as int]);
                        }
                    }
                }
            }
            proof {
                assert(cycles_swaps(s as int, g as int, m, n, off) == cycle_swaps(s as int, s as int, m, n, off, n as nat)
                    + cycles_swaps(s + 1, g as int, m, n, off));
                assert(self.trace() + cycles_swaps(s + 1, g as int, m, n, off) =~= tc + (cycle_swaps(
                    s as int,
                    s as int,
                    m,
                    n,
                    off,
                    n as nat,
                ) + cycles_swaps(s + 1, g as int, m, n, off)));
            }
            starting_i += 1;
        }
        proof {
            assert(self.trace() =~= self.trace() + cycles_swaps(starting_i as int, g as int, m, n, off));
            if len == 0 {
                assert(self.trace() =~= t0 + rotate_trace(n, m, off));
            }
            reveal(rotated);
            assert(self@ =~= rotated(s0, m)) by {
                assert forall|p: int| 0 <= p < n implies #[trigger] self@[p] == rotated(s0, m)[p] by {
                    lemma_mod_bound(p, g as int);
                }
            }
        }
    }

    /// The values of the whole list.
    pub fn values(&self) -> (v: &Vec<Num>)
        ensures
            v@ == self.whole(),
    {
        &self.values
    }

    /// Every action reported so far, oldest first.
    pub fn actions(&self) -> (a: &Vec<ListAction<Num>>)
        ensures
            a@ == self.trace(),
    {
        &self.actions
    }

    /// Hands out the record of every action reported so far.
    pub fn into_actions(self) -> (a: Vec<ListAction<Num>>)
        ensures
            a@ == self.trace(),
    {
        self.actions
    }
}

} // verus!
