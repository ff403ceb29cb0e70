use vstd::prelude::*;
use std::collections::HashSet;
use vstd::std_specs::iter::IteratorSpec;
use crate::consts::Num;
use crate::sorts::sort_type::{SortType, sorts_list, sort_upto, lemma_sort_upto_prefix};
use crate::tools::checked_list::{
    CheckedList, ListAction, action_ok, apply_action, replay, writes_from, lemma_replay_first,
};
use crate::tools::seq_facts::{
    sorted, permutation, swapped, all_at_most, lemma_swap_permutation, lemma_permutation_bounds,
    lemma_permutation_len, lemma_permutation_no_duplicates,
};

verus! {

broadcast use vstd::std_specs::hash::group_hash_axioms;

/// How an entry is drawn: plain, just compared, or just written.
#[derive(Copy, Clone, Debug, PartialEq, Eq, Structural)]
pub enum Highlight {
    Neutral,
    Read,
    Write,
}

impl Default for Highlight {
    fn default() -> (h: Self)
        ensures
            h == Highlight::Neutral,
    {
        Highlight::Neutral
    }
}

/// One drawing instruction for the canvas that shows the list.
#[derive(Copy, Clone, Debug, PartialEq, Eq, Structural)]
pub enum CanvasOp {
    /// Clear the whole canvas.
    Clear,
    /// Draw the column of entry `idx`: empty from the top down to
    /// `start_height`, then `height` tall, in the colour of `highlight`.
    Entry { idx: usize, highlight: Highlight, start_height: Num, height: Num },
}

/// A tone to play for an entry: its pitch rises with `value` relative to `max`.
#[derive(Copy, Clone, Debug, PartialEq, Eq, Structural)]
pub struct Tone {
    pub value: Num,
    pub max: Num,
}

/// What the controls show.
#[derive(Copy, Clone, Debug, PartialEq, Eq, Structural)]
pub struct DisplayState {
    pub is_running: bool,
    pub sort: Option<SortType>,
    pub length: usize,
    pub height: usize,
    pub delay: u64,
    pub sound_on: bool,
}

impl Default for DisplayState {
    fn default() -> (d: Self)
        ensures
            d == (DisplayState {
                is_running: false,
                sort: None,
                length: 10,
                height: 10,
                delay: 100,
                sound_on: false,
            }),
    {
        DisplayState {
            is_running: false,
            sort: None,
            length: 10,
            height: 10,
            delay: 100,
            sound_on: false,
        }
    }
}

/// A request from the controls.
#[derive(Copy, Clone, Debug, PartialEq, Eq, Structural)]
pub enum AppMessage {
    /// Run this sort on the list as it is now.
    NewSort(SortType),
    StartOrStop,
    SwitchSound,
    Shuffle,
    /// Replace the list by `1..=n`.
    ChangeLen(usize),
    /// Wait this many milliseconds between two steps.
    ChangeDelay(u64),
    UpdateAll,
}

/// What the caller does after an idle step.
#[derive(Copy, Clone, Debug, PartialEq, Eq, Structural)]
pub struct IdleStep {
    /// Wait for the next request before stepping again.
    pub wait: bool,
    /// Sleep for the delay before stepping again.
    pub delay: bool,
}

/// The drawing instruction for entry `idx` of `s`.
pub open spec fn entry_op(s: Seq<Num>, max: Num, idx: usize, h: Highlight) -> CanvasOp {
    CanvasOp::Entry { idx, highlight: h, start_height: (max - s[idx as int]) as Num, height: s[idx as int] }
}

/// The entries an action touches, with how they are to be highlighted.
pub open spec fn action_entries(a: ListAction<Num>) -> Seq<(usize, Highlight)> {
    match a {
        ListAction::Swap(x, y) => seq![(x, Highlight::Write), (y, Highlight::Write)],
        ListAction::Compare(x, y) => (match x {
            Some(i) => seq![(i, Highlight::Read)],
            None => Seq::empty(),
        }) + (match y {
            Some(j) => seq![(j, Highlight::Read)],
            None => Seq::empty(),
        }),
        ListAction::Write(i, _) => seq![(i, Highlight::Write)],
    }
}

/// The drawing instructions for `entries` of `s`.
pub open spec fn entries_ops(s: Seq<Num>, max: Num, entries: Seq<(usize, Highlight)>) -> Seq<CanvasOp> {
    Seq::new(entries.len(), |k: int| entry_op(s, max, entries[k].0, entries[k].1))
}

/// The positions named by `entries`.
pub open spec fn indices_of(entries: Seq<(usize, Highlight)>) -> Seq<usize> {
    Seq::new(entries.len(), |k: int| entries[k].0)
}

/// The tones for the positions `idxs` of `s`.
pub open spec fn tones_for(s: Seq<Num>, max: Num, idxs: Seq<usize>) -> Seq<Tone> {
    Seq::new(idxs.len(), |k: int| Tone { value: s[idxs[k] as int], max })
}

/// The plain drawing instructions for the positions `idxs` of `s`.
pub open spec fn plain_ops(s: Seq<Num>, max: Num, idxs: Seq<usize>) -> Seq<CanvasOp> {
    Seq::new(idxs.len(), |k: int| entry_op(s, max, idxs[k], Highlight::Neutral))
}

/// The largest value of `s`, or 1 for an empty list.
pub open spec fn is_list_max(s: Seq<Num>, m: Num) -> bool {
    if s.len() == 0 {
        m == 1
    } else {
        (exists|k: int| 0 <= k < s.len() && s[k] == m) && (forall|k: int| 0 <= k < s.len() ==> s[k] <= m)
    }
}

/// `1, 2, ..., n`.
pub open spec fn one_to(n: Num) -> Seq<Num> {
    Seq::new(n as nat, |i: int| (i + 1) as Num)
}

/// `fastrand::shuffle`: swaps each entry with a randomly chosen one at or
/// before it, so the list ends as a permutation of what it was. Which
/// permutation depends on the random generator and is not stated.
#[verifier::external_body]
fn shuffle_nums(v: &mut Vec<Num>)
    ensures
        permutation(final(v)@, old(v)@),
        final(v)@.len() == old(v)@.len(),
{
    fastrand::shuffle(v);
}

/// The depth of calls a run of a sort starts with.
pub const FIRST_DEPTH: u64 = 16;

/// The depth tried after `d`: twice as deep, up to the largest `u64`.
pub open spec fn deeper(d: u64) -> u64 {
    if d <= u64::MAX / 2 {
        (2 * d) as u64
    } else {
        u64::MAX
    }
}

/// A run of a sort on a copy of a list: the list it started on, the actions
/// it reported within a depth of calls, whether it ended there, and how many
/// of the actions were handled.
pub struct ActionQueue {
    actions: Vec<ListAction<Num>>,
    next: usize,
    start: Vec<Num>,
    sort: SortType,
    depth: u64,
    done: bool,
}

impl ActionQueue {
    /// The actions not handled yet.
    pub closed spec fn pending(&self) -> Seq<ListAction<Num>> {
        self.actions@.subrange(self.next as int, self.actions@.len() as int)
    }

    /// Every action the run reported.
    pub closed spec fn actions(&self) -> Seq<ListAction<Num>> {
        self.actions@
    }

    /// How many actions were handled.
    pub closed spec fn handled(&self) -> nat {
        self.next as nat
    }

    /// The list the sort started on.
    pub closed spec fn start(&self) -> Seq<Num> {
        self.start@
    }

    pub closed spec fn sort(&self) -> SortType {
        self.sort
    }

    /// How many levels of calls deep the run went at most.
    pub closed spec fn depth(&self) -> u64 {
        self.depth
    }

    /// The sort ended within the depth.
    pub closed spec fn done(&self) -> bool {
        self.done
    }

    /// The actions are those the sort reports on the start list within the
    /// depth (`sort_upto`); they name positions of that list and write only
    /// its values; and if the sort ended, replaying them gives a permutation
    /// of the start list, sorted if the sort sorts.
    pub closed spec fn wf(&self) -> bool {
        &&& self.next <= self.actions@.len()
        &&& self.start@.len() <= usize::MAX / 4
        &&& self.actions@ == sort_upto(self.sort, self.start@, 0, self.depth as nat).0
        &&& self.done == sort_upto(self.sort, self.start@, 0, self.depth as nat).1
        &&& forall|k: int| 0 <= k < self.actions@.len() ==> action_ok(#[trigger] self.actions@[k], self.start@.len())
        &&& forall|k: int| 0 <= k < self.actions@.len() ==> writes_from(#[trigger] self.actions@[k], self.start@)
        &&& self.done ==> permutation(replay(self.start@, self.actions@), self.start@)
        &&& self.done && sorts_list(self.sort) ==> sorted(replay(self.start@, self.actions@))
    }

    /// Runs sort `t` on a copy of `list`, at most `depth` levels of calls
    /// deep; no action handled yet.
    pub fn run(t: SortType, list: &Vec<Num>, depth: u64) -> (q: Self)
        requires
            list@.len() <= usize::MAX / 4,
        ensures
            q.wf(),
            q.start() == list@,
            q.sort() == t,
            q.depth() == depth,
            q.handled() == 0,
            q.pending() == q.actions(),
    {
        let copy = list.clone();
        let start = list.clone();
        proof {
            assert(copy@ =~= list@);
            assert(start@ =~= list@);
        }
        let checked_list = CheckedList::new(copy);
        let mut l = checked_list.as_mut();
        let ghost before = l;
        proof {
            assert(l@ =~= list@);
        }
        let done = t.start(&mut l, depth);
        proof {
            assert(l@ =~= l.whole());
            assert(before@ =~= before.whole());
            assert(l.trace() =~= sort_upto(t, list@, 0, depth as nat).0);
        }
        let actions = l.into_actions();
        let q = ActionQueue { actions, next: 0, start, sort: t, depth, done };
        proof {
            assert(q.pending() =~= q.actions());
        }
        q
    }

    /// Runs the sort again, twice as deep (`deeper`), keeping what was
    /// handled: the actions reported so far come first among the new ones.
    fn rerun_deeper(&mut self)
        requires
            old(self).wf(),
        ensures
            final(self).wf(),
            final(self).start() == old(self).start(),
            final(self).sort() == old(self).sort(),
            final(self).depth() == deeper(old(self).depth()),
            final(self).handled() == old(self).handled(),
            old(self).actions().len() <= final(self).actions().len(),
            final(self).actions().subrange(0, old(self).actions().len() as int) == old(self).actions(),
    {
        let d = if self.depth <= u64::MAX / 2 {
            2 * self.depth
        } else {
            u64::MAX
        };
        let q = ActionQueue::run(self.sort, &self.start, d);
        proof {
            lemma_sort_upto_prefix(self.sort, self.start@, 0, self.depth as nat, d as nat);
        }
        self.actions = q.actions;
        self.depth = d;
        self.done = q.done;
    }

    /// Whether every pending action names positions below `n` and writes no
    /// value above `max`.
    pub fn all_ok(&self, n: usize, max: Num) -> (r: bool)
        requires
            self.wf(),
        ensures
            r == (forall|k: int| 0 <= k < self.pending().len() ==> action_ok(#[trigger] self.pending()[k], n as nat)
                && write_at_most(self.pending()[k], max)),
    {
        let mut k = self.next;
        while k < self.actions.len()
            invariant
                self.next <= k <= self.actions@.len(),
                forall|j: int| self.next <= j < k ==> action_ok(#[trigger] self.actions@[j], n as nat)
                    && write_at_most(self.actions@[j], max),
            decreases self.actions@.len() - k,
        {
            let ok = match self.actions[k] {
                ListAction::Swap(i, j) => i < n && j < n,
                ListAction::Compare(x, y) => (match x {
                    Some(i) => i < n,
                    None => true,
                }) && (match y {
                    Some(j) => j < n,
                    None => true,
                }),
                ListAction::Write(i, v) => i < n && v <= max,
            };
            if !ok {
                proof {
                    assert(self.pending()[k - self.next] == self.actions@[k as int]);
                }
                return false;
            }
            k += 1;
        }
        proof {
            assert forall|j: int| 0 <= j < self.pending().len() implies action_ok(#[trigger] self.pending()[j], n as nat)
                && write_at_most(self.pending()[j], max) by {
                assert(self.pending()[j] == self.actions@[j + self.next]);
            }
        }
        true
    }

    /// Whether the sort ended within the depth.
    pub fn is_done(&self) -> (r: bool)
        ensures
            r == self.done(),
    {
        self.done
    }

    /// Whether an action is pending.
    pub fn has_pending(&self) -> (r: bool)
        requires
            self.wf(),
        ensures
            r == (self.pending().len() > 0),
    {
        self.next < self.actions.len()
    }

    /// The next action not handled yet, if any.
    pub fn recv(&mut self) -> (a: Option<ListAction<Num>>)
        requires
            old(self).wf(),
        ensures
            final(self).wf(),
            old(self).pending().len() == 0 ==> a is None && final(self).pending() == old(self).pending(),
            old(self).pending().len() > 0 ==> a == Some(old(self).pending()[0])
                && final(self).pending() == old(self).pending().drop_first(),
            final(self).actions() == old(self).actions(),
            final(self).start() == old(self).start(),
            final(self).sort() == old(self).sort(),
            final(self).depth() == old(self).depth(),
            final(self).done() == old(self).done(),
            final(self).handled() == if old(self).pending().len() > 0 {
                old(self).handled() + 1
            } else {
                old(self).handled()
            },
    {
        if self.next < self.actions.len() {
            let a = self.actions[self.next];
            self.next = self.next + 1;
            proof {
                assert(self.pending() =~= old(self).pending().drop_first());
            }
            Some(a)
        } else {
            None
        }
    }
}

/// The state behind the display: the list as shown, the sort being replayed
/// onto it, and the drawing instructions and tones not yet carried out.
pub struct App {
    list: Vec<Num>,
    max: Num,
    len: usize,
    entries_to_clear: HashSet<usize>,
    is_running: bool,
    delay: u64,
    receiver: Option<ActionQueue>,
    display_state: DisplayState,
    current_sort: Option<SortType>,
    sound_on: bool,
    canvas: Vec<CanvasOp>,
    tones: Vec<Tone>,
}

impl App {
    pub closed spec fn list_view(&self) -> Seq<Num> {
        self.list@
    }

    pub closed spec fn max(&self) -> Num {
        self.max
    }

    pub closed spec fn len_field(&self) -> usize {
        self.len
    }

    /// The entries drawn highlighted, to be drawn plain at the next step.
    pub closed spec fn entries(&self) -> Set<usize> {
        self.entries_to_clear@
    }

    pub closed spec fn running(&self) -> bool {
        self.is_running
    }

    pub closed spec fn delay_ms(&self) -> u64 {
        self.delay
    }

    /// A sort's actions are being replayed.
    pub closed spec fn has_receiver(&self) -> bool {
        self.receiver is Some
    }

    /// The run of the sort whose actions are being replayed.
    pub closed spec fn run(&self) -> Option<ActionQueue> {
        self.receiver
    }

    /// The actions of the sort still to be replayed.
    pub closed spec fn pending(&self) -> Seq<ListAction<Num>> {
        match self.receiver {
            Some(q) => q.pending(),
            None => Seq::empty(),
        }
    }

    pub closed spec fn display(&self) -> DisplayState {
        self.display_state
    }

    pub closed spec fn sort(&self) -> Option<SortType> {
        self.current_sort
    }

    pub closed spec fn sound(&self) -> bool {
        self.sound_on
    }

    /// Drawing instructions not yet carried out, oldest first.
    pub closed spec fn canvas(&self) -> Seq<CanvasOp> {
        self.canvas@
    }

    /// Tones not yet played, oldest first.
    pub closed spec fn tones(&self) -> Seq<Tone> {
        self.tones@
    }

    /// No value exceeds `max`, and a sort is being replayed only once one
    /// was chosen.
    pub closed spec fn wf(&self) -> bool {
        &&& forall|k: int| 0 <= k < self.list@.len() ==> #[trigger] self.list@[k] <= self.max
        &&& match self.receiver {
            Some(q) => q.wf() && self.current_sort == Some(q.sort()),
            None => true,
        }
    }

    /// Stepping can go on without fault: the entries to clear lie in the
    /// list, and every pending action names positions of the list and
    /// writes no value above `max`.
    pub open spec fn ready(&self) -> bool {
        &&& forall|e: usize| #[trigger] self.entries().contains(e) ==> e < self.list_view().len()
        &&& forall|k: int|
            0 <= k < self.pending().len() ==> action_ok(#[trigger] self.pending()[k], self.list_view().len())
        &&& forall|k: int| 0 <= k < self.pending().len() ==> write_at_most(#[trigger] self.pending()[k], self.max())
    }
}

/// The largest value of the list, or 1 for an empty list.
fn max_or_one(list: &Vec<Num>) -> (m: Num)
    ensures
        is_list_max(list@, m),
{
    if list.len() == 0 {
        return 1;
    }
    let mut m = list[0];
    let mut i: usize = 1;
    while i < list.len()
        invariant
            1 <= i <= list@.len(),
            exists|k: int| 0 <= k < i && list@[k] == m,
            forall|k: int| 0 <= k < i ==> list@[k] <= m,
        decreases list@.len() - i,
    {
        if list[i] > m {
            m = list[i];
        }
        i += 1;
    }
    m
}

impl App {
    /// The list `1..=10`, drawn in full, with no sort chosen.
    pub fn new(display_state: DisplayState) -> (app: Self)
        ensures
            app.wf(),
            app.ready(),
            app.list_view() == one_to(10),
            app.max() == 10,
            app.entries() == Set::<usize>::empty(),
            !app.running(),
            app.delay_ms() == 100,
            !app.has_receiver(),
            app.display() == display_state,
            app.sort() == None::<SortType>,
            !app.sound(),
            app.canvas() == seq![CanvasOp::Clear] + plain_ops(
                one_to(10),
                10,
                Seq::new(10, |i: int| i as usize),
            ),
            app.tones() == Seq::<Tone>::empty(),
            (display_state.is_running == false && display_state.sound_on == false
                && display_state.sort is None && display_state.delay == 100) ==> app.mirrors_display(),
    {
        let list: Vec<Num> = vec![1, 2, 3, 4, 5, 6, 7, 8, 9, 10];
        let max = max_or_one(&list);
        let len = list.len();
        proof {
            assert(list@ =~= one_to(10));
            assert(max == 10) by {
                let k = choose|k: int| 0 <= k < list@.len() && list@[k] == max;
                assert(list@[9] <= max);
            }
        }
        let mut s = App {
            list,
            max,
            len,
            entries_to_clear: HashSet::new(),
            is_running: false,
            delay: 100,
            receiver: None,
            display_state,
            current_sort: None,
            sound_on: false,
            canvas: Vec::new(),
            tones: Vec::new(),
        };
        s.update_all();
        proof {
            assert(s.canvas@ =~= seq![CanvasOp::Clear] + plain_ops(
                one_to(10),
                10,
                Seq::new(10, |i: int| i as usize),
            ));
        }
        s
    }

    /// The list as displayed.
    pub fn get_list(&self) -> (l: &Vec<Num>)
        ensures
            l@ == self.list_view(),
    {
        &self.list
    }

    /// What the controls are to show.
    pub fn display_state(&self) -> (d: DisplayState)
        ensures
            d == self.display(),
    {
        self.display_state
    }

    /// Hands out the drawing instructions not yet carried out.
    pub fn take_canvas_ops(&mut self) -> (ops: Vec<CanvasOp>)
        ensures
            ops@ == old(self).canvas(),
            final(self).canvas() == Seq::<CanvasOp>::empty(),
            final(self).tones() == old(self).tones(),
            final(self).list_view() == old(self).list_view(),
            final(self).max() == old(self).max(),
            final(self).entries() == old(self).entries(),
            final(self).pending() == old(self).pending(),
            final(self).run() == old(self).run(),
            final(self).has_receiver() == old(self).has_receiver(),
            final(self).running() == old(self).running(),
            final(self).display() == old(self).display(),
            final(self).sort() == old(self).sort(),
            final(self).sound() == old(self).sound(),
            final(self).delay_ms() == old(self).delay_ms(),
            old(self).wf() ==> final(self).wf(),
    {
        let mut ops = Vec::new();
        std::mem::swap(&mut ops, &mut self.canvas);
        ops
    }

    /// Hands out the tones not yet played.
    pub fn take_tones(&mut self) -> (t: Vec<Tone>)
        ensures
            t@ == old(self).tones(),
            final(self).tones() == Seq::<Tone>::empty(),
            final(self).canvas() == old(self).canvas(),
            final(self).list_view() == old(self).list_view(),
            final(self).max() == old(self).max(),
            final(self).entries() == old(self).entries(),
            final(self).pending() == old(self).pending(),
            final(self).run() == old(self).run(),
            final(self).has_receiver() == old(self).has_receiver(),
            final(self).running() == old(self).running(),
            final(self).display() == old(self).display(),
            final(self).sort() == old(self).sort(),
            final(self).sound() == old(self).sound(),
            final(self).delay_ms() == old(self).delay_ms(),
            old(self).wf() ==> final(self).wf(),
    {
        let mut t = Vec::new();
        std::mem::swap(&mut t, &mut self.tones);
        t
    }

    /// Shuffles the list at random and draws it in full.
    pub fn shuffle_list(&mut self)
        requires
            old(self).wf(),
        ensures
            final(self).wf(),
            permutation(final(self).list_view(), old(self).list_view()),
            final(self).list_view().len() == old(self).list_view().len(),
            is_list_max(final(self).list_view(), final(self).max()),
            final(self).canvas() == old(self).canvas() + seq![CanvasOp::Clear] + plain_ops(
                final(self).list_view(),
                final(self).max(),
                Seq::new(final(self).list_view().len(), |i: int| i as usize),
            ),
            final(self).tones() == old(self).tones(),
            final(self).entries() == old(self).entries(),
            final(self).pending() == old(self).pending(),
            final(self).run() == old(self).run(),
            final(self).has_receiver() == old(self).has_receiver(),
            final(self).running() == old(self).running(),
            final(self).display() == old(self).display(),
            final(self).sort() == old(self).sort(),
            final(self).sound() == old(self).sound(),
            final(self).delay_ms() == old(self).delay_ms(),
    {
        shuffle_nums(&mut self.list);
        proof {
            assert(all_at_most(old(self).list@, self.max));
            lemma_permutation_bounds(old(self).list@, self.list@, self.max);
        }
        self.update_all();
    }

    /// Clears the canvas.
    pub fn clear(&mut self)
        ensures
            final(self).canvas() == old(self).canvas().push(CanvasOp::Clear),
            final(self).tones() == old(self).tones(),
            final(self).list_view() == old(self).list_view(),
            final(self).max() == old(self).max(),
            final(self).entries() == old(self).entries(),
            final(self).pending() == old(self).pending(),
            final(self).run() == old(self).run(),
            final(self).has_receiver() == old(self).has_receiver(),
            final(self).running() == old(self).running(),
            final(self).display() == old(self).display(),
            final(self).sort() == old(self).sort(),
            final(self).sound() == old(self).sound(),
            final(self).delay_ms() == old(self).delay_ms(),
            old(self).wf() ==> final(self).wf(),
    {
        self.canvas.push(CanvasOp::Clear);
    }

    /// Draws entry `idx` with the given highlight.
    pub fn update_entry(&mut self, idx: usize, new_highlight: Highlight)
        requires
            old(self).wf(),
            idx < old(self).list_view().len(),
        ensures
            final(self).canvas() == old(self).canvas().push(
                entry_op(old(self).list_view(), old(self).max(), idx, new_highlight),
            ),
            final(self).tones() == old(self).tones(),
            final(self).list_view() == old(self).list_view(),
            final(self).max() == old(self).max(),
            final(self).entries() == old(self).entries(),
            final(self).pending() == old(self).pending(),
            final(self).run() == old(self).run(),
            final(self).has_receiver() == old(self).has_receiver(),
            final(self).running() == old(self).running(),
            final(self).display() == old(self).display(),
            final(self).sort() == old(self).sort(),
            final(self).sound() == old(self).sound(),
            final(self).delay_ms() == old(self).delay_ms(),
            final(self).wf(),
    {
        let v = self.list[idx];
        self.canvas.push(
            CanvasOp::Entry {
                idx,
                highlight: new_highlight,
                start_height: self.max - v,
                height: v,
            },
        );
    }

    /// Clears the canvas, takes the largest value (1 for an empty list) as
    /// the full height, and draws every entry plain.
    pub fn update_all(&mut self)
        requires
            old(self).wf(),
        ensures
            final(self).wf(),
            is_list_max(final(self).list_view(), final(self).max()),
            final(self).canvas() == old(self).canvas() + seq![CanvasOp::Clear] + plain_ops(
                old(self).list_view(),
                final(self).max(),
                Seq::new(old(self).list_view().len(), |i: int| i as usize),
            ),
            final(self).tones() == old(self).tones(),
            final(self).list_view() == old(self).list_view(),
            final(self).entries() == old(self).entries(),
            final(self).pending() == old(self).pending(),
            final(self).run() == old(self).run(),
            final(self).has_receiver() == old(self).has_receiver(),
            final(self).running() == old(self).running(),
            final(self).display() == old(self).display(),
            final(self).sort() == old(self).sort(),
            final(self).sound() == old(self).sound(),
            final(self).delay_ms() == old(self).delay_ms(),
    {
        self.clear();
        self.len = self.list.len();
        self.max = max_or_one(&self.list);
        let ghost base = self.canvas@;
        let n = self.list.len();
        let mut idx: usize = 0;
        while idx < n
            invariant
                self.wf(),
                n == self.list@.len(),
                idx <= n,
                self.list@ == old(self).list@,
                is_list_max(self.list@, self.max),
                self.canvas@ == base + plain_ops(
                    self.list@,
                    self.max,
                    Seq::new(idx as nat, |i: int| i as usize),
                ),
                self.tones() == old(self).tones(),
                self.entries() == old(self).entries(),
                self.pending() == old(self).pending(),
                self.run() == old(self).run(),
                self.has_receiver() == old(self).has_receiver(),
                self.running() == old(self).running(),
                self.display() == old(self).display(),
                self.sort() == old(self).sort(),
                self.sound() == old(self).sound(),
                self.delay_ms() == old(self).delay_ms(),
            decreases n - idx,
        {
            self.update_entry(idx, Highlight::Neutral);
            proof {
                assert(self.canvas@ =~= base + plain_ops(
                    self.list@,
                    self.max,
                    Seq::new((idx + 1) as nat, |i: int| i as usize),
                ));
            }
            idx += 1;
        }
    }
}

/// The values of a set of positions, each once, in the order the set is walked.
fn set_items(s: &HashSet<usize>) -> (v: Vec<usize>)
    ensures
        v@.to_set() == s@,
        v@.no_duplicates(),
{
    let mut v: Vec<usize> = Vec::new();
    for x in it: s.iter()
        invariant
            v@.len() == it.index(),
            forall|j: int| 0 <= j < v@.len() ==> v@[j] == *it.seq()[j],
            it.seq() == vstd::std_specs::hash::spec_hash_keys_iter(s).remaining(),
    {
        v.push(*x);
    }
    proof {
        let r = vstd::std_specs::hash::spec_hash_keys_iter(s).remaining();
        assert(r.unref().to_set() == s@);
        assert(v@ =~= r.unref());
    }
    v
}

/// Whether no value occurs twice in `v`.
fn no_duplicates(v: &Vec<Num>) -> (r: bool)
    ensures
        r == v@.no_duplicates(),
{
    let n = v.len();
    let mut i: usize = 0;
    while i < n
        invariant
            n == v@.len(),
            i <= n,
            forall|a: int, b: int| 0 <= a < i && 0 <= b < n && a != b ==> v@[a] != v@[b],
        decreases n - i,
    {
        let mut j: usize = 0;
        while j < n
            invariant
                n == v@.len(),
                i < n,
                j <= n,
                forall|a: int, b: int| 0 <= a < i && 0 <= b < n && a != b ==> v@[a] != v@[b],
                forall|b: int| 0 <= b < j && b != i ==> v@[i as int] != v@[b],
            decreases n - j,
        {
            if j != i && v[i] == v[j] {
                return false;
            }
            j += 1;
        }
        i += 1;
    }
    true
}

impl App {
    /// Queues a tone for each of the positions, when sound is on.
    pub fn play_sounds(&mut self, indices: &[usize])
        requires
            old(self).wf(),
            old(self).sound() ==> forall|k: int|
                0 <= k < indices@.len() ==> #[trigger] indices@[k] < old(self).list_view().len(),
        ensures
            final(self).wf(),
            final(self).tones() == old(self).tones() + if old(self).sound() {
                tones_for(old(self).list_view(), old(self).max(), indices@)
            } else {
                Seq::<Tone>::empty()
            },
            final(self).canvas() == old(self).canvas(),
            final(self).list_view() == old(self).list_view(),
            final(self).max() == old(self).max(),
            final(self).entries() == old(self).entries(),
            final(self).pending() == old(self).pending(),
            final(self).run() == old(self).run(),
            final(self).has_receiver() == old(self).has_receiver(),
            final(self).running() == old(self).running(),
            final(self).display() == old(self).display(),
            final(self).sort() == old(self).sort(),
            final(self).sound() == old(self).sound(),
            final(self).delay_ms() == old(self).delay_ms(),
    {
        if self.sound_on {
            let mut k: usize = 0;
            while k < indices.len()
                invariant
                    self.wf(),
                    k <= indices@.len(),
                    forall|j: int| 0 <= j < indices@.len() ==> #[trigger] indices@[j] < self.list@.len(),
                    self.tones@ == old(self).tones@ + tones_for(self.list@, self.max, indices@.subrange(0, k as int)),
                    self.list@ == old(self).list@,
                    self.max == old(self).max,
                    self.canvas@ == old(self).canvas@,
                    self.entries_to_clear@ == old(self).entries_to_clear@,
                    self.receiver == old(self).receiver,
                    self.is_running == old(self).is_running,
                    self.display_state == old(self).display_state,
                    self.current_sort == old(self).current_sort,
                    self.sound_on == old(self).sound_on,
                    self.delay == old(self).delay,
                decreases indices@.len() - k,
            {
                let idx = indices[k];
                let v = self.list[idx];
                self.tones.push(Tone { value: v, max: self.max });
                proof {
                    assert(self.tones@ =~= old(self).tones@ + tones_for(
                        self.list@,
                        self.max,
                        indices@.subrange(0, k + 1),
                    ));
                }
                k += 1;
            }
            proof {
                assert(indices@.subrange(0, indices@.len() as int) =~= indices@);
            }
        } else {
            proof {
                assert(self.tones@ =~= old(self).tones@ + Seq::<Tone>::empty());
            }
        }
    }

    /// Marks position `idx` to be drawn plain at the next step.
    fn mark_for_clearing(&mut self, idx: usize)
        requires
            old(self).wf(),
        ensures
            final(self).wf(),
            forall|e: usize| #[trigger] final(self).entries().contains(e) <==> (old(self).entries().contains(e) || e == idx),
            final(self).canvas() == old(self).canvas(),
            final(self).tones() == old(self).tones(),
            final(self).list_view() == old(self).list_view(),
            final(self).max() == old(self).max(),
            final(self).pending() == old(self).pending(),
            final(self).run() == old(self).run(),
            final(self).has_receiver() == old(self).has_receiver(),
            final(self).running() == old(self).running(),
            final(self).display() == old(self).display(),
            final(self).sort() == old(self).sort(),
            final(self).sound() == old(self).sound(),
            final(self).delay_ms() == old(self).delay_ms(),
    {
        self.entries_to_clear.insert(idx);
        proof {
            assert forall|e: usize| #[trigger] self.entries().contains(e) <==> (old(self).entries().contains(e) || e == idx) by {}
        }
    }

    /// Draws each entry with its highlight, queues its tone, and marks it to
    /// be drawn plain at the next step.
    pub fn update_entries_for_one(&mut self, entries: &[(usize, Highlight)])
        requires
            old(self).wf(),
            forall|k: int| 0 <= k < entries@.len() ==> #[trigger] entries@[k].0 < old(self).list_view().len(),
        ensures
            final(self).wf(),
            final(self).canvas() == old(self).canvas() + entries_ops(old(self).list_view(), old(self).max(), entries@),
            final(self).tones() == old(self).tones() + if old(self).sound() {
                tones_for(old(self).list_view(), old(self).max(), indices_of(entries@))
            } else {
                Seq::<Tone>::empty()
            },
            forall|e: usize| #[trigger] final(self).entries().contains(e) <==> (old(self).entries().contains(e)
                || indices_of(entries@).contains(e)),
            final(self).list_view() == old(self).list_view(),
            final(self).max() == old(self).max(),
            final(self).pending() == old(self).pending(),
            final(self).run() == old(self).run(),
            final(self).has_receiver() == old(self).has_receiver(),
            final(self).running() == old(self).running(),
            final(self).display() == old(self).display(),
            final(self).sort() == old(self).sort(),
            final(self).sound() == old(self).sound(),
            final(self).delay_ms() == old(self).delay_ms(),
    {
        let n = entries.len();
        let mut k: usize = 0;
        let mut items: Vec<usize> = Vec::new();
        while k < n
            invariant
                self.wf(),
                n == entries@.len(),
                k <= n,
                forall|j: int| 0 <= j < entries@.len() ==> #[trigger] entries@[j].0 < self.list@.len(),
                self.canvas() == old(self).canvas() + entries_ops(self.list@, self.max, entries@.subrange(0, k as int)),
                items@ == indices_of(entries@.subrange(0, k as int)),
                self.list@ == old(self).list@,
                self.max == old(self).max,
                self.tones() == old(self).tones(),
                self.entries() == old(self).entries(),
                self.pending() == old(self).pending(),
                self.run() == old(self).run(),
                self.has_receiver() == old(self).has_receiver(),
                self.running() == old(self).running(),
                self.display() == old(self).display(),
                self.sort() == old(self).sort(),
                self.sound() == old(self).sound(),
                self.delay_ms() == old(self).delay_ms(),
            decreases n - k,
        {
            let (idx, h) = entries[k];
            self.update_entry(idx, h);
            items.push(idx);
            proof {
                assert(self.canvas() =~= old(self).canvas() + entries_ops(self.list@, self.max, entries@.subrange(0, k + 1)));
                assert(items@ =~= indices_of(entries@.subrange(0, k + 1)));
            }
            k += 1;
        }
        proof {
            assert(entries@.subrange(0, n as int) =~= entries@);
        }
        self.play_sounds(items.as_slice());
        let mut j: usize = 0;
        while j < n
            invariant
                self.wf(),
                n == items@.len(),
                items@ == indices_of(entries@),
                j <= n,
                forall|e: usize| #[trigger] self.entries().contains(e) <==> (old(self).entries().contains(e)
                    || items@.subrange(0, j as int).contains(e)),
                self.canvas() == old(self).canvas() + entries_ops(old(self).list_view(), old(self).max(), entries@),
                self.tones() == old(self).tones() + if old(self).sound() {
                    tones_for(old(self).list_view(), old(self).max(), indices_of(entries@))
                } else {
                    Seq::<Tone>::empty()
                },
                self.list@ == old(self).list@,
                self.max == old(self).max,
                self.pending() == old(self).pending(),
                self.run() == old(self).run(),
                self.has_receiver() == old(self).has_receiver(),
                self.running() == old(self).running(),
                self.display() == old(self).display(),
                self.sort() == old(self).sort(),
                self.sound() == old(self).sound(),
                self.delay_ms() == old(self).delay_ms(),
            decreases n - j,
        {
            self.mark_for_clearing(items[j]);
            proof {
                assert forall|e: usize| #[trigger] self.entries().contains(e) <==> (old(self).entries().contains(e)
                    || items@.subrange(0, j + 1).contains(e)) by {
                    if items@.subrange(0, j + 1).contains(e) && e != items@[j as int] {
                        let t = choose|t: int| 0 <= t < j + 1 && #[trigger] items@.subrange(0, j + 1)[t] == e;
                        assert(items@.subrange(0, j as int)[t] == e);
                    }
                    if items@.subrange(0, j as int).contains(e) {
                        let t = choose|t: int| 0 <= t < j && #[trigger] items@.subrange(0, j as int)[t] == e;
                        assert(items@.subrange(0, j + 1)[t] == e);
                    }
                    if e == items@[j as int] {
                        assert(items@.subrange(0, j + 1)[j as int] == e);
                    }
                }
            }
            j += 1;
        }
        proof {
            assert(items@.subrange(0, n as int) =~= items@);
        }
    }
}

impl App {
    /// Draws the entries highlighted at the last step plain again, applies
    /// the action to the list, and draws (and sounds) what it touched.
    pub fn proceed(&mut self, action: ListAction<Num>)
        requires
            old(self).wf(),
            forall|e: usize| #[trigger] old(self).entries().contains(e) ==> e < old(self).list_view().len(),
            action_ok(action, old(self).list_view().len()),
            write_at_most(action, old(self).max()),
        ensures
            final(self).wf(),
            final(self).list_view() == apply_action(old(self).list_view(), action),
            exists|order: Seq<usize>|
                {
                    &&& order.no_duplicates()
                    &&& order.to_set() == old(self).entries()
                    &&& final(self).canvas() == old(self).canvas() + plain_ops(
                        old(self).list_view(),
                        old(self).max(),
                        order,
                    ) + entries_ops(final(self).list_view(), old(self).max(), action_entries(action))
                },
            final(self).tones() == old(self).tones() + if old(self).sound() {
                tones_for(final(self).list_view(), old(self).max(), indices_of(action_entries(action)))
            } else {
                Seq::<Tone>::empty()
            },
            forall|e: usize| #[trigger] final(self).entries().contains(e) <==> indices_of(
                action_entries(action),
            ).contains(e),
            final(self).max() == old(self).max(),
            final(self).pending() == old(self).pending(),
            final(self).run() == old(self).run(),
            final(self).has_receiver() == old(self).has_receiver(),
            final(self).running() == old(self).running(),
            final(self).display() == old(self).display(),
            final(self).sort() == old(self).sort(),
            final(self).sound() == old(self).sound(),
            final(self).delay_ms() == old(self).delay_ms(),
    {
        let mut cleared: HashSet<usize> = HashSet::new();
        std::mem::swap(&mut cleared, &mut self.entries_to_clear);
        let order = set_items(&cleared);
        let n = order.len();
        let mut k: usize = 0;
        proof {
            assert forall|j: int| 0 <= j < n implies #[trigger] order@[j] < self.list@.len() by {
                assert(order@.to_set().contains(order@[j]));
                assert(old(self).entries().contains(order@[j]));
            }
        }
        while k < n
            invariant
                self.wf(),
                n == order@.len(),
                k <= n,
                self.entries() == Set::<usize>::empty(),
                forall|j: int| 0 <= j < n ==> #[trigger] order@[j] < self.list@.len(),
                self.canvas() == old(self).canvas() + plain_ops(
                    old(self).list_view(),
                    old(self).max(),
                    order@.subrange(0, k as int),
                ),
                self.list@ == old(self).list@,
                self.max == old(self).max,
                self.tones() == old(self).tones(),
                self.pending() == old(self).pending(),
                self.run() == old(self).run(),
                self.has_receiver() == old(self).has_receiver(),
                self.running() == old(self).running(),
                self.display() == old(self).display(),
                self.sort() == old(self).sort(),
                self.sound() == old(self).sound(),
                self.delay_ms() == old(self).delay_ms(),
            decreases n - k,
        {
            let i = order[k];
            self.update_entry(i, Highlight::Neutral);
            proof {
                assert(self.canvas() =~= old(self).canvas() + plain_ops(
                    old(self).list_view(),
                    old(self).max(),
                    order@.subrange(0, k + 1),
                ));
            }
            k += 1;
        }
        proof {
            assert(order@.subrange(0, n as int) =~= order@);
        }
        let ghost canvas_cleared = self.canvas();
        let ghost before = self.list@;
        let entries: Vec<(usize, Highlight)> = match action {
            ListAction::Swap(a, b) => {
                let va = self.list[a];
                let vb = self.list[b];
                self.list.set(a, vb);
                self.list.set(b, va);
                proof {
                    assert(self.list@ =~= swapped(before, a as int, b as int));
                }
                vec![(a, Highlight::Write), (b, Highlight::Write)]
            },
            ListAction::Compare(a, b) => {
                let mut v: Vec<(usize, Highlight)> = Vec::new();
                if let Some(x) = a {
                    v.push((x, Highlight::Read));
                }
                if let Some(y) = b {
                    v.push((y, Highlight::Read));
                }
                v
            },
            ListAction::Write(i, val) => {
                self.list.set(i, val);
                vec![(i, Highlight::Write)]
            },
        };
        proof {
            assert(entries@ =~= action_entries(action));
            assert(self.list@ == apply_action(before, action));
            assert forall|j: int| 0 <= j < self.list@.len() implies #[trigger] self.list@[j] <= self.max by {
                assert(before[j] <= self.max);
                match action {
                    ListAction::Swap(a, b) => {
                        assert(before[a as int] <= self.max);
                        assert(before[b as int] <= self.max);
                    },
                    _ => {},
                }
            }
        }
        self.update_entries_for_one(entries.as_slice());
        proof {
            assert(order@.to_set() == old(self).entries());
            assert(self.canvas() == old(self).canvas() + plain_ops(
                old(self).list_view(),
                old(self).max(),
                order@,
            ) + entries_ops(self.list_view(), old(self).max(), action_entries(action)));
        }
    }
}

/// A sort can be started on the list: its length is bounded as that of
/// any list of `Num`s in memory is.
pub open spec fn can_start(list: Seq<Num>, t: SortType) -> bool {
    list.len() <= usize::MAX / 4
}

impl App {
    /// Chooses sort `t` and runs it on a copy of the list (`FIRST_DEPTH`
    /// levels deep at most); its actions are then replayed onto the list one
    /// step at a time.
    fn start_sort(&mut self, t: SortType)
        requires
            old(self).wf(),
            can_start(old(self).list_view(), t),
        ensures
            final(self).wf(),
            final(self).sort() == Some(t),
            final(self).display() == (DisplayState { sort: Some(t), ..old(self).display() }),
            final(self).has_receiver(),
            final(self).fresh_run(old(self).list_view(), t),
            final(self).list_view() == old(self).list_view(),
            final(self).max() == old(self).max(),
            final(self).canvas() == old(self).canvas(),
            final(self).tones() == old(self).tones(),
            final(self).entries() == old(self).entries(),
            final(self).running() == old(self).running(),
            final(self).sound() == old(self).sound(),
            final(self).delay_ms() == old(self).delay_ms(),
    {
        self.current_sort = Some(t);
        self.display_state.sort = Some(t);
        let q = ActionQueue::run(t, &self.list, FIRST_DEPTH);
        self.receiver = Some(q);
    }

    /// Handles a request from the controls.
    pub fn update(&mut self, message: AppMessage)
        requires
            old(self).wf(),
            message matches AppMessage::NewSort(t) ==> can_start(old(self).list_view(), t),
            message is Shuffle ==> (old(self).sort() matches Some(t) ==> can_start(old(self).list_view(), t)),
        ensures
            final(self).wf(),
            old(self).mirrors_display() ==> final(self).mirrors_display(),
            match message {
                AppMessage::StartOrStop => {
                    &&& final(self).running() == !old(self).running()
                    &&& final(self).display() == (DisplayState { is_running: !old(self).running(), ..old(self).display() })
                    &&& final(self).unchanged_but_flags(old(self))
                    &&& final(self).sound() == old(self).sound()
                    &&& final(self).delay_ms() == old(self).delay_ms()
                },
                AppMessage::SwitchSound => {
                    &&& final(self).sound() == !old(self).sound()
                    &&& final(self).display() == (DisplayState { sound_on: !old(self).sound(), ..old(self).display() })
                    &&& final(self).unchanged_but_flags(old(self))
                    &&& final(self).running() == old(self).running()
                    &&& final(self).delay_ms() == old(self).delay_ms()
                },
                AppMessage::ChangeDelay(d) => {
                    &&& final(self).delay_ms() == d
                    &&& final(self).display() == (DisplayState { delay: d, ..old(self).display() })
                    &&& final(self).unchanged_but_flags(old(self))
                    &&& final(self).running() == old(self).running()
                    &&& final(self).sound() == old(self).sound()
                },
                AppMessage::ChangeLen(l) => {
                    &&& final(self).list_view() == one_to(l as Num)
                    &&& final(self).pending() == Seq::<ListAction<Num>>::empty()
                    &&& final(self).max() == l as Num
                    &&& final(self).len_field() == l
                    &&& !final(self).running()
                    &&& !final(self).has_receiver()
                    &&& final(self).display() == (DisplayState {
                        is_running: false,
                        length: l,
                        height: l,
                        ..old(self).display()
                    })
                    &&& final(self).entries() == old(self).entries()
                    &&& final(self).canvas() == old(self).canvas()
                    &&& final(self).tones() == old(self).tones()
                    &&& final(self).sort() == old(self).sort()
                    &&& final(self).sound() == old(self).sound()
                    &&& final(self).delay_ms() == old(self).delay_ms()
                },
                AppMessage::UpdateAll => {
                    &&& is_list_max(final(self).list_view(), final(self).max())
                    &&& final(self).canvas() == old(self).canvas() + seq![CanvasOp::Clear] + plain_ops(
                        old(self).list_view(),
                        final(self).max(),
                        Seq::new(old(self).list_view().len(), |i: int| i as usize),
                    )
                    &&& final(self).list_view() == old(self).list_view()
                    &&& final(self).pending() == old(self).pending()
                    &&& final(self).has_receiver() == old(self).has_receiver()
                    &&& final(self).entries() == old(self).entries()
                    &&& final(self).tones() == old(self).tones()
                    &&& final(self).display() == old(self).display()
                    &&& final(self).running() == old(self).running()
                    &&& final(self).sort() == old(self).sort()
                    &&& final(self).sound() == old(self).sound()
                    &&& final(self).delay_ms() == old(self).delay_ms()
                },
                AppMessage::NewSort(t) => {
                    &&& final(self).sort() == Some(t)
                    &&& final(self).display() == (DisplayState { sort: Some(t), ..old(self).display() })
                    &&& final(self).has_receiver()
                    &&& final(self).fresh_run(old(self).list_view(), t)
                    &&& final(self).list_view() == old(self).list_view()
                    &&& final(self).max() == old(self).max()
                    &&& final(self).canvas() == old(self).canvas()
                    &&& final(self).tones() == old(self).tones()
                    &&& final(self).entries() == old(self).entries()
                    &&& final(self).running() == old(self).running()
                    &&& final(self).sound() == old(self).sound()
                    &&& final(self).delay_ms() == old(self).delay_ms()
                },
                AppMessage::Shuffle => {
                    &&& permutation(final(self).list_view(), old(self).list_view())
                    &&& is_list_max(final(self).list_view(), final(self).max())
                    &&& final(self).canvas() == old(self).canvas() + seq![CanvasOp::Clear] + plain_ops(
                        final(self).list_view(),
                        final(self).max(),
                        Seq::new(final(self).list_view().len(), |i: int| i as usize),
                    )
                    &&& final(self).sort() == old(self).sort()
                    &&& (old(self).sort() matches Some(t) ==> {
                        &&& final(self).has_receiver()
                        &&& final(self).fresh_run(final(self).list_view(), t)
                        &&& final(self).display() == (DisplayState { sort: Some(t), ..old(self).display() })
                    })
                    &&& (old(self).sort() is None ==> {
                        &&& final(self).pending() == old(self).pending()
                        &&& final(self).has_receiver() == old(self).has_receiver()
                        &&& final(self).display() == old(self).display()
                    })
                    &&& final(self).entries() == old(self).entries()
                    &&& final(self).tones() == old(self).tones()
                    &&& final(self).running() == old(self).running()
                    &&& final(self).sound() == old(self).sound()
                    &&& final(self).delay_ms() == old(self).delay_ms()
                },
            },
    {
        match message {
            AppMessage::StartOrStop => {
                self.is_running = !self.is_running;
                self.display_state.is_running = self.is_running;
            },
            AppMessage::Shuffle => {
                self.shuffle_list();
                if let Some(t) = self.current_sort {
                    proof {
                        lemma_permutation_len(self.list@, old(self).list@);

                    }
                    self.start_sort(t);
                }
            },
            AppMessage::NewSort(t) => {
                self.start_sort(t);
            },
            AppMessage::ChangeDelay(d) => {
                self.display_state.delay = d;
                self.delay = d;
            },
            AppMessage::ChangeLen(l) => {
                self.is_running = false;
                self.display_state.is_running = false;
                self.receiver = None;
                let n: Num = l as Num;
                let mut list: Vec<Num> = Vec::new();
                let mut i: Num = 0;
                while i < n
                    invariant
                        i <= n,
                        list@ == one_to(i),
                    decreases n - i,
                {
                    list.push(i + 1);
                    proof {
                        assert(list@ =~= one_to((i + 1) as Num));
                    }
                    i += 1;
                }
                self.list = list;
                self.len = l;
                self.max = n;
                self.display_state.length = l;
                self.display_state.height = l;
            },
            AppMessage::UpdateAll => {
                self.update_all();
            },
            AppMessage::SwitchSound => {
                self.sound_on = !self.sound_on;
                self.display_state.sound_on = self.sound_on;
            },
        }
    }

    /// One step of replaying the chosen sort: with no sort chosen, wait for
    /// a request; when stopped, just sleep; when running, handle the next
    /// action and sleep, or stop once every action was handled.
    pub fn idle(&mut self) -> (step: IdleStep)
        requires
            old(self).wf(),
            old(self).steps_next() ==> old(self).ready(),
        ensures
            final(self).wf(),
            old(self).mirrors_display() ==> final(self).mirrors_display(),
            !old(self).deepens_next() ==> (old(self).ready() ==> final(self).ready()),
            !old(self).deepens_next() ==> replay(final(self).list_view(), final(self).pending()) == replay(
                old(self).list_view(),
                old(self).pending(),
            ),
            !old(self).has_receiver() ==> step == (IdleStep { wait: true, delay: false })
                && final(self).same_as(old(self)),
            old(self).has_receiver() && !old(self).running() ==> step == (IdleStep {
                wait: false,
                delay: true,
            }) && final(self).same_as(old(self)),
            old(self).deepens_next() ==> {
                &&& step == (IdleStep { wait: false, delay: true })
                &&& final(self).run_deepened(old(self))
                &&& final(self).list_view() == old(self).list_view()
                &&& final(self).max() == old(self).max()
                &&& final(self).entries() == old(self).entries()
                &&& final(self).canvas() == old(self).canvas()
                &&& final(self).tones() == old(self).tones()
                &&& final(self).running()
                &&& final(self).display() == old(self).display()
                &&& final(self).sort() == old(self).sort()
                &&& final(self).sound() == old(self).sound()
                &&& final(self).delay_ms() == old(self).delay_ms()
            },
            old(self).has_receiver() && old(self).running() && old(self).pending().len() == 0
                && old(self).run_done() ==> {
                &&& step == (IdleStep { wait: false, delay: false })
                &&& !final(self).running()
                &&& final(self).display() == (DisplayState { is_running: false, ..old(self).display() })
                &&& final(self).unchanged_but_flags(old(self))
                &&& final(self).sound() == old(self).sound()
                &&& final(self).delay_ms() == old(self).delay_ms()
            },
            old(self).has_receiver() && old(self).running() && old(self).pending().len() > 0 ==> {
                &&& step == (IdleStep { wait: false, delay: true })
                &&& final(self).pending() == old(self).pending().drop_first()
                &&& final(self).list_view() == apply_action(old(self).list_view(), old(self).pending()[0])
                &&& exists|order: Seq<usize>|
                    {
                        &&& order.no_duplicates()
                        &&& order.to_set() == old(self).entries()
                        &&& final(self).canvas() == old(self).canvas() + plain_ops(
                            old(self).list_view(),
                            old(self).max(),
                            order,
                        ) + entries_ops(
                            final(self).list_view(),
                            old(self).max(),
                            action_entries(old(self).pending()[0]),
                        )
                    }
                &&& final(self).tones() == old(self).tones() + if old(self).sound() {
                    tones_for(final(self).list_view(), old(self).max(), indices_of(action_entries(old(self).pending()[0])))
                } else {
                    Seq::<Tone>::empty()
                }
                &&& forall|e: usize| #[trigger] final(self).entries().contains(e) <==> indices_of(
                    action_entries(old(self).pending()[0]),
                ).contains(e)
                &&& final(self).has_receiver()
                &&& final(self).run_stepped(old(self))
                &&& final(self).max() == old(self).max()
                &&& final(self).running()
                &&& final(self).display() == old(self).display()
                &&& final(self).sort() == old(self).sort()
                &&& final(self).sound() == old(self).sound()
                &&& final(self).delay_ms() == old(self).delay_ms()
            },
    {
        if self.receiver.is_none() {
            return IdleStep { wait: true, delay: false };
        }
        if self.is_running {
            let mut q = self.receiver.take().unwrap();
            let ghost q0 = q;
            proof {
                assert(old(self).receiver == Some(q0));
                assert(old(self).pending() == q0.pending());
            }
            if !q.has_pending() {
                if !q.is_done() {
                    q.rerun_deeper();
                    self.receiver = Some(q);
                    return IdleStep { wait: false, delay: true };
                }
                self.receiver = Some(q);
                self.is_running = false;
                self.display_state.is_running = false;
                proof {
                    assert(self.receiver == old(self).receiver);
                    assert(self.pending() == old(self).pending());
                    assert(self.entries() == old(self).entries());
                }
                return IdleStep { wait: false, delay: false };
            }
            let a = q.recv();
            self.receiver = Some(q);
            proof {
                assert(self.pending() == q.pending());
            }
            match a {
                None => {
                    self.is_running = false;
                    self.display_state.is_running = false;
                    proof {
                        assert(self.entries() == old(self).entries());
                    }
                    return IdleStep { wait: false, delay: false };
                },
                Some(action) => {
                    proof {
                        assert(old(self).pending()[0] == action);
                        assert(action_ok(old(self).pending()[0], old(self).list_view().len()));
                        assert(write_at_most(old(self).pending()[0], old(self).max()));
                        assert(self.entries() == old(self).entries());
                    }
                    self.proceed(action);
                    proof {
                        lemma_replay_first(old(self).list_view(), old(self).pending());
                        let ae = indices_of(action_entries(action));
                        assert forall|e: usize| #[trigger] self.entries().contains(e) implies e
                            < self.list_view().len() by {
                            assert(ae.contains(e));
                            let t = choose|t: int| 0 <= t < ae.len() && ae[t] == e;
                        }
                        assert forall|k: int| 0 <= k < self.pending().len() implies action_ok(
                            #[trigger] self.pending()[k],
                            self.list_view().len(),
                        ) && write_at_most(self.pending()[k], self.max()) by {
                            assert(self.pending()[k] == old(self).pending()[k + 1]);
                        }
                    }
                },
            }
        }
        IdleStep { wait: false, delay: true }
    }

    /// Whether `idle` can step without fault (`ready`).
    pub fn ready_to_step(&self) -> (r: bool)
        requires
            self.wf(),
        ensures
            r == self.ready(),
    {
        let n = self.list.len();
        let items = set_items(&self.entries_to_clear);
        let mut k: usize = 0;
        while k < items.len()
            invariant
                n == self.list@.len(),
                k <= items@.len(),
                items@.to_set() == self.entries(),
                forall|j: int| 0 <= j < k ==> #[trigger] items@[j] < n,
            decreases items@.len() - k,
        {
            if items[k] >= n {
                proof {
                    assert(items@.contains(items@[k as int]));
                    assert(items@.to_set().contains(items@[k as int]));
                    assert(self.entries().contains(items@[k as int]));
                }
                return false;
            }
            k += 1;
        }
        proof {
            assert forall|e: usize| #[trigger] self.entries().contains(e) implies e < n by {
                assert(items@.to_set().contains(e));
                let j = choose|j: int| 0 <= j < items@.len() && items@[j] == e;
            }
        }
        match &self.receiver {
            None => {
                proof {
                    assert(self.pending().len() == 0);
                }
                true
            },
            Some(q) => {
                let r = q.all_ok(n, self.max);
                proof {
                    assert(self.pending() == q.pending());
                }
                r
            },
        }
    }

    /// Whether sort `t` can be started on the list (`can_start`).
    pub fn can_start_sort(&self, t: SortType) -> (r: bool)
        ensures
            r == can_start(self.list_view(), t),
    {
        self.list.len() <= usize::MAX / 4
    }

    /// The next idle step handles an action: a sort is being replayed, it
    /// runs, and an action is pending.
    pub open spec fn steps_next(&self) -> bool {
        &&& self.has_receiver()
        &&& self.running()
        &&& self.pending().len() > 0
    }

    /// The next idle step runs the sort again, deeper: a run is replayed,
    /// it runs, every action it reported was handled, and it did not end.
    pub open spec fn deepens_next(&self) -> bool {
        &&& self.has_receiver()
        &&& self.running()
        &&& self.pending().len() == 0
        &&& !self.run_done()
    }

    /// The sort whose run is replayed ended within its depth.
    pub open spec fn run_done(&self) -> bool {
        match self.run() {
            Some(q) => q.done(),
            None => false,
        }
    }

    /// A fresh run of sort `t` on `list` is queued: its actions are what `t`
    /// reports on `list` within `FIRST_DEPTH` levels (`sort_upto`), none
    /// handled yet.
    pub open spec fn fresh_run(&self, list: Seq<Num>, t: SortType) -> bool {
        &&& match self.run() {
            Some(q) => q.start() == list && q.sort() == t && q.depth() == FIRST_DEPTH && q.handled() == 0,
            None => false,
        }
        &&& self.pending() == sort_upto(t, list, 0, FIRST_DEPTH as nat).0
        &&& self.run_done() == sort_upto(t, list, 0, FIRST_DEPTH as nat).1
    }

    /// The same run as `old`'s, with one more action handled.
    pub open spec fn run_stepped(&self, old: &Self) -> bool {
        match (self.run(), old.run()) {
            (Some(q), Some(p)) => {
                &&& q.start() == p.start()
                &&& q.sort() == p.sort()
                &&& q.depth() == p.depth()
                &&& q.done() == p.done()
                &&& q.actions() == p.actions()
                &&& q.handled() == p.handled() + 1
            },
            _ => false,
        }
    }

    /// `old`'s run, run again twice as deep (`deeper`): the actions reported
    /// so far come first, and as many are handled as before.
    pub open spec fn run_deepened(&self, old: &Self) -> bool {
        match (self.run(), old.run()) {
            (Some(q), Some(p)) => {
                &&& q.start() == p.start()
                &&& q.sort() == p.sort()
                &&& q.depth() == deeper(p.depth())
                &&& q.handled() == p.handled()
                &&& p.actions().len() <= q.actions().len()
                &&& q.actions().subrange(0, p.actions().len() as int) == p.actions()
            },
            _ => false,
        }
    }

    /// The controls show the app's own flags, sort and delay.
    pub open spec fn mirrors_display(&self) -> bool {
        &&& self.display().is_running == self.running()
        &&& self.display().sound_on == self.sound()
        &&& self.display().sort == self.sort()
        &&& self.display().delay == self.delay_ms()
    }

    /// Whether the next idle step handles an action (`steps_next`).
    pub fn will_step(&self) -> (r: bool)
        requires
            self.wf(),
        ensures
            r == self.steps_next(),
    {
        match &self.receiver {
            None => false,
            Some(q) => self.is_running && q.has_pending(),
        }
    }

    /// Every part of the state is as in `old`.
    pub open spec fn same_as(&self, old: &Self) -> bool {
        &&& self.unchanged_but_flags(old)
        &&& self.running() == old.running()
        &&& self.display() == old.display()
        &&& self.sound() == old.sound()
        &&& self.delay_ms() == old.delay_ms()
    }

    /// Everything but the flags and the display is as in `old`.
    pub open spec fn unchanged_but_flags(&self, old: &Self) -> bool {
        &&& self.run() == old.run()
        &&& self.list_view() == old.list_view()
        &&& self.max() == old.max()
        &&& self.pending() == old.pending()
        &&& self.has_receiver() == old.has_receiver()
        &&& self.entries() == old.entries()
        &&& self.canvas() == old.canvas()
        &&& self.tones() == old.tones()
        &&& self.sort() == old.sort()
    }
}

/// Once every action of a run that ended has been replayed, the shown list
/// (which, with its pending actions, replays to what the run's actions give
/// from the list the sort started on) is a permutation of that list, and
/// sorted if the sort sorts.
pub proof fn lemma_replay_ends_sorted(app: &App)
    requires
        app.wf(),
        app.run_done(),
        app.pending().len() == 0,
        match app.run() {
            Some(q) => replay(app.list_view(), app.pending()) == replay(q.start(), q.actions()),
            None => false,
        },
    ensures
        match app.run() {
            Some(q) => permutation(app.list_view(), q.start()) && (sorts_list(q.sort()) ==> sorted(
                app.list_view(),
            )),
            None => false,
        },
{
    assert(replay(app.list_view(), app.pending()) == app.list_view());
}

/// A written value is at most `m`.
pub open spec fn write_at_most(a: ListAction<Num>, m: Num) -> bool {
    match a {
        ListAction::Write(_, v) => v <= m,
        _ => true,
    }
}

} // verus!
