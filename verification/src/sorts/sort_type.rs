use vstd::prelude::*;
use std::num::ParseIntError;
use std::str::FromStr;
use crate::tools::checked_list::{CheckedListMut, ListAction};
use crate::consts::Num;
use crate::tools::seq_facts::{sorted, permutation};
use crate::sorts::bubble::{bubble_sort, bubble_trace};
use crate::sorts::gnome::{gnome_sort, gnome_trace};
use crate::sorts::heap::{heapsort, heap_trace};
use crate::sorts::iterative_merge::{iterative_merge_sort, iterative_merge_trace};
use crate::sorts::merge::{merge_sort, merge_sort_run};
use crate::sorts::parallel_merge::parallel_merge_sort;
use crate::sorts::parallel_quick::{
    parallel_quicksort, quick_ends, lemma_quick_distinct, quick_sort_trace, quick_upto, quick_run,
    lemma_quick_upto_prefix, lemma_quick_upto_run,
};
use crate::sorts::quick::quicksort;
use crate::sorts::rotate_merge::{
    rotate_merge_sort, rotate_merge_sort_ends, lemma_rotate_merge_sort_distinct, rotate_merge_sort_trace,
    rotate_sort_upto, rotate_sort_run, lemma_rotate_sort_upto_prefix, lemma_rotate_sort_upto_run,
};
use crate::sorts::stooge::{stooge_sort, stooge_run};

verus! {

/// `std::num::ParseIntError`, the error of parsing an integer.
#[verifier::external_type_specification]
#[verifier::external_body]
pub struct ExParseIntError(ParseIntError);

/// The sorting algorithms on offer, numbered from 0 in this order.
#[derive(Copy, Clone, Debug, PartialEq, Eq, Structural)]
pub enum SortType {
    Gnome,
    Stooge,
    Bubble,
    Quick,
    ParallelQuick,
    Merge,
    Heap,
    ParallelMerge,
    IterativeMerge,
    RotateMerge,
}

/// The number of a sort.
pub open spec fn sort_number(t: SortType) -> int {
    match t {
        SortType::Gnome => 0,
        SortType::Stooge => 1,
        SortType::Bubble => 2,
        SortType::Quick => 3,
        SortType::ParallelQuick => 4,
        SortType::Merge => 5,
        SortType::Heap => 6,
        SortType::ParallelMerge => 7,
        SortType::IterativeMerge => 8,
        SortType::RotateMerge => 9,
    }
}

/// Different sorts have different numbers.
pub proof fn lemma_sort_number_injective(a: SortType, b: SortType)
    requires
        sort_number(a) == sort_number(b),
    ensures
        a == b,
{
}

/// The name a sort is shown by.
pub open spec fn sort_name(t: SortType) -> Seq<char> {
    match t {
        SortType::Gnome => "Gnome sort"@,
        SortType::Stooge => "Stooge sort"@,
        SortType::Bubble => "Bubble sort"@,
        SortType::Quick => "Quicksort"@,
        SortType::ParallelQuick => "Parallel Quicksort"@,
        SortType::Merge => "Merge sort"@,
        SortType::Heap => "Heapsort"@,
        SortType::ParallelMerge => "Parallel Merge sort"@,
        SortType::IterativeMerge => "Iterative Merge sort"@,
        SortType::RotateMerge => "Rotate Merge sort"@,
    }
}

/// The sort may run forever on a list that holds a value twice.
pub open spec fn needs_distinct(t: SortType) -> bool {
    t == SortType::Quick || t == SortType::ParallelQuick || t == SortType::RotateMerge
}

/// The sort ends on `s`.
pub open spec fn sort_ends(t: SortType, s: Seq<Num>) -> bool {
    match t {
        SortType::Quick | SortType::ParallelQuick => quick_ends(s),
        SortType::RotateMerge => rotate_merge_sort_ends(s),
        _ => true,
    }
}

/// The actions sort `t` reports on a window `s` that starts at `off`.
pub open spec fn sort_trace(t: SortType, s: Seq<Num>, off: int) -> Seq<ListAction<Num>> {
    match t {
        SortType::Gnome => gnome_trace(s, off),
        SortType::Stooge => stooge_run(s, off).1,
        SortType::Bubble => bubble_trace(s, off),
        SortType::Quick | SortType::ParallelQuick => quick_sort_trace(s, off),
        SortType::Merge | SortType::ParallelMerge => merge_sort_run(s, off).1,
        SortType::Heap => heap_trace(s, off),
        SortType::IterativeMerge => iterative_merge_trace(s, off),
        SortType::RotateMerge => rotate_merge_sort_trace(s, off),
    }
}

/// The actions sort `t` reports on a window `s` that starts at `off` when
/// the sorts that may not end go at most `depth` levels of calls deep, and
/// whether it ended.
pub open spec fn sort_upto(t: SortType, s: Seq<Num>, off: int, depth: nat) -> (Seq<ListAction<Num>>, bool) {
    match t {
        SortType::Quick | SortType::ParallelQuick => quick_upto(s, off, depth),
        SortType::RotateMerge => (
            rotate_sort_upto(s, s.len() as int, 2, off, depth).1,
            rotate_sort_upto(s, s.len() as int, 2, off, depth).2,
        ),
        _ => (sort_trace(t, s, off), true),
    }
}

/// With more depth a sort reports the same actions and more; if it ended,
/// nothing changes.
pub proof fn lemma_sort_upto_prefix(t: SortType, s: Seq<Num>, off: int, f: nat, g: nat)
    requires
        f <= g,
    ensures
        sort_upto(t, s, off, f).0.len() <= sort_upto(t, s, off, g).0.len(),
        sort_upto(t, s, off, g).0.subrange(0, sort_upto(t, s, off, f).0.len() as int) == sort_upto(t, s, off, f).0,
        sort_upto(t, s, off, f).1 ==> sort_upto(t, s, off, g) == sort_upto(t, s, off, f),
{
    match t {
        SortType::Quick | SortType::ParallelQuick => lemma_quick_upto_prefix(s, off, f, g),
        SortType::RotateMerge => lemma_rotate_sort_upto_prefix(s, s.len() as int, 2, off, f, g),
        _ => {
            assert(sort_trace(t, s, off).subrange(0, sort_trace(t, s, off).len() as int) =~= sort_trace(t, s, off));
        },
    }
}

/// Where a sort ended within some depth, it ends, and it reported the
/// actions of its whole run.
pub proof fn lemma_sort_upto_complete(t: SortType, s: Seq<Num>, off: int, d: nat)
    requires
        sort_upto(t, s, off, d).1,
    ensures
        sort_ends(t, s),
        sort_upto(t, s, off, d).0 == sort_trace(t, s, off),
{
    match t {
        SortType::Quick | SortType::ParallelQuick => {
            lemma_quick_upto_run(s, off, d);
            let c = choose|f: nat| #[trigger] quick_run(s, f) is Some;
            lemma_quick_upto_run(s, off, c);
            if c <= d {
                lemma_quick_upto_prefix(s, off, c, d);
            } else {
                lemma_quick_upto_prefix(s, off, d, c);
            }
        },
        SortType::RotateMerge => {
            let n = s.len() as int;
            lemma_rotate_sort_upto_run(s, n, 2, off, d);
            let c = choose|f: nat| #[trigger] rotate_sort_run(s, n, 2, f) is Some;
            lemma_rotate_sort_upto_run(s, n, 2, off, c);
            if c <= d {
                lemma_rotate_sort_upto_prefix(s, n, 2, off, c, d);
            } else {
                lemma_rotate_sort_upto_prefix(s, n, 2, off, d, c);
            }
        },
        _ => {},
    }
}

/// Every sort ends on a list that holds no value twice.
pub proof fn lemma_distinct_sort_ends(t: SortType, s: Seq<Num>)
    requires
        s.len() <= usize::MAX / 4,
        needs_distinct(t) ==> s.no_duplicates(),
    ensures
        sort_ends(t, s),
{
    if t == SortType::RotateMerge {
        lemma_rotate_merge_sort_distinct(s);
    } else if t == SortType::Quick || t == SortType::ParallelQuick {
        lemma_quick_distinct(s);
    }
}

/// The sort leaves the list in ascending order.
pub open spec fn sorts_list(t: SortType) -> bool {
    t != SortType::RotateMerge
}

/// There is no sort with this number.
#[derive(Debug)]
pub struct NoSuchSort {
    pub id: isize,
}

impl From<isize> for NoSuchSort {
    fn from(value: isize) -> (r: Self) {
        NoSuchSort { id: value }
    }
}

impl vstd::std_specs::convert::FromSpecImpl<isize> for NoSuchSort {
    open spec fn obeys_from_spec() -> bool {
        true
    }

    open spec fn from_spec(value: isize) -> Self {
        NoSuchSort { id: value }
    }
}

/// `c` is an ASCII decimal digit.
pub open spec fn is_digit(c: char) -> bool {
    '0' <= c <= '9'
}

/// The number that a string of decimal digits writes.
pub open spec fn digits_value(d: Seq<char>) -> int
    decreases d.len(),
{
    if d.len() == 0 {
        0
    } else {
        digits_value(d.drop_last()) * 10 + (d.last() as int - '0' as int)
    }
}

/// The `isize` that a text writes as an optional `+` or `-` followed by one
/// or more decimal digits, if it writes one that fits.
pub open spec fn isize_text_value(s: Seq<char>) -> Option<int> {
    let negative = s.len() > 0 && s[0] == '-';
    let digits = if s.len() > 0 && (s[0] == '-' || s[0] == '+') {
        s.drop_first()
    } else {
        s
    };
    let v = if negative {
        -digits_value(digits)
    } else {
        digits_value(digits)
    };
    if digits.len() > 0 && (forall|i: int| 0 <= i < digits.len() ==> is_digit(#[trigger] digits[i]))
        && isize::MIN <= v <= isize::MAX {
        Some(v)
    } else {
        None
    }
}

/// `str::parse::<isize>`: by its documentation the text must be an optional
/// `+` or `-` followed by decimal digits only, and the number must fit;
/// otherwise it returns an error.
#[verifier::external_body]
fn parse_isize(s: &str) -> (r: Result<isize, ParseIntError>)
    ensures
        match r {
            Ok(v) => isize_text_value(s@) == Some(v as int),
            Err(_) => isize_text_value(s@) is None,
        },
{
    s.parse::<isize>()
}

/// Why a text names no sort: it is no integer, or no sort has that number.
#[derive(Debug)]
pub enum SortParseError {
    IntParsing(ParseIntError),
    NoSuchSort(NoSuchSort),
}

impl SortType {
    /// The sort numbered `value`, or `NoSuchSort` for a number no sort has.
    pub fn try_from(value: isize) -> (r: Result<SortType, NoSuchSort>)
        ensures
            0 <= value <= 9 <==> r is Ok,
            r matches Ok(t) ==> sort_number(t) == value,
            r matches Err(e) ==> e.id == value,
    {
        match value {
            0 => Ok(SortType::Gnome),
            1 => Ok(SortType::Stooge),
            2 => Ok(SortType::Bubble),
            3 => Ok(SortType::Quick),
            4 => Ok(SortType::ParallelQuick),
            5 => Ok(SortType::Merge),
            6 => Ok(SortType::Heap),
            7 => Ok(SortType::ParallelMerge),
            8 => Ok(SortType::IterativeMerge),
            9 => Ok(SortType::RotateMerge),
            _ => Err(NoSuchSort::from(value)),
        }
    }

    /// The sort whose number the text writes.
    pub fn parse(s: &str) -> (r: Result<SortType, SortParseError>)
        ensures
            r is Ok <==> (exists|n: int| isize_text_value(s@) == Some(n) && 0 <= n <= 9),
            r matches Ok(t) ==> isize_text_value(s@) == Some(sort_number(t)),
            r matches Err(SortParseError::IntParsing(_)) <==> isize_text_value(s@) is None,
            r matches Err(SortParseError::NoSuchSort(e)) ==> isize_text_value(s@) == Some(e.id as int)
                && !(0 <= e.id <= 9),
    {
        match parse_isize(s) {
            Err(e) => Err(SortParseError::IntParsing(e)),
            Ok(v) => match SortType::try_from(v) {
                Ok(t) => Ok(t),
                Err(e) => Err(SortParseError::NoSuchSort(e)),
            },
        }
    }

    /// The number of this sort.
    pub fn number(self) -> (n: isize)
        ensures
            n == sort_number(self),
    {
        match self {
            SortType::Gnome => 0,
            SortType::Stooge => 1,
            SortType::Bubble => 2,
            SortType::Quick => 3,
            SortType::ParallelQuick => 4,
            SortType::Merge => 5,
            SortType::Heap => 6,
            SortType::ParallelMerge => 7,
            SortType::IterativeMerge => 8,
            SortType::RotateMerge => 9,
        }
    }

    /// The name this sort is shown by.
    pub fn name(self) -> (s: &'static str)
        ensures
            s@ == sort_name(self),
    {
        match self {
            SortType::Gnome => "Gnome sort",
            SortType::Stooge => "Stooge sort",
            SortType::Bubble => "Bubble sort",
            SortType::Quick => "Quicksort",
            SortType::ParallelQuick => "Parallel Quicksort",
            SortType::Merge => "Merge sort",
            SortType::Heap => "Heapsort",
            SortType::ParallelMerge => "Parallel Merge sort",
            SortType::IterativeMerge => "Iterative Merge sort",
            SortType::RotateMerge => "Rotate Merge sort",
        }
    }

    /// Runs this sort on the list; quicksort and rotate merge sort go at
    /// most `depth` levels of calls deep, as they may not end otherwise.
    /// Says whether the sort ended. The list's length is bounded as that of
    /// any list of `Num`s in memory is.
    pub fn start(self, list: &mut CheckedListMut, depth: u64) -> (done: bool)
        requires
            old(list).wf(),
            old(list)@.len() <= usize::MAX / 4,
        ensures
            final(list).wf(),
            final(list).extends(old(list)),
            permutation(final(list)@, old(list)@),
            done == sort_upto(self, old(list)@, old(list).lo() as int, depth as nat).1,
            final(list).trace() == old(list).trace() + sort_upto(self, old(list)@, old(list).lo() as int, depth as nat).0,
            done && sorts_list(self) ==> sorted(final(list)@),
            done ==> final(list).trace() == old(list).trace() + sort_trace(self, old(list)@, old(list).lo() as int),
    {
        match self {
            SortType::Gnome => {
                gnome_sort(list);
                true
            },
            SortType::Stooge => {
                stooge_sort(list);
                true
            },
            SortType::Bubble => {
                bubble_sort(list);
                true
            },
            SortType::Quick => quicksort(list, depth),
            SortType::ParallelQuick => parallel_quicksort(list, depth),
            SortType::Merge => {
                merge_sort(list);
                true
            },
            SortType::Heap => {
                heapsort(list);
                true
            },
            SortType::ParallelMerge => {
                parallel_merge_sort(list);
                true
            },
            SortType::IterativeMerge => {
                iterative_merge_sort(list);
                true
            },
            SortType::RotateMerge => rotate_merge_sort(list, depth),
        }
    }
}

impl FromStr for SortType {
    type Err = SortParseError;

    fn from_str(s: &str) -> (r: Result<Self, Self::Err>)
        ensures
            r is Ok <==> (exists|n: int| isize_text_value(s@) == Some(n) && 0 <= n <= 9),
            r matches Ok(t) ==> isize_text_value(s@) == Some(sort_number(t)),
            r matches Err(SortParseError::IntParsing(_)) <==> isize_text_value(s@) is None,
            r matches Err(SortParseError::NoSuchSort(e)) ==> isize_text_value(s@) == Some(e.id as int)
                && !(0 <= e.id <= 9),
    {
        SortType::parse(s)
    }
}

} // verus!
