use vstd::prelude::*;
use crate::tools::checked_list::CheckedListMut;
use crate::tools::seq_facts::{sorted, permutation};
use crate::sorts::parallel_quick::{parallel_quicksort, quick_upto, quick_run, quick_sort_trace};

verus! {

/// Quicksort: the partition sort of `parallel_quicksort`, its two parts
/// sorted one after the other, at most `depth` levels of calls deep; says
/// whether it ended.
pub fn quicksort(list: &mut CheckedListMut, depth: u64) -> (done: bool)
    requires
        old(list).wf(),
    ensures
        final(list).wf(),
        final(list).extends(old(list)),
        permutation(final(list)@, old(list)@),
        done == quick_upto(old(list)@, old(list).lo() as int, depth as nat).1,
        final(list).trace() == old(list).trace() + quick_upto(old(list)@, old(list).lo() as int, depth as nat).0,
        done ==> sorted(final(list)@),
        done ==> final(list).trace() == old(list).trace() + quick_sort_trace(old(list)@, old(list).lo() as int),
        done == (quick_run(old(list)@, depth as nat) is Some),
{
    parallel_quicksort(list, depth)
}

} // verus!
