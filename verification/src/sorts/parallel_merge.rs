use vstd::prelude::*;
use crate::tools::checked_list::CheckedListMut;
use crate::tools::seq_facts::{sorted, permutation};
use crate::sorts::merge::{merge_sort, merge_sort_run};

verus! {

/// Merge sort whose two halves may be sorted side by side. Here the halves
/// are sorted one after the other, so it reports what `merge_sort` reports.
pub fn parallel_merge_sort(list: &mut CheckedListMut)
    requires
        old(list).wf(),
    ensures
        final(list).wf(),
        final(list).extends(old(list)),
        sorted(final(list)@),
        permutation(final(list)@, old(list)@),
        final(list).trace() == old(list).trace() + merge_sort_run(old(list)@, old(list).lo() as int).1,
{
    merge_sort(list);
}

} // verus!
