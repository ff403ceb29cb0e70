use sort_visualizer::tools::checked_value::CheckedValue;
use sort_visualizer::sorts::bubble::bubble_sort;
use sort_visualizer::sorts::gnome::gnome_sort;
use sort_visualizer::sorts::heap::heapsort;
use sort_visualizer::sorts::iterative_merge::iterative_merge_sort;
use sort_visualizer::sorts::merge::{merge_sort, merge_sublists};
use sort_visualizer::sorts::parallel_merge::parallel_merge_sort;
use sort_visualizer::sorts::parallel_quick::parallel_quicksort;
use sort_visualizer::sorts::quick::quicksort;
use sort_visualizer::sorts::rotate_merge::{rotate_merge_sort, rotate_merge_sublists};
use sort_visualizer::sorts::stooge::stooge_sort;
use sort_visualizer::sorts::{NoSuchSort, SortParseError, SortType};
use sort_visualizer::tools::checked_list::{CheckedList, CheckedListMut, ListAction};

fn quick_deep(list: &mut CheckedListMut) {
    assert!(quicksort(list, 64));
}

fn parallel_quick_deep(list: &mut CheckedListMut) {
    assert!(parallel_quicksort(list, 64));
}

fn checked(v: &[u32]) -> CheckedListMut {
    CheckedList::new(v.to_vec()).as_mut()
}

/// Applies the actions to `start` the way the display does.
fn replay(start: &[u32], actions: &[ListAction<u32>]) -> Vec<u32> {
    let mut s = start.to_vec();
    for a in actions {
        match *a {
            ListAction::Swap(i, j) => s.swap(i, j),
            ListAction::Compare(_, _) => {}
            ListAction::Write(i, v) => s[i] = v,
        }
    }
    s
}

fn inputs() -> Vec<Vec<u32>> {
    vec![
        vec![],
        vec![7],
        vec![2, 1],
        vec![1, 2],
        vec![3, 1, 2],
        vec![5, 4, 3, 2, 1],
        vec![1, 2, 3, 4, 5, 6],
        vec![9, 3, 7, 1, 10, 2, 8, 6, 4, 5],
        vec![13, 2, 11, 7, 1, 16, 4, 9, 15, 3, 12, 6, 14, 8, 10, 5, 17],
    ]
}

fn with_duplicates() -> Vec<Vec<u32>> {
    vec![vec![2, 2], vec![3, 1, 3, 1, 2], vec![5, 5, 5, 1, 1, 4, 4, 2]]
}

fn check_sort(sort: fn(&mut CheckedListMut), input: &[u32]) {
    let mut list = checked(input);
    sort(&mut list);
    let mut expected = input.to_vec();
    expected.sort();
    assert_eq!(list.values(), &expected, "input {:?}", input);
    assert_eq!(replay(input, list.actions()), expected, "replay of {:?}", input);
}

#[test]
fn bubble_sort_sorts() {
    for v in inputs().iter().chain(with_duplicates().iter()) {
        check_sort(bubble_sort, v);
    }
}

#[test]
fn gnome_sort_sorts() {
    for v in inputs().iter().chain(with_duplicates().iter()) {
        check_sort(gnome_sort, v);
    }
}

#[test]
fn heapsort_sorts() {
    for v in inputs().iter().chain(with_duplicates().iter()) {
        check_sort(heapsort, v);
    }
}

#[test]
fn merge_sort_sorts() {
    for v in inputs().iter().chain(with_duplicates().iter()) {
        check_sort(merge_sort, v);
    }
}

#[test]
fn parallel_merge_sort_sorts() {
    for v in inputs().iter().chain(with_duplicates().iter()) {
        check_sort(parallel_merge_sort, v);
    }
}

#[test]
fn iterative_merge_sort_sorts() {
    for v in inputs().iter().chain(with_duplicates().iter()) {
        check_sort(iterative_merge_sort, v);
    }
}

#[test]
fn stooge_sort_sorts() {
    for v in inputs().iter().chain(with_duplicates().iter()) {
        check_sort(stooge_sort, v);
    }
}

#[test]
fn quicksort_sorts_distinct_values() {
    for v in inputs() {
        check_sort(quick_deep, &v);
        check_sort(parallel_quick_deep, &v);
    }
}

#[test]
fn rotate_merge_sort_permutes() {
    for v in inputs() {
        let mut list = checked(&v);
        assert!(rotate_merge_sort(&mut list, 64));
        let mut got = list.values().clone();
        assert_eq!(replay(&v, list.actions()), got);
        got.sort();
        let mut expected = v.clone();
        expected.sort();
        assert_eq!(got, expected);
    }
}

#[test]
fn rotate_merge_does_not_always_sort() {
    let v = vec![6, 5, 3, 4, 2, 1];
    let mut list = checked(&v);
    assert!(rotate_merge_sort(&mut list, 64));
    assert_eq!(list.values(), &vec![3, 1, 5, 2, 4, 6]);
}

#[test]
fn rotate_merge_sublists_merges_simple_runs() {
    let mut list = checked(&[1, 3, 2, 4]);
    assert!(rotate_merge_sublists(&mut list, 2, 64));
    assert_eq!(list.values(), &vec![1, 2, 3, 4]);
    let mut list = checked(&[1, 2]);
    assert!(rotate_merge_sublists(&mut list, 0, 64));
    assert_eq!(list.values(), &vec![1, 2]);
    assert!(list.actions().is_empty());
}

#[test]
fn bubble_sort_reports_compare_and_swap() {
    let mut list = checked(&[2, 1]);
    bubble_sort(&mut list);
    assert_eq!(
        list.actions(),
        &vec![ListAction::Compare(Some(0), Some(1)), ListAction::Swap(0, 1)]
    );
}

#[test]
fn merge_sublists_writes_merged_values() {
    let mut list = checked(&[1, 4, 2, 3]);
    let mut aux = Vec::new();
    merge_sublists(&mut list, 2, &mut aux);
    assert_eq!(list.values(), &vec![1, 2, 3, 4]);
    assert!(aux.is_empty());
    assert_eq!(
        list.actions(),
        &vec![
            ListAction::Compare(Some(0), Some(2)),
            ListAction::Compare(Some(1), Some(2)),
            ListAction::Compare(Some(1), Some(3)),
            ListAction::Write(0, 1),
            ListAction::Write(1, 2),
            ListAction::Write(2, 3),
            ListAction::Write(3, 4),
        ]
    );
}

#[test]
fn merge_sublists_is_stable_merge_of_runs() {
    let mut list = checked(&[2, 5, 9, 1, 5, 6]);
    let mut aux = Vec::new();
    merge_sublists(&mut list, 3, &mut aux);
    assert_eq!(list.values(), &vec![1, 2, 5, 5, 6, 9]);
}

#[test]
fn sort_numbers_round_trip() {
    for n in 0..10isize {
        let t = SortType::try_from(n).unwrap();
        assert_eq!(t.number(), n);
    }
    assert!(matches!(SortType::try_from(10), Err(NoSuchSort { id: 10 })));
    assert!(matches!(SortType::try_from(-1), Err(NoSuchSort { id: -1 })));
}

#[test]
fn sort_names() {
    assert_eq!(SortType::Gnome.name(), "Gnome sort");
    assert_eq!(SortType::Quick.name(), "Quicksort");
    assert_eq!(SortType::RotateMerge.name(), "Rotate Merge sort");
    assert_eq!(SortType::Heap.name(), "Heapsort");
}

#[test]
fn sort_parsing() {
    assert_eq!(SortType::parse("3").unwrap(), SortType::Quick);
    assert_eq!(SortType::parse("+9").unwrap(), SortType::RotateMerge);
    assert_eq!("0".parse::<SortType>().unwrap(), SortType::Gnome);
    assert!(matches!(SortType::parse("12"), Err(SortParseError::NoSuchSort(NoSuchSort { id: 12 }))));
    assert!(matches!(SortType::parse("-2"), Err(SortParseError::NoSuchSort(NoSuchSort { id: -2 }))));
    assert!(matches!(SortType::parse("x"), Err(SortParseError::IntParsing(_))));
    assert!(matches!(SortType::parse(""), Err(SortParseError::IntParsing(_))));
    assert!(matches!(SortType::parse(" 1"), Err(SortParseError::IntParsing(_))));
}

#[test]
fn start_dispatches_to_each_sort() {
    let v = vec![4, 1, 3, 2, 5];
    for n in 0..10isize {
        let t = SortType::try_from(n).unwrap();
        let mut list = checked(&v);
        assert!(t.start(&mut list, 64));
        assert_eq!(replay(&v, list.actions()), *list.values());
        if t != SortType::RotateMerge {
            assert_eq!(list.values(), &vec![1, 2, 3, 4, 5]);
        }
    }
}

#[test]
fn no_such_sort_from_number() {
    let e = NoSuchSort::from(42);
    assert_eq!(e.id, 42);
}

fn c(a: usize, b: usize) -> ListAction<u32> {
    ListAction::Compare(Some(a), Some(b))
}

fn s(a: usize, b: usize) -> ListAction<u32> {
    ListAction::Swap(a, b)
}

#[test]
fn quicksort_ends_on_some_repeated_values() {
    for v in [vec![2, 2, 1], vec![3, 3, 1, 2]] {
        check_sort(quick_deep, &v);
        check_sort(parallel_quick_deep, &v);
    }
}

#[test]
fn quicksort_reports_partition() {
    let mut list = checked(&[2, 1]);
    assert!(quicksort(&mut list, 64));
    assert_eq!(list.actions(), &vec![c(0, 1), s(0, 1)]);
    // [1, 2]: in order, so it is partitioned around 1
    let mut list = checked(&[1, 2]);
    assert!(quicksort(&mut list, 64));
    assert_eq!(list.values(), &vec![1, 2]);
    assert_eq!(list.actions()[0], c(0, 1));
    assert!(list.actions().iter().all(|a| !matches!(a, ListAction::Write(_, _))));
}

#[test]
fn rotate_merge_exact_results() {
    let mut list = checked(&[2, 3, 1]);
    assert!(rotate_merge_sublists(&mut list, 2, 64));
    assert_eq!(list.values(), &vec![2, 1, 3]);
    assert_eq!(list.actions(), &vec![c(2, 1), s(1, 2), c(2, 2), c(2, 2)]);
    let mut list = checked(&[1, 1, 2]);
    assert!(rotate_merge_sublists(&mut list, 2, 64));
    assert_eq!(list.values(), &vec![1, 1, 2]);
    assert_eq!(list.actions(), &vec![c(2, 1), c(1, 2)]);
    let mut list = checked(&[3, 2, 1]);
    assert!(rotate_merge_sort(&mut list, 64));
    assert_eq!(list.values(), &vec![2, 1, 3]);
    let mut list = checked(&[2, 1, 1]);
    assert!(rotate_merge_sort(&mut list, 64));
    assert_eq!(list.values(), &vec![1, 1, 2]);
    assert_eq!(
        list.actions(),
        &vec![c(1, 0), s(0, 1), c(1, 1), c(1, 1), c(2, 1), s(1, 2), c(2, 2), c(2, 2)]
    );
}

#[test]
fn heapsort_reports_compares_and_swaps() {
    let mut list = checked(&[1, 3, 2]);
    heapsort(&mut list);
    assert_eq!(list.values(), &vec![1, 2, 3]);
    assert_eq!(list.actions(), &vec![c(1, 2), c(0, 1), s(0, 1), s(2, 0), c(0, 1), s(1, 0)]);
}

#[test]
fn gnome_sort_steps_back_after_a_swap() {
    let mut list = checked(&[2, 3, 1]);
    gnome_sort(&mut list);
    assert_eq!(list.values(), &vec![1, 2, 3]);
    assert_eq!(list.actions(), &vec![c(0, 1), c(1, 2), s(1, 2), c(0, 1), s(0, 1), c(0, 1), c(1, 2)]);
}

#[test]
fn merge_sublists_compares_then_writes_in_order() {
    let mut list = checked(&[1, 4, 2, 3]);
    let mut aux = Vec::new();
    merge_sublists(&mut list, 2, &mut aux);
    assert_eq!(list.values(), &vec![1, 2, 3, 4]);
    assert_eq!(
        list.actions(),
        &vec![
            c(0, 2),
            c(1, 2),
            c(1, 3),
            ListAction::Write(0, 1),
            ListAction::Write(1, 2),
            ListAction::Write(2, 3),
            ListAction::Write(3, 4),
        ]
    );
}

#[test]
fn sort_type_start_reports_the_chosen_sort() {
    let v = vec![3, 1, 2];
    let mut by_start = checked(&v);
    assert!(SortType::Heap.start(&mut by_start, 1));
    let mut direct = checked(&v);
    heapsort(&mut direct);
    assert_eq!(by_start.actions(), direct.actions());
    let mut bubble = checked(&v);
    bubble_sort(&mut bubble);
    assert_ne!(by_start.actions(), bubble.actions());
}

#[test]
fn quicksort_stops_at_the_depth_on_a_list_it_never_sorts() {
    let mut list = checked(&[1, 1]);
    assert!(!quicksort(&mut list, 3));
    let shallow = list.actions().clone();
    let mut list = checked(&[1, 1]);
    assert!(!quicksort(&mut list, 6));
    let deep = list.actions().clone();
    assert!(deep.len() > shallow.len());
    assert_eq!(&deep[..shallow.len()], &shallow[..]);
    assert_eq!(list.values(), &vec![1, 1]);
    let mut list = checked(&[2, 1, 3]);
    assert!(!quicksort(&mut list, 0));
    assert!(list.actions().is_empty());
}

#[test]
fn rotate_merge_stops_at_the_depth_on_a_merge_it_never_ends() {
    let mut list = checked(&[1, 1]);
    assert!(!rotate_merge_sublists(&mut list, 1, 4));
    let shallow = list.actions().clone();
    let mut list = checked(&[1, 1]);
    assert!(!rotate_merge_sort(&mut list, 8));
    let deep = list.actions().clone();
    assert!(deep.len() > shallow.len());
    assert_eq!(&deep[..shallow.len()], &shallow[..]);
}

#[test]
fn merge_sublists_writes_back_what_the_buffer_held_first() {
    let mut list = checked(&[1, 3, 2, 4]);
    let mut aux = vec![CheckedValue::new(9, None)];
    merge_sublists(&mut list, 2, &mut aux);
    assert!(aux.is_empty());
    assert_eq!(list.values(), &vec![9, 1, 2, 3]);
    assert_eq!(
        list.actions(),
        &vec![
            c(0, 2),
            c(1, 2),
            c(1, 3),
            ListAction::Write(0, 9),
            ListAction::Write(1, 1),
            ListAction::Write(2, 2),
            ListAction::Write(3, 3),
        ]
    );
}
