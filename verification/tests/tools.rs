use sort_visualizer::tools::checked_list::{CheckedList, ListAction};
use sort_visualizer::tools::checked_value::{cmp, CheckedValue, Order};
use sort_visualizer::tools::misc::gcd;
use std::cmp::Ordering;

#[test]
fn gcd_values() {
    assert_eq!(gcd(12, 18), 6);
    assert_eq!(gcd(18, 12), 6);
    assert_eq!(gcd(7, 13), 1);
    assert_eq!(gcd(0, 5), 5);
    assert_eq!(gcd(5, 0), 5);
    assert_eq!(gcd(0, 0), 0);
    assert_eq!(gcd(10, 10), 10);
}

#[test]
fn swap_reports_whole_list_positions() {
    let mut list = CheckedList::new(vec![1, 2, 3, 4, 5]).as_mut();
    let prev = list.slice(2, 5);
    assert_eq!(list.len(), 3);
    list.swap(0, 2);
    list.restore(prev);
    assert_eq!(list.values(), &vec![1, 2, 5, 4, 3]);
    assert_eq!(list.actions(), &vec![ListAction::Swap(2, 4)]);
}

#[test]
fn replace_reports_write_and_returns_old_value() {
    let mut list = CheckedList::new(vec![1, 2, 3]).as_mut();
    let v = list.read(2);
    assert_eq!(v.index, None);
    let old = list.replace(0, v);
    assert_eq!(old.value, 1);
    assert_eq!(old.index, None);
    assert_eq!(list.values(), &vec![3, 2, 3]);
    assert_eq!(list.actions(), &vec![ListAction::Write(0, 3)]);
}

#[test]
fn index_knows_the_position() {
    let mut list = CheckedList::new(vec![5, 6, 7]).as_mut();
    list.slice(1, 3);
    let v = list.index(1);
    assert_eq!(v.index, Some(2));
    assert_eq!(v.value, 7);
}

#[test]
fn value_cmp_reports() {
    let a = CheckedValue::new(3, Some(0));
    let b = CheckedValue::new(5, None);
    let mut log = Vec::new();
    assert_eq!(a.cmp(&b, &mut log), Ordering::Less);
    assert_eq!(cmp(&b, &a, &mut log), Ordering::Greater);
    assert_eq!(a.cmp(&a, &mut log), Ordering::Equal);
    assert_eq!(
        log,
        vec![
            ListAction::Compare(Some(0), None),
            ListAction::Compare(None, Some(0)),
            ListAction::Compare(Some(0), Some(0)),
        ]
    );
}

#[test]
fn list_cmp_and_compare() {
    let mut list = CheckedList::new(vec![4, 2]).as_mut();
    assert_eq!(list.cmp(0, 1), Ordering::Greater);
    assert_eq!(list.compare(1, 0), Order::Less);
    assert_eq!(list.compare(1, 1), Order::Equal);
    assert_eq!(
        list.actions(),
        &vec![
            ListAction::Compare(Some(0), Some(1)),
            ListAction::Compare(Some(1), Some(0)),
            ListAction::Compare(Some(1), Some(1)),
        ]
    );
}

#[test]
fn binary_search_sorted() {
    let mut list = CheckedList::new(vec![1, 3, 5, 7, 9, 11]).as_mut();
    for (i, x) in [1u32, 3, 5, 7, 9, 11].iter().enumerate() {
        let item = CheckedValue::new(*x, None);
        assert_eq!(list.cval_binary_search(0, 6, &item), Ok(i));
    }
    let item = CheckedValue::new(0, None);
    assert_eq!(list.cval_binary_search(0, 6, &item), Err(0));
    let item = CheckedValue::new(6, None);
    assert_eq!(list.cval_binary_search(0, 6, &item), Err(3));
    let item = CheckedValue::new(12, None);
    assert_eq!(list.cval_binary_search(0, 6, &item), Err(6));
    let item = CheckedValue::new(4, None);
    assert_eq!(list.cval_binary_search(2, 6, &item), Err(0));
    assert_eq!(list.cval_binary_search(3, 3, &item), Err(0));
    assert!(list.actions().iter().all(|a| matches!(a, ListAction::Compare(_, None))));
}

#[test]
fn is_sorted_check() {
    let mut list = CheckedList::new(vec![1, 2, 2, 3]).as_mut();
    assert!(list.cval_is_sorted());
    assert_eq!(list.actions().len(), 3);
    let mut list = CheckedList::new(vec![1, 3, 2, 4]).as_mut();
    assert!(!list.cval_is_sorted());
    assert_eq!(list.actions().len(), 2);
    let mut list = CheckedList::new(vec![]).as_mut();
    assert!(list.cval_is_sorted());
}

#[test]
fn rotate_left_rotates() {
    for len in 1..9usize {
        for mid in 0..12usize {
            let v: Vec<u32> = (0..len as u32).collect();
            let mut list = CheckedList::new(v.clone()).as_mut();
            list.rotate_left(mid);
            let mut expected = v.clone();
            expected.rotate_left(mid % len);
            assert_eq!(list.values(), &expected, "len {} mid {}", len, mid);
        }
    }
    let mut list = CheckedList::new(vec![]).as_mut();
    list.rotate_left(0);
    assert!(list.values().is_empty());
}

#[test]
fn binary_search_probes_depend_on_length_only() {
    let mut list = CheckedList::new(vec![1, 3, 5, 7, 9, 11, 13, 15]).as_mut();
    let mut before = list.actions().len();
    for x in [0u32, 1, 6, 15, 20] {
        let item = CheckedValue::new(x, None);
        list.cval_binary_search(0, 8, &item);
        // three halving probes and the final one
        assert_eq!(list.actions().len() - before, 4);
        before = list.actions().len();
    }
    // on a window that is not sorted the answer is where the search settles
    let mut list = CheckedList::new(vec![5, 1, 9, 2]).as_mut();
    let item = CheckedValue::new(3, None);
    assert_eq!(list.cval_binary_search(0, 4, &item), Err(2));
}

#[test]
fn replace_takes_any_value() {
    let mut list = CheckedList::new(vec![1, 2, 3]).as_mut();
    let old = list.replace(1, CheckedValue::new(40, Some(7)));
    assert_eq!(old.value, 2);
    assert_eq!(list.values(), &vec![1, 40, 3]);
    assert_eq!(list.actions(), &vec![ListAction::Write(1, 40)]);
}
