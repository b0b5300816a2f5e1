use stratodb::list_edit::{plan_swap_remove, retain_removals, SwapRemove};

#[test]
fn swap_remove_plans_by_position() {
    assert_eq!(plan_swap_remove(3, 5), SwapRemove::OutOfRange);
    assert_eq!(plan_swap_remove(3, 3), SwapRemove::OutOfRange);
    assert_eq!(plan_swap_remove(0, 0), SwapRemove::OutOfRange);
    assert_eq!(plan_swap_remove(3, 2), SwapRemove::TakeLast);
    assert_eq!(plan_swap_remove(3, 0), SwapRemove::SwapWithLast(2));
    assert_eq!(plan_swap_remove(1, 0), SwapRemove::TakeLast);
}

#[test]
fn carrying_out_a_swap_remove_plan_moves_the_last_element_in() {
    let mut list = vec!['a', 'b', 'c', 'd'];
    let index = 1;
    match plan_swap_remove(list.len(), index) {
        SwapRemove::SwapWithLast(last) => {
            list.swap(index, last);
            list.remove(last);
        }
        other => panic!("unexpected plan {other:?}"),
    }
    assert_eq!(list, vec!['a', 'd', 'c']);
}

#[test]
fn retain_removes_back_to_front() {
    let keep = [true, false, true, false, false];
    assert_eq!(retain_removals(&keep), vec![4, 3, 1]);
    assert_eq!(retain_removals(&[]), Vec::<usize>::new());
    assert_eq!(retain_removals(&[true, true]), Vec::<usize>::new());
    assert_eq!(retain_removals(&[false, false]), vec![1, 0]);

    let mut list = vec![10, 11, 12, 13, 14];
    for index in retain_removals(&keep) {
        list.remove(index);
    }
    assert_eq!(list, vec![10, 12]);
}
