use algos::merge_sort_linked_list::{ListNode, Solution};

fn list_of(values: &[i32]) -> Option<Box<ListNode>> {
    let mut head: Option<Box<ListNode>> = None;
    for &v in values.iter().rev() {
        head = Some(Box::new(ListNode { val: v, next: head }));
    }
    head
}

fn values_of(mut head: Option<Box<ListNode>>) -> Vec<i32> {
    let mut out = Vec::new();
    while let Some(node) = head {
        out.push(node.val);
        head = node.next;
    }
    out
}

#[test]
fn sort_list_sorts_a_mixed_list() {
    let sorted = Solution::sort_list(list_of(&[4, 2, 1, 3]));
    assert_eq!(values_of(sorted), vec![1, 2, 3, 4]);
}

#[test]
fn sort_list_handles_negatives_and_duplicates() {
    let sorted = Solution::sort_list(list_of(&[-1, 5, 3, 4, 0, 0, -7]));
    assert_eq!(values_of(sorted), vec![-7, -1, 0, 0, 3, 4, 5]);
}

#[test]
fn sort_list_handles_trivial_lists() {
    assert_eq!(values_of(Solution::sort_list(None)), Vec::<i32>::new());
    assert_eq!(values_of(Solution::sort_list(list_of(&[9]))), vec![9]);
    assert_eq!(values_of(Solution::sort_list(list_of(&[2, 1]))), vec![1, 2]);
}
