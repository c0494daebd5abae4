use embed_struct::list::{List, ListMut, ListNode, VecListNodes};
use embed_struct::ptr::NullablePtr;

fn nodes(n: usize) -> Vec<ListNode> {
    let mut v: Vec<ListNode> = Vec::new();
    v.resize_with(n, ListNode::new);
    v
}

fn collect(vec: &Vec<ListNode>, head: usize) -> Vec<usize> {
    let list = List::<VecListNodes>::new(vec);
    let mut it = list.iter_head(head);
    let mut out = Vec::new();
    while let Some(x) = it.next() {
        out.push(x);
    }
    out
}

#[test]
fn list_append_and_iterate() {
    let mut vec = nodes(5);
    let mut head = usize::nullptr();
    assert_eq!(collect(&vec, head), Vec::<usize>::new());
    ListMut::<VecListNodes>::new(&mut vec).append(&mut head, 2);
    assert_eq!(head, 2);
    assert_eq!(vec[2], ListNode { prev: 2, next: 2 });
    ListMut::<VecListNodes>::new(&mut vec).append(&mut head, 0);
    ListMut::<VecListNodes>::new(&mut vec).append(&mut head, 4);
    assert_eq!(head, 2);
    assert_eq!(collect(&vec, head), vec![2, 0, 4]);
    assert_eq!(vec[2], ListNode { prev: 4, next: 0 });
    assert_eq!(vec[4], ListNode { prev: 0, next: 2 });
    assert!(!vec[1].in_list());
    assert!(vec[0].in_list());
    assert_eq!(vec[0].get_prev(), 2);
    assert_eq!(vec[0].get_next(), 4);
}

#[test]
fn list_prepend_moves_head() {
    let mut vec = nodes(4);
    let mut head = usize::nullptr();
    ListMut::<VecListNodes>::new(&mut vec).prepend(&mut head, 1);
    ListMut::<VecListNodes>::new(&mut vec).prepend(&mut head, 3);
    ListMut::<VecListNodes>::new(&mut vec).prepend(&mut head, 0);
    assert_eq!(head, 0);
    assert_eq!(collect(&vec, head), vec![0, 3, 1]);
}

#[test]
fn list_pop_back_after_append_gives_it_back() {
    let mut vec = nodes(4);
    let mut head = usize::nullptr();
    ListMut::<VecListNodes>::new(&mut vec).append(&mut head, 1);
    ListMut::<VecListNodes>::new(&mut vec).append(&mut head, 2);
    ListMut::<VecListNodes>::new(&mut vec).append(&mut head, 3);
    let r = ListMut::<VecListNodes>::new(&mut vec).pop_back(&mut head);
    assert_eq!(r, 3);
    assert_eq!(vec[3], ListNode::new());
    assert_eq!(collect(&vec, head), vec![1, 2]);
}

#[test]
fn list_pop_front_after_prepend_gives_it_back() {
    let mut vec = nodes(4);
    let mut head = usize::nullptr();
    ListMut::<VecListNodes>::new(&mut vec).append(&mut head, 1);
    ListMut::<VecListNodes>::new(&mut vec).append(&mut head, 2);
    ListMut::<VecListNodes>::new(&mut vec).prepend(&mut head, 0);
    let r = ListMut::<VecListNodes>::new(&mut vec).pop_front(&mut head);
    assert_eq!(r, 0);
    assert_eq!(head, 1);
    assert_eq!(collect(&vec, head), vec![1, 2]);
}

#[test]
fn list_pop_empty_gives_null() {
    let mut vec = nodes(2);
    let mut head = usize::nullptr();
    assert_eq!(ListMut::<VecListNodes>::new(&mut vec).pop_back(&mut head), usize::nullptr());
    assert_eq!(ListMut::<VecListNodes>::new(&mut vec).pop_front(&mut head), usize::nullptr());
    assert_eq!(head, usize::nullptr());
    ListMut::<VecListNodes>::new(&mut vec).append(&mut head, 1);
    assert_eq!(ListMut::<VecListNodes>::new(&mut vec).pop_front(&mut head), 1);
    assert_eq!(head, usize::nullptr());
    assert_eq!(vec[1], ListNode::new());
}

#[test]
fn list_remove_head_and_middle() {
    let mut vec = nodes(5);
    let mut head = usize::nullptr();
    for i in 0..5 {
        ListMut::<VecListNodes>::new(&mut vec).append(&mut head, i);
    }
    ListMut::<VecListNodes>::new(&mut vec).remove(&mut head, 2);
    assert_eq!(collect(&vec, head), vec![0, 1, 3, 4]);
    ListMut::<VecListNodes>::new(&mut vec).remove(&mut head, 0);
    assert_eq!(head, 1);
    assert_eq!(collect(&vec, head), vec![1, 3, 4]);
    assert_eq!(vec[0], ListNode::new());
    assert_eq!(vec[2], ListNode::new());
}

#[test]
fn list_remove_from_list_returns_next() {
    let mut vec = nodes(3);
    let mut head = usize::nullptr();
    ListMut::<VecListNodes>::new(&mut vec).append(&mut head, 0);
    ListMut::<VecListNodes>::new(&mut vec).append(&mut head, 1);
    let r = ListMut::<VecListNodes>::new(&mut vec).remove_from_list(0);
    assert_eq!(r, 1);
    let r = ListMut::<VecListNodes>::new(&mut vec).remove_from_list(1);
    assert_eq!(r, usize::nullptr());
    assert!(!vec[1].in_list());
}

#[test]
fn list_insert_after_and_before() {
    let mut vec = nodes(5);
    let l = ListMut::<VecListNodes>::new(&mut vec).insert_after(usize::nullptr(), 3);
    assert_eq!(l, 3);
    assert_eq!(vec[3], ListNode::new_indexed(3));
    let r = ListMut::<VecListNodes>::new(&mut vec).insert_after(3, 1);
    assert_eq!(r, 3);
    let r = ListMut::<VecListNodes>::new(&mut vec).insert_before(3, 4);
    assert_eq!(r, 3);
    assert_eq!(collect(&vec, 3), vec![3, 1, 4]);
    let r = ListMut::<VecListNodes>::new(&mut vec).insert_after(1, 0);
    assert_eq!(r, 1);
    assert_eq!(collect(&vec, 3), vec![3, 1, 0, 4]);
}

#[test]
fn list_remove_after_insert_after_restores() {
    let mut vec = nodes(4);
    let mut head = usize::nullptr();
    ListMut::<VecListNodes>::new(&mut vec).append(&mut head, 0);
    ListMut::<VecListNodes>::new(&mut vec).append(&mut head, 1);
    let before = vec.clone();
    ListMut::<VecListNodes>::new(&mut vec).insert_after(head, 3);
    assert_eq!(collect(&vec, head), vec![0, 3, 1]);
    ListMut::<VecListNodes>::new(&mut vec).remove(&mut head, 3);
    assert_eq!(collect(&vec, head), vec![0, 1]);
    assert_eq!(vec, before);
}

#[test]
fn list_splice_after_and_before() {
    let mut vec = nodes(6);
    let mut a = usize::nullptr();
    let mut b = usize::nullptr();
    ListMut::<VecListNodes>::new(&mut vec).append(&mut a, 0);
    ListMut::<VecListNodes>::new(&mut vec).append(&mut a, 1);
    ListMut::<VecListNodes>::new(&mut vec).append(&mut b, 2);
    ListMut::<VecListNodes>::new(&mut vec).append(&mut b, 3);
    let r = ListMut::<VecListNodes>::new(&mut vec).splice_after(a, b);
    assert_eq!(r, 0);
    assert_eq!(collect(&vec, 0), vec![0, 2, 3, 1]);

    let mut c = usize::nullptr();
    let mut d = usize::nullptr();
    ListMut::<VecListNodes>::new(&mut vec).append(&mut c, 4);
    ListMut::<VecListNodes>::new(&mut vec).append(&mut d, 5);
    let r = ListMut::<VecListNodes>::new(&mut vec).splice_before(c, d);
    assert_eq!(r, 5);
    assert_eq!(collect(&vec, 5), vec![5, 4]);
    assert_eq!(collect(&vec, 4), vec![4, 5]);
}

#[test]
fn list_splice_with_empty() {
    let mut vec = nodes(3);
    let mut a = usize::nullptr();
    ListMut::<VecListNodes>::new(&mut vec).append(&mut a, 1);
    let n = usize::nullptr();
    assert_eq!(ListMut::<VecListNodes>::new(&mut vec).splice_after(a, n), 1);
    assert_eq!(ListMut::<VecListNodes>::new(&mut vec).splice_after(n, a), 1);
    assert_eq!(ListMut::<VecListNodes>::new(&mut vec).splice_before(a, n), 1);
    assert_eq!(ListMut::<VecListNodes>::new(&mut vec).splice_before(n, a), 1);
    assert_eq!(collect(&vec, 1), vec![1]);
}

#[test]
fn list_clear_detaches_every_node() {
    let mut vec = nodes(5);
    let mut head = usize::nullptr();
    ListMut::<VecListNodes>::new(&mut vec).append(&mut head, 4);
    ListMut::<VecListNodes>::new(&mut vec).append(&mut head, 1);
    ListMut::<VecListNodes>::new(&mut vec).append(&mut head, 3);
    let mut other = usize::nullptr();
    ListMut::<VecListNodes>::new(&mut vec).append(&mut other, 0);
    ListMut::<VecListNodes>::new(&mut vec).clear(head);
    for i in [1usize, 3, 4] {
        assert_eq!(vec[i], ListNode::new());
    }
    assert_eq!(collect(&vec, other), vec![0]);
}

#[test]
fn list_node_default_is_detached() {
    let n: ListNode = Default::default();
    assert_eq!(n, ListNode::new());
    assert!(!n.in_list());
    assert_eq!(n.get_prev(), usize::nullptr());
    assert_eq!(n.get_next(), usize::nullptr());
}

fn five() -> (Vec<ListNode>, usize) {
    let mut vec = nodes(5);
    let mut head = usize::nullptr();
    for i in 0..5 {
        ListMut::<VecListNodes>::new(&mut vec).append(&mut head, i);
    }
    (vec, head)
}

#[test]
fn list_splice_after_within_one_list_splits_it() {
    let (mut vec, head) = five();
    let r = ListMut::<VecListNodes>::new(&mut vec).splice_after(head, 3);
    assert_eq!(r, 0);
    assert_eq!(collect(&vec, 0), vec![0, 3, 4]);
    assert_eq!(collect(&vec, 1), vec![1, 2]);

    let (mut vec, head) = five();
    ListMut::<VecListNodes>::new(&mut vec).splice_after(head, 0);
    assert_eq!(collect(&vec, 0), vec![0]);
    assert_eq!(collect(&vec, 1), vec![1, 2, 3, 4]);

    let (mut vec, head) = five();
    let before = vec.clone();
    ListMut::<VecListNodes>::new(&mut vec).splice_after(head, 1);
    assert_eq!(vec, before);
}

#[test]
fn list_splice_before_within_one_list_splits_it() {
    let (mut vec, head) = five();
    let r = ListMut::<VecListNodes>::new(&mut vec).splice_before(head, 3);
    assert_eq!(r, 3);
    assert_eq!(collect(&vec, 3), vec![3, 4]);
    assert_eq!(collect(&vec, 0), vec![0, 1, 2]);

    let (mut vec, head) = five();
    let r = ListMut::<VecListNodes>::new(&mut vec).splice_before(head, 4);
    assert_eq!(r, 4);
    assert_eq!(collect(&vec, 4), vec![4]);
    assert_eq!(collect(&vec, 0), vec![0, 1, 2, 3]);

    let (mut vec, head) = five();
    let before = vec.clone();
    let r = ListMut::<VecListNodes>::new(&mut vec).splice_before(head, 0);
    assert_eq!(r, 0);
    assert_eq!(vec, before);
}

#[test]
fn list_append_then_pop_back_restores_every_node() {
    let mut vec = nodes(6);
    let mut head = usize::nullptr();
    ListMut::<VecListNodes>::new(&mut vec).append(&mut head, 4);
    ListMut::<VecListNodes>::new(&mut vec).append(&mut head, 1);
    ListMut::<VecListNodes>::new(&mut vec).append(&mut head, 3);
    let before = vec.clone();
    let head0 = head;
    ListMut::<VecListNodes>::new(&mut vec).append(&mut head, 5);
    let r = ListMut::<VecListNodes>::new(&mut vec).pop_back(&mut head);
    assert_eq!(r, 5);
    assert_eq!(head, head0);
    assert_eq!(vec, before);
}

#[test]
fn list_append_then_pop_back_on_empty_list_restores_every_node() {
    let mut vec = nodes(3);
    let mut head = usize::nullptr();
    let before = vec.clone();
    ListMut::<VecListNodes>::new(&mut vec).append(&mut head, 2);
    let r = ListMut::<VecListNodes>::new(&mut vec).pop_back(&mut head);
    assert_eq!(r, 2);
    assert!(head.null());
    assert_eq!(vec, before);
}

fn assert_links_consistent(vec: &Vec<ListNode>) {
    for x in 0..vec.len() {
        let n = vec[x];
        assert_eq!(n.in_list(), !n.get_prev().null());
        assert_eq!(n.in_list(), !n.get_next().null());
        if n.in_list() {
            assert_eq!(vec[n.get_next()].get_prev(), x);
            assert_eq!(vec[n.get_prev()].get_next(), x);
        }
    }
}

#[test]
fn list_links_stay_consistent_over_a_sequence_of_calls() {
    let mut vec = nodes(8);
    let mut a = usize::nullptr();
    let mut b = usize::nullptr();
    assert_links_consistent(&vec);
    for i in 0..4usize {
        ListMut::<VecListNodes>::new(&mut vec).append(&mut a, i);
        assert_links_consistent(&vec);
    }
    ListMut::<VecListNodes>::new(&mut vec).prepend(&mut b, 5);
    ListMut::<VecListNodes>::new(&mut vec).append(&mut b, 6);
    assert_links_consistent(&vec);
    ListMut::<VecListNodes>::new(&mut vec).remove(&mut a, 2);
    assert_links_consistent(&vec);
    a = ListMut::<VecListNodes>::new(&mut vec).splice_after(a, b);
    assert_links_consistent(&vec);
    assert_eq!(collect(&vec, a), vec![0, 5, 6, 1, 3]);
    let c = ListMut::<VecListNodes>::new(&mut vec).splice_after(a, 1);
    assert_eq!(c, a);
    assert_links_consistent(&vec);
    let r = ListMut::<VecListNodes>::new(&mut vec).pop_front(&mut a);
    assert_eq!(r, 0);
    assert_links_consistent(&vec);
    ListMut::<VecListNodes>::new(&mut vec).clear(a);
    assert_links_consistent(&vec);
    ListMut::<VecListNodes>::new(&mut vec).insert_after(usize::nullptr(), 7);
    assert_links_consistent(&vec);
}

#[test]
fn list_node_getters_read_the_container() {
    let mut vec = nodes(3);
    let mut head = usize::nullptr();
    ListMut::<VecListNodes>::new(&mut vec).append(&mut head, 1);
    ListMut::<VecListNodes>::new(&mut vec).append(&mut head, 2);
    assert_eq!(List::<VecListNodes>::new(&vec).node(1), ListNode { prev: 2, next: 2 });
    assert_eq!(ListMut::<VecListNodes>::new(&mut vec).node(0), ListNode::new());
}
