use embed_struct::ptr::NullablePtr;
use embed_struct::rbtree::color;
use embed_struct::rbtree::{
    RBTree, RBTreeColor, RBTreeMut, RBTreeNode, RBTreePtrColor, RBTreePtrColorUsize, VecKeyedRBTreeNodes,
    VecRBTreeNodes,
};

fn in_order(vec: &Vec<RBTreeNode>, root: usize) -> Vec<usize> {
    let mut out = Vec::new();
    if root.null() {
        return out;
    }
    let tree = RBTree::<VecRBTreeNodes>::new(vec);
    let mut x = tree.leftmost(root);
    while !x.null() {
        out.push(x);
        x = tree.successor(x);
    }
    out
}

fn keyed_in_order(kvec: &Vec<(RBTreeNode, usize)>, root: usize) -> Vec<usize> {
    let vec: Vec<RBTreeNode> = kvec.iter().map(|e| e.0).collect();
    in_order(&vec, root)
}

fn build(n: usize) -> (Vec<RBTreeNode>, usize) {
    let mut vec: Vec<RBTreeNode> = Vec::new();
    vec.resize_with(n + 1, RBTreeNode::new);
    let mut root = usize::nullptr();
    let empty = root;
    RBTreeMut::<VecRBTreeNodes>::new(&mut vec).insert_left(&mut root, empty, 0);
    for i in 1..n {
        let last = RBTree::<VecRBTreeNodes>::new(&vec).rightmost(root);
        RBTreeMut::<VecRBTreeNodes>::new(&mut vec).insert_after(&mut root, last, i);
    }
    (vec, root)
}

#[test]
fn rbtree_ptr_color_roundtrip() {
    let n = usize::nullptr();
    let c = RBTreePtrColorUsize::combine(5, color::RED);
    assert_eq!(c.separate(), (5, RBTreeColor::RED));
    assert_eq!(c.ptr(), 5);
    assert_eq!(c.color(), RBTreeColor::RED);
    assert!(!c.null());
    let c = RBTreePtrColorUsize::combine(7, color::BLACK);
    assert_eq!(c.separate(), (7, RBTreeColor::BLACK));
    assert_eq!(RBTreePtrColorUsize::combine(n, color::RED), RBTreePtrColorUsize::nullptr_color());
    assert!(RBTreePtrColorUsize::nullptr_color().null());
    assert_eq!(RBTreePtrColorUsize::nullptr_color().separate(), (n, RBTreeColor::BLACK));
}

#[test]
fn rbtree_new_node_is_detached() {
    let node = RBTreeNode::new();
    assert!(!node.in_tree());
    assert_eq!(node.get_parent(), usize::nullptr());
    assert_eq!(node.get_left(), usize::nullptr());
    assert_eq!(node.get_right(), usize::nullptr());
}

#[test]
fn rbtree_inserts_keep_order() {
    let (vec, root) = build(10);
    assert_eq!(in_order(&vec, root), (0..10).collect::<Vec<usize>>());
    assert_eq!(vec[root].get_color(), RBTreeColor::BLACK);
}

#[test]
fn rbtree_delete_after_insert_restores_order() {
    let (mut vec, mut root) = build(7);
    let before = in_order(&vec, root);
    RBTreeMut::<VecRBTreeNodes>::new(&mut vec).insert_after(&mut root, 3, 7);
    assert_eq!(in_order(&vec, root), vec![0, 1, 2, 3, 7, 4, 5, 6]);
    RBTreeMut::<VecRBTreeNodes>::new(&mut vec).delete(&mut root, 7);
    assert_eq!(in_order(&vec, root), before);
    assert_eq!(vec[7], RBTreeNode::new());
}

#[test]
fn rbtree_delete_every_node() {
    let (mut vec, mut root) = build(9);
    let mut expect: Vec<usize> = (0..9).collect();
    for x in [4usize, 0, 8, 2, 6, 1, 7, 3, 5] {
        RBTreeMut::<VecRBTreeNodes>::new(&mut vec).delete(&mut root, x);
        expect.retain(|&y| y != x);
        assert_eq!(in_order(&vec, root), expect);
        assert_eq!(vec[x], RBTreeNode::new());
        if !root.null() {
            assert_eq!(vec[root].get_color(), RBTreeColor::BLACK);
        }
    }
    assert_eq!(root, usize::nullptr());
}

#[test]
fn rbtree_swap_twice_restores() {
    let (mut vec, root) = build(8);
    let before = vec.clone();
    RBTreeMut::<VecRBTreeNodes>::new(&mut vec).swap(2, 5);
    assert_eq!(in_order(&vec, root), vec![0, 1, 5, 3, 4, 2, 6, 7]);
    RBTreeMut::<VecRBTreeNodes>::new(&mut vec).swap(2, 5);
    assert_eq!(vec, before);
}

#[test]
fn rbtree_swap_same_or_loose_nodes_changes_nothing() {
    let (mut vec, _root) = build(3);
    let before = vec.clone();
    RBTreeMut::<VecRBTreeNodes>::new(&mut vec).swap(1, 1);
    assert_eq!(vec, before);
    vec.push(RBTreeNode::new());
    let before = vec.clone();
    RBTreeMut::<VecRBTreeNodes>::new(&mut vec).swap(3, 4);
    assert_eq!(vec, before);
}

#[test]
fn rbtree_rotate_keeps_order() {
    let (mut vec, mut root) = build(6);
    let before = in_order(&vec, root);
    let child = vec[root].get_left();
    RBTreeMut::<VecRBTreeNodes>::new(&mut vec).rotate(&mut root, child);
    assert_eq!(root, child);
    assert_eq!(in_order(&vec, root), before);
}

#[test]
fn rbtree_keyed_empty_tree() {
    let kvec: Vec<(RBTreeNode, usize)> = Vec::new();
    let n = usize::nullptr();
    let tree = RBTree::<VecKeyedRBTreeNodes>::new(&kvec);
    assert_eq!(tree.locate(n, &1), n);
    assert_eq!(tree.find(n, &1), n);
    assert_eq!(tree.find_first(n, &1), n);
    assert_eq!(tree.find_last(n, &1), n);
}

#[test]
fn rbtree_keyed_first_and_last_after_inserts() {
    let mut kvec: Vec<(RBTreeNode, usize)> = Vec::new();
    let mut root = usize::nullptr();
    let keys = [5usize, 3, 5, 8, 5, 1];
    for (i, k) in keys.iter().enumerate() {
        kvec.push((RBTreeNode::new(), *k));
        RBTreeMut::<VecKeyedRBTreeNodes>::new(&mut kvec).insert(&mut root, i);
    }
    kvec.push((RBTreeNode::new(), 5));
    RBTreeMut::<VecKeyedRBTreeNodes>::new(&mut kvec).insert_first(&mut root, 6);
    assert_eq!(RBTree::<VecKeyedRBTreeNodes>::new(&kvec).find_first(root, &5), 6);
    kvec.push((RBTreeNode::new(), 5));
    RBTreeMut::<VecKeyedRBTreeNodes>::new(&mut kvec).insert_last(&mut root, 7);
    assert_eq!(RBTree::<VecKeyedRBTreeNodes>::new(&kvec).find_last(root, &5), 7);
    let order = keyed_in_order(&kvec, root);
    let ks: Vec<usize> = order.iter().map(|&i| kvec[i].1).collect();
    assert_eq!(ks, vec![1, 3, 5, 5, 5, 5, 5, 8]);
    assert_eq!(order[2], 6);
    assert_eq!(order[6], 7);
    assert_eq!(RBTree::<VecKeyedRBTreeNodes>::new(&kvec).find(root, &4), usize::nullptr());
    let f = RBTree::<VecKeyedRBTreeNodes>::new(&kvec).find(root, &8);
    assert_eq!(f, 3);
}

#[test]
fn rbtree_keyed_find_or_insert_then_found() {
    let mut kvec: Vec<(RBTreeNode, usize)> = Vec::new();
    let mut root = usize::nullptr();
    kvec.push((RBTreeNode::new(), 10));
    kvec.push((RBTreeNode::new(), 20));
    kvec.push((RBTreeNode::new(), 10));
    assert_eq!(RBTreeMut::<VecKeyedRBTreeNodes>::new(&mut kvec).find_or_insert(&mut root, 0), usize::nullptr());
    assert_eq!(RBTreeMut::<VecKeyedRBTreeNodes>::new(&mut kvec).find_or_insert(&mut root, 1), usize::nullptr());
    let before = kvec.clone();
    assert_eq!(RBTreeMut::<VecKeyedRBTreeNodes>::new(&mut kvec).find_or_insert(&mut root, 2), 0);
    assert_eq!(kvec, before);
    assert!(!kvec[2].0.in_tree());
    assert_eq!(RBTree::<VecKeyedRBTreeNodes>::new(&kvec).find(root, &20), 1);
}

#[test]
fn rbtree_keyed_delete_keeps_key_order() {
    let mut kvec: Vec<(RBTreeNode, usize)> = Vec::new();
    let mut root = usize::nullptr();
    let keys = [9usize, 2, 7, 4, 4, 1, 8];
    for (i, k) in keys.iter().enumerate() {
        kvec.push((RBTreeNode::new(), *k));
        RBTreeMut::<VecKeyedRBTreeNodes>::new(&mut kvec).insert_last(&mut root, i);
    }
    RBTreeMut::<VecKeyedRBTreeNodes>::new(&mut kvec).delete(&mut root, 3);
    RBTreeMut::<VecKeyedRBTreeNodes>::new(&mut kvec).delete(&mut root, 0);
    let order = keyed_in_order(&kvec, root);
    let ks: Vec<usize> = order.iter().map(|&i| kvec[i].1).collect();
    assert_eq!(ks, vec![1, 2, 4, 7, 8]);
    assert_eq!(RBTree::<VecKeyedRBTreeNodes>::new(&kvec).find(root, &4), 4);
    assert_eq!(RBTree::<VecKeyedRBTreeNodes>::new(&kvec).find(root, &9), usize::nullptr());
}

#[test]
fn rbtree_predecessor_after_successor() {
    let (vec, root) = build(11);
    let tree = RBTree::<VecRBTreeNodes>::new(&vec);
    for x in 0..11usize {
        let s = tree.successor(x);
        if !s.null() {
            assert_eq!(tree.predecessor(s), x);
        } else {
            assert_eq!(x, tree.rightmost(root));
        }
    }
}

#[test]
fn rbtree_delete_fixup_then_cut_matches_delete() {
    let (vec0, root0) = build(12);
    let n = (0..12usize)
        .find(|&x| {
            x != root0
                && vec0[x].get_left().null()
                && vec0[x].get_right().null()
                && vec0[x].get_color() == RBTreeColor::BLACK
        })
        .unwrap();

    let mut vec1 = vec0.clone();
    let mut root1 = root0;
    RBTreeMut::<VecRBTreeNodes>::new(&mut vec1).delete(&mut root1, n);

    let mut vec2 = vec0.clone();
    let mut root2 = root0;
    RBTreeMut::<VecRBTreeNodes>::new(&mut vec2).delete_fixup(&mut root2, n);
    assert!(vec2[n].get_left().null() && vec2[n].get_right().null());
    let p = vec2[n].get_parent();
    if vec2[p].left == n {
        vec2[p].left = usize::nullptr();
    } else {
        vec2[p].right = usize::nullptr();
    }
    vec2[n] = RBTreeNode::new();

    assert_eq!(root1, root2);
    assert_eq!(vec1, vec2);
    let mut expect: Vec<usize> = (0..12).collect();
    expect.retain(|&y| y != n);
    assert_eq!(in_order(&vec2, root2), expect);
}

#[test]
fn rbtree_swap_across_two_trees() {
    let mut vec: Vec<RBTreeNode> = Vec::new();
    vec.resize_with(8, RBTreeNode::new);
    let mut r1 = usize::nullptr();
    let mut r2 = usize::nullptr();
    let e = usize::nullptr();
    RBTreeMut::<VecRBTreeNodes>::new(&mut vec).insert_left(&mut r1, e, 0);
    RBTreeMut::<VecRBTreeNodes>::new(&mut vec).insert_after(&mut r1, 0, 1);
    RBTreeMut::<VecRBTreeNodes>::new(&mut vec).insert_after(&mut r1, 1, 2);
    RBTreeMut::<VecRBTreeNodes>::new(&mut vec).insert_left(&mut r2, e, 4);
    RBTreeMut::<VecRBTreeNodes>::new(&mut vec).insert_after(&mut r2, 4, 5);
    RBTreeMut::<VecRBTreeNodes>::new(&mut vec).insert_after(&mut r2, 5, 6);
    assert_eq!(in_order(&vec, r1), vec![0, 1, 2]);
    assert_eq!(in_order(&vec, r2), vec![4, 5, 6]);
    RBTreeMut::<VecRBTreeNodes>::new(&mut vec).swap(0, 6);
    assert_eq!(in_order(&vec, r1), vec![6, 1, 2]);
    assert_eq!(in_order(&vec, r2), vec![4, 5, 0]);
    assert_eq!(r1, 1);
    RBTreeMut::<VecRBTreeNodes>::new(&mut vec).swap(7, 1);
    r1 = 7;
    assert_eq!(in_order(&vec, r1), vec![6, 7, 2]);
    assert_eq!(vec[1], RBTreeNode::new());
}

fn link(n: &mut RBTreeNode, l: usize, r: usize, p: usize, c: RBTreeColor) {
    n.left = l;
    n.right = r;
    n.parent_col = RBTreePtrColorUsize::combine(p, c);
}

fn check(n: &RBTreeNode, l: usize, r: usize, p: usize, c: RBTreeColor) {
    assert_eq!(n.left, l);
    assert_eq!(n.right, r);
    assert_eq!(n.get_parent(), p);
    assert_eq!(n.get_color(), c);
}

#[test]
fn rbtree_delete_fixup_rotates_the_brother_up() {
    let nl = usize::nullptr();
    let mut vec: Vec<RBTreeNode> = Vec::new();
    vec.resize_with(6, RBTreeNode::new);
    link(&mut vec[4], 1, 5, 4, color::BLACK);
    link(&mut vec[1], 0, 2, 4, color::RED);
    link(&mut vec[0], nl, nl, 1, color::BLACK);
    link(&mut vec[2], nl, 3, 1, color::BLACK);
    link(&mut vec[3], nl, nl, 2, color::RED);
    link(&mut vec[5], nl, nl, 4, color::BLACK);
    let mut root = 4;
    RBTreeMut::<VecRBTreeNodes>::new(&mut vec).delete_fixup(&mut root, 0);
    assert_eq!(root, 4);
    check(&vec[4], 2, 5, 4, color::BLACK);
    check(&vec[2], 1, 3, 4, color::RED);
    check(&vec[1], 0, nl, 2, color::BLACK);
    check(&vec[0], nl, nl, 1, color::BLACK);
    check(&vec[3], nl, nl, 2, color::BLACK);
    check(&vec[5], nl, nl, 4, color::BLACK);
}

#[test]
fn rbtree_leftmost_and_rightmost_follow_child_links_only() {
    let nl = usize::nullptr();
    let mut vec: Vec<RBTreeNode> = Vec::new();
    vec.resize_with(5, RBTreeNode::new);
    link(&mut vec[0], 1, 3, 0, color::BLACK);
    link(&mut vec[1], 2, nl, 0, color::BLACK);
    link(&mut vec[2], nl, nl, 3, color::BLACK);
    link(&mut vec[3], nl, 4, 2, color::BLACK);
    link(&mut vec[4], nl, nl, 3, color::BLACK);
    let tree = RBTree::<VecRBTreeNodes>::new(&vec);
    assert_eq!(tree.leftmost(0), 2);
    assert_eq!(tree.rightmost(0), 4);
    assert_eq!(tree.leftmost(3), 3);
    assert_eq!(tree.rightmost(1), 1);
}

#[test]
fn rbtree_swap_either_order_has_one_effect() {
    let (vec0, _root) = build(9);
    let mut v1 = vec0.clone();
    RBTreeMut::<VecRBTreeNodes>::new(&mut v1).swap(3, 7);
    let mut v2 = vec0.clone();
    RBTreeMut::<VecRBTreeNodes>::new(&mut v2).swap(7, 3);
    assert_eq!(v1, v2);
    RBTreeMut::<VecRBTreeNodes>::new(&mut v1).swap(7, 3);
    assert_eq!(v1, vec0);
}

#[test]
fn rbtree_node_getters_read_the_container() {
    let (mut vec, root) = build(5);
    let n = RBTree::<VecRBTreeNodes>::new(&vec).node(root);
    assert_eq!(n, vec[root]);
    let m = RBTreeMut::<VecRBTreeNodes>::new(&mut vec).node(0);
    assert_eq!(m.get_parent(), vec[0].get_parent());
}

#[test]
fn rbtree_null_combines_to_the_null_word() {
    let n = usize::nullptr();
    assert_eq!(RBTreePtrColorUsize::combine(n, color::RED), RBTreePtrColorUsize::combine(n, color::BLACK));
    assert_eq!(RBTreePtrColorUsize::combine(n, color::BLACK), RBTreePtrColorUsize::nullptr_color());
}
