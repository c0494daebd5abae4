use embed_struct::ptr::NullablePtr;
use embed_struct::rbtree::color;
use embed_struct::rbtree::{
    RBTree, RBTreeColor, RBTreeMut, RBTreeNode, RBTreePtrColor, RBTreePtrColorUsize, VecKeyedRBTreeNodes,
    VecRBTreeNodes,
};

fn rbtree_node_make(n: &mut RBTreeNode, l: usize, r: usize, p: usize, c: RBTreeColor) {
    n.left = l;
    n.right = r;
    n.parent_col = RBTreePtrColorUsize::combine(p, c);
}

fn rbtree_node_assert(n: &RBTreeNode, l: usize, r: usize, p: usize, c: RBTreeColor) {
    assert_eq!(n.left, l);
    assert_eq!(n.right, r);
    assert_eq!(n.parent_col, RBTreePtrColorUsize::combine(p, c),);
}

#[test]
fn test_rotate() {
    let mut vec: Vec<RBTreeNode> = Vec::new();
    vec.resize_with(8, RBTreeNode::new);

    #[allow(non_snake_case)]
    let N = usize::nullptr(); // For convenience.

    // +---------------+
    // |      4b       |
    // |     /   \     |
    // |   2r     6r   |
    // |  /  \   /  \  |
    // | 1b  3b 5b  7b |
    // +---------------+
    rbtree_node_make(&mut vec[1], N, N, 2, color::BLACK);
    rbtree_node_make(&mut vec[3], N, N, 2, color::BLACK);
    rbtree_node_make(&mut vec[2], 1, 3, 4, color::RED);
    rbtree_node_make(&mut vec[5], N, N, 6, color::BLACK);
    rbtree_node_make(&mut vec[7], N, N, 6, color::BLACK);
    rbtree_node_make(&mut vec[6], 5, 7, 4, color::RED);
    rbtree_node_make(&mut vec[4], 2, 6, 4, color::BLACK);
    let mut root = 4;

    // +---------------+      +---------------+
    // |      4b       |      |       4b      |
    // |     /   \     |      |      /  \     |
    // |   2r     6r   | ---> |     3b*  6r   |
    // |  /  \   /  \  |      |    /    /  \  |
    // | 1b 3b* 5b  7b |      |   2r   5b  7b |
    // +---------------+      |  /            |
    //                        | 1b            |
    //                        +---------------+
    RBTreeMut::<VecRBTreeNodes>::new(&mut vec).rotate(&mut root, 3);
    assert_eq!(root, 4);
    rbtree_node_assert(&vec[4], 3, 6, 4, color::BLACK);
    rbtree_node_assert(&vec[3], 2, N, 4, color::BLACK);
    rbtree_node_assert(&vec[2], 1, N, 3, color::RED);
    rbtree_node_assert(&vec[1], N, N, 2, color::BLACK);
    rbtree_node_assert(&vec[6], 5, 7, 4, color::RED);
    rbtree_node_assert(&vec[5], N, N, 6, color::BLACK);
    rbtree_node_assert(&vec[7], N, N, 6, color::BLACK);

    // +---------------+      +--------------+
    // |       4b      |      |         6r*  |
    // |      /  \     |      |        /  \  |
    // |     3b   6r*  | ---> |       4b  7b |
    // |    /    /  \  |      |      /  \    |
    // |   2r   5b  7b |      |     3b  5b   |
    // |  /            |      |    /         |
    // | 1b            |      |   2r         |
    // +---------------+      |  /           |
    //                        | 1b           |
    //                        +--------------+
    RBTreeMut::<VecRBTreeNodes>::new(&mut vec).rotate(&mut root, 6);
    assert_eq!(root, 6);
    rbtree_node_assert(&vec[6], 4, 7, 6, color::RED);
    rbtree_node_assert(&vec[4], 3, 5, 6, color::BLACK);
    rbtree_node_assert(&vec[3], 2, N, 4, color::BLACK);
    rbtree_node_assert(&vec[2], 1, N, 3, color::RED);
    rbtree_node_assert(&vec[1], N, N, 2, color::BLACK);
    rbtree_node_assert(&vec[5], N, N, 4, color::BLACK);
    rbtree_node_assert(&vec[7], N, N, 6, color::BLACK);

    // +--------------+      +-------------+
    // |         6r   |      |       6r    |
    // |        /  \  |      |      /  \   |
    // |       4b  7b |      |     3b*  7b |
    // |      /  \    |      |    /  \     |
    // |     3b*  5b  | ===> |   2r   4b   |
    // |    /         |      |  /      \   |
    // |   2r         |      | 1b       5b |
    // |  /           |      +-------------+
    // | 1b           |
    // +--------------+
    RBTreeMut::<VecRBTreeNodes>::new(&mut vec).rotate(&mut root, 3);
    assert_eq!(root, 6);
    rbtree_node_assert(&vec[6], 3, 7, 6, color::RED);
    rbtree_node_assert(&vec[3], 2, 4, 6, color::BLACK);
    rbtree_node_assert(&vec[2], 1, N, 3, color::RED);
    rbtree_node_assert(&vec[1], N, N, 2, color::BLACK);
    rbtree_node_assert(&vec[4], N, 5, 3, color::BLACK);
    rbtree_node_assert(&vec[5], N, N, 4, color::BLACK);
    rbtree_node_assert(&vec[7], N, N, 6, color::BLACK);

    // +-------------+       +-------------+
    // |       6r    |       |     3b*     |
    // |      /  \   |       |    /  \     |
    // |     3b*  7b |       |   2r   6r   |
    // |    /  \     | --->  |  /    /  \  |
    // |   2r   4b   |       | 1b   4b  7b |
    // |  /      \   |       |       \     |
    // | 1b       5b |       |        5b   |
    // +-------------+       +-------------+
    RBTreeMut::<VecRBTreeNodes>::new(&mut vec).rotate(&mut root, 3);
    assert_eq!(root, 3);
    rbtree_node_assert(&vec[3], 2, 6, 3, color::BLACK);
    rbtree_node_assert(&vec[2], 1, N, 3, color::RED);
    rbtree_node_assert(&vec[1], N, N, 2, color::BLACK);
    rbtree_node_assert(&vec[6], 4, 7, 3, color::RED);
    rbtree_node_assert(&vec[4], N, 5, 6, color::BLACK);
    rbtree_node_assert(&vec[5], N, N, 4, color::BLACK);
    rbtree_node_assert(&vec[7], N, N, 6, color::BLACK);
}

#[test]
fn test_insert() {
    let mut vec: Vec<RBTreeNode> = Vec::new();
    vec.resize_with(11, RBTreeNode::new);
    let mut root = usize::nullptr();

    #[allow(non_snake_case)]
    let N = usize::nullptr(); // For convenience.

    // 3b*
    let empty = root;
    RBTreeMut::<VecRBTreeNodes>::new(&mut vec).insert_left(&mut root, empty, 3);
    rbtree_node_assert(&vec[3], N, N, 3, color::BLACK);

    // +--------+
    // | 3b     |
    // |   \    |
    // |    5r* |
    // +--------+
    RBTreeMut::<VecRBTreeNodes>::new(&mut vec).insert_right(&mut root, 3, 5);
    rbtree_node_assert(&vec[3], N, 5, 3, color::BLACK);
    rbtree_node_assert(&vec[5], N, N, 3, color::RED);

    // +-------+      +----------+      +--------+
    // | 3b    |      | 3b       |      |   4b   |
    // |   \   |      |   \      |      |  /  \  |
    // |    5r | ---> |    4r    | ---> | 3r  5r |
    // |   /   |      |     \    |      +--------+
    // | 4r*   |      |      5r* |
    // +-------+      +----------+
    RBTreeMut::<VecRBTreeNodes>::new(&mut vec).insert_left(&mut root, 5, 4);
    assert_eq!(root, 4);
    rbtree_node_assert(&vec[4], 3, 5, 4, color::BLACK);
    rbtree_node_assert(&vec[3], N, N, 4, color::RED);
    rbtree_node_assert(&vec[5], N, N, 4, color::RED);

    // +-----------+      +----------+      +----------+
    // |   4b      |      |   4r*    |      |   4b     |
    // |  /  \     |      |  /  \    |      |  /  \    |
    // | 3r  5r    | ---> | 3b  5b   | ---> | 3b  5b   |
    // |       \   |      |       \  |      |       \  |
    // |       8r* |      |       8r |      |       8r |
    // +-----------+      +----------+      +----------+
    RBTreeMut::<VecRBTreeNodes>::new(&mut vec).insert_right(&mut root, 5, 8);
    assert_eq!(root, 4);
    rbtree_node_assert(&vec[4], 3, 5, 4, color::BLACK);
    rbtree_node_assert(&vec[3], N, N, 4, color::BLACK);
    rbtree_node_assert(&vec[5], N, 8, 4, color::BLACK);
    rbtree_node_assert(&vec[8], N, N, 5, color::RED);

    // +------------+
    // |     4b     |
    // |    /  \    |
    // |   3b  5b   |
    // |  /      \  |
    // | 0r*     8r |
    // +------------+
    RBTreeMut::<VecRBTreeNodes>::new(&mut vec).insert_left(&mut root, 3, 0);
    assert_eq!(root, 4);
    rbtree_node_assert(&vec[4], 3, 5, 4, color::BLACK);
    rbtree_node_assert(&vec[3], 0, N, 4, color::BLACK);
    rbtree_node_assert(&vec[0], N, N, 3, color::RED);
    rbtree_node_assert(&vec[5], N, 8, 4, color::BLACK);
    rbtree_node_assert(&vec[8], N, N, 5, color::RED);

    // +------------+      +--------------+      +------------+
    // |     4b     |      |       4b     |      |     4b     |
    // |    /  \    |      |      /  \    |      |    /  \    |
    // |   3b  5b   |      |     3b  5b   |      |   2b  5b   |
    // |  /      \  | ---> |    /      \  | ---> |  /  \   \  |
    // | 0r      8r |      |   2r      8r |      | 0r  3r  8r |
    // |  \         |      |  /           |      +------------+
    // |   2r*      |      | 0r*          |
    // +------------+      +--------------+
    RBTreeMut::<VecRBTreeNodes>::new(&mut vec).insert_right(&mut root, 0, 2);
    assert_eq!(root, 4);
    rbtree_node_assert(&vec[4], 2, 5, 4, color::BLACK);
    rbtree_node_assert(&vec[2], 0, 3, 4, color::BLACK);
    rbtree_node_assert(&vec[0], N, N, 2, color::RED);
    rbtree_node_assert(&vec[3], N, N, 2, color::RED);
    rbtree_node_assert(&vec[5], N, 8, 4, color::BLACK);
    rbtree_node_assert(&vec[8], N, N, 5, color::RED);

    // +------------+      +------------+
    // |     4b     |      |     4b     |
    // |    /  \    |      |    /  \    |
    // |   2b  5b   |      |   2r  5b   |
    // |  /  \   \  | ---> |  /  \   \  |
    // | 0r  3r  8r |      | 0b  3b  8r |
    // |  \         |      |  \         |
    // |   1r*      |      |   1r       |
    // +------------+      +------------+
    RBTreeMut::<VecRBTreeNodes>::new(&mut vec).insert_right(&mut root, 0, 1);
    assert_eq!(root, 4);
    rbtree_node_assert(&vec[4], 2, 5, 4, color::BLACK);
    rbtree_node_assert(&vec[2], 0, 3, 4, color::RED);
    rbtree_node_assert(&vec[0], N, 1, 2, color::BLACK);
    rbtree_node_assert(&vec[1], N, N, 0, color::RED);
    rbtree_node_assert(&vec[3], N, N, 2, color::BLACK);
    rbtree_node_assert(&vec[5], N, 8, 4, color::BLACK);
    rbtree_node_assert(&vec[8], N, N, 5, color::RED);

    // +------------+      +---------------+      +---------------+
    // |     4b     |      |     4b        |      |       4b      |
    // |    /  \    |      |    /  \       |      |    /     \    |
    // |   2r  5b   |      |   2r  5b      |      |   2r     6b   |
    // |  /  \   \  | ---> |  /  \   \     | ---> |  /  \   /  \  |
    // | 0b  3b  8r |      | 0b  3b  6r    |      | 0b  3b 5r  8r |
    // |  \     /   |      |  \        \   |      |  \            |
    // |   1r  6r*  |      |   1r      8r* |      |   1r          |
    // +------------+      +---------------+      +---------------+
    RBTreeMut::<VecRBTreeNodes>::new(&mut vec).insert_left(&mut root, 8, 6);
    assert_eq!(root, 4);
    rbtree_node_assert(&vec[4], 2, 6, 4, color::BLACK);
    rbtree_node_assert(&vec[2], 0, 3, 4, color::RED);
    rbtree_node_assert(&vec[0], N, 1, 2, color::BLACK);
    rbtree_node_assert(&vec[1], N, N, 0, color::RED);
    rbtree_node_assert(&vec[3], N, N, 2, color::BLACK);
    rbtree_node_assert(&vec[6], 5, 8, 4, color::BLACK);
    rbtree_node_assert(&vec[5], N, N, 6, color::RED);
    rbtree_node_assert(&vec[8], N, N, 6, color::RED);

    // +---------------+      +---------------+
    // |       4b      |      |       4b      |
    // |    /     \    |      |    /     \    |
    // |   2r     6b   |      |   2r     6r   |
    // |  /  \   /  \  | ---> |  /  \   /  \  |
    // | 0b  3b 5r  8r |      | 0b  3b 5b  8b |
    // |  \         /  |      |  \         /  |
    // |   1r     7r*  |      |   1r     7r   |
    // +---------------+      +---------------+
    RBTreeMut::<VecRBTreeNodes>::new(&mut vec).insert_left(&mut root, 8, 7);
    assert_eq!(root, 4);
    rbtree_node_assert(&vec[4], 2, 6, 4, color::BLACK);
    rbtree_node_assert(&vec[2], 0, 3, 4, color::RED);
    rbtree_node_assert(&vec[0], N, 1, 2, color::BLACK);
    rbtree_node_assert(&vec[1], N, N, 0, color::RED);
    rbtree_node_assert(&vec[3], N, N, 2, color::BLACK);
    rbtree_node_assert(&vec[6], 5, 8, 4, color::RED);
    rbtree_node_assert(&vec[5], N, N, 6, color::BLACK);
    rbtree_node_assert(&vec[8], 7, N, 6, color::BLACK);
    rbtree_node_assert(&vec[7], N, N, 8, color::RED);

    // +-------------------+
    // |       4b          |
    // |    /     \        |
    // |   2r     6r       |
    // |  /  \   /  \      |
    // | 0b  3b 5b  8b     |
    // |  \         / \    |
    // |   1r     7r  10r* |
    // +-------------------+
    RBTreeMut::<VecRBTreeNodes>::new(&mut vec).insert_right(&mut root, 8, 10);
    assert_eq!(root, 4);
    rbtree_node_assert(&vec[4], 2, 6, 4, color::BLACK);
    rbtree_node_assert(&vec[2], 0, 3, 4, color::RED);
    rbtree_node_assert(&vec[0], N, 1, 2, color::BLACK);
    rbtree_node_assert(&vec[1], N, N, 0, color::RED);
    rbtree_node_assert(&vec[3], N, N, 2, color::BLACK);
    rbtree_node_assert(&vec[6], 5, 8, 4, color::RED);
    rbtree_node_assert(&vec[5], N, N, 6, color::BLACK);
    rbtree_node_assert(&vec[8], 7, 10, 6, color::BLACK);
    rbtree_node_assert(&vec[7], N, N, 8, color::RED);
    rbtree_node_assert(&vec[10], N, N, 8, color::RED);

    // +------------------+      +------------------+      +------------------+      +------------------+
    // |       4b         |      |       4b         |      |       4r*        |      |       4b         |
    // |    /     \       |      |    /     \       |      |    /     \       |      |    /     \       |
    // |   2r     6r      |      |   2r     6r      |      |   2b     6b      |      |   2b     6b      |
    // |  /  \   /  \     |      |  /  \   /  \     |      |  /  \   /  \     |      |  /  \   /  \     |
    // | 0b  3b 5b  8b    | ---> | 0b  3b 5b  8r*   | ---> | 0b  3b 5b  8r    | ---> | 0b  3b 5b  8r    |
    // |  \         / \   |      |  \         / \   |      |  \         / \   |      |  \         / \   |
    // |   1r     7r  10r |      |   1r     7b  10b |      |   1r     7b  10b |      |   1r     7b  10b |
    // |              /   |      |              /   |      |              /   |      |              /   |
    // |            9r*   |      |            9r    |      |            9r    |      |            9r    |
    // +------------------+      +------------------+      +------------------+      +------------------+
    RBTreeMut::<VecRBTreeNodes>::new(&mut vec).insert_left(&mut root, 10, 9);
    assert_eq!(root, 4);
    rbtree_node_assert(&vec[4], 2, 6, 4, color::BLACK);
    rbtree_node_assert(&vec[2], 0, 3, 4, color::BLACK);
    rbtree_node_assert(&vec[0], N, 1, 2, color::BLACK);
    rbtree_node_assert(&vec[1], N, N, 0, color::RED);
    rbtree_node_assert(&vec[3], N, N, 2, color::BLACK);
    rbtree_node_assert(&vec[6], 5, 8, 4, color::BLACK);
    rbtree_node_assert(&vec[5], N, N, 6, color::BLACK);
    rbtree_node_assert(&vec[8], 7, 10, 6, color::RED);
    rbtree_node_assert(&vec[7], N, N, 8, color::BLACK);
    rbtree_node_assert(&vec[10], 9, N, 8, color::BLACK);
    rbtree_node_assert(&vec[9], N, N, 10, color::RED);
}

#[test]
fn test_tree_traversal() {
    let mut vec: Vec<RBTreeNode> = Vec::new();
    vec.resize_with(11, RBTreeNode::new);

    #[allow(non_snake_case)]
    let N = usize::nullptr(); // For convenience.

    // +------------------+
    // |       4b         |
    // |    /     \       |
    // |   2b     6b      |
    // |  /  \   /  \     |
    // | 0b  3b 5b  8r    |
    // |  \         / \   |
    // |   1r     7b  10b |
    // |              /   |
    // |            9r    |
    // +------------------+
    rbtree_node_make(&mut vec[4], 2, 6, 4, color::BLACK);
    rbtree_node_make(&mut vec[2], 0, 3, 4, color::BLACK);
    rbtree_node_make(&mut vec[0], N, 1, 2, color::BLACK);
    rbtree_node_make(&mut vec[1], N, N, 0, color::RED);
    rbtree_node_make(&mut vec[3], N, N, 2, color::BLACK);
    rbtree_node_make(&mut vec[6], 5, 8, 4, color::BLACK);
    rbtree_node_make(&mut vec[5], N, N, 6, color::BLACK);
    rbtree_node_make(&mut vec[8], 7, 10, 6, color::RED);
    rbtree_node_make(&mut vec[7], N, N, 8, color::BLACK);
    rbtree_node_make(&mut vec[10], 9, N, 8, color::BLACK);
    rbtree_node_make(&mut vec[9], N, N, 10, color::RED);

    assert_eq!(RBTree::<VecRBTreeNodes>::new(&vec).leftmost(0), 0);
    assert_eq!(RBTree::<VecRBTreeNodes>::new(&vec).leftmost(1), 1);
    assert_eq!(RBTree::<VecRBTreeNodes>::new(&vec).leftmost(2), 0);
    assert_eq!(RBTree::<VecRBTreeNodes>::new(&vec).leftmost(3), 3);
    assert_eq!(RBTree::<VecRBTreeNodes>::new(&vec).leftmost(4), 0);
    assert_eq!(RBTree::<VecRBTreeNodes>::new(&vec).leftmost(5), 5);
    assert_eq!(RBTree::<VecRBTreeNodes>::new(&vec).leftmost(6), 5);
    assert_eq!(RBTree::<VecRBTreeNodes>::new(&vec).leftmost(7), 7);
    assert_eq!(RBTree::<VecRBTreeNodes>::new(&vec).leftmost(8), 7);
    assert_eq!(RBTree::<VecRBTreeNodes>::new(&vec).leftmost(9), 9);
    assert_eq!(RBTree::<VecRBTreeNodes>::new(&vec).leftmost(10), 9);

    assert_eq!(RBTree::<VecRBTreeNodes>::new(&vec).rightmost(0), 1);
    assert_eq!(RBTree::<VecRBTreeNodes>::new(&vec).rightmost(1), 1);
    assert_eq!(RBTree::<VecRBTreeNodes>::new(&vec).rightmost(2), 3);
    assert_eq!(RBTree::<VecRBTreeNodes>::new(&vec).rightmost(3), 3);
    assert_eq!(RBTree::<VecRBTreeNodes>::new(&vec).rightmost(4), 10);
    assert_eq!(RBTree::<VecRBTreeNodes>::new(&vec).rightmost(5), 5);
    assert_eq!(RBTree::<VecRBTreeNodes>::new(&vec).rightmost(6), 10);
    assert_eq!(RBTree::<VecRBTreeNodes>::new(&vec).rightmost(7), 7);
    assert_eq!(RBTree::<VecRBTreeNodes>::new(&vec).rightmost(8), 10);
    assert_eq!(RBTree::<VecRBTreeNodes>::new(&vec).rightmost(9), 9);
    assert_eq!(RBTree::<VecRBTreeNodes>::new(&vec).rightmost(10), 10);

    assert_eq!(RBTree::<VecRBTreeNodes>::new(&vec).successor(0), 1);
    assert_eq!(RBTree::<VecRBTreeNodes>::new(&vec).successor(1), 2);
    assert_eq!(RBTree::<VecRBTreeNodes>::new(&vec).successor(2), 3);
    assert_eq!(RBTree::<VecRBTreeNodes>::new(&vec).successor(3), 4);
    assert_eq!(RBTree::<VecRBTreeNodes>::new(&vec).successor(4), 5);
    assert_eq!(RBTree::<VecRBTreeNodes>::new(&vec).successor(5), 6);
    assert_eq!(RBTree::<VecRBTreeNodes>::new(&vec).successor(6), 7);
    assert_eq!(RBTree::<VecRBTreeNodes>::new(&vec).successor(7), 8);
    assert_eq!(RBTree::<VecRBTreeNodes>::new(&vec).successor(8), 9);
    assert_eq!(RBTree::<VecRBTreeNodes>::new(&vec).successor(9), 10);
    assert_eq!(RBTree::<VecRBTreeNodes>::new(&vec).successor(10), N);

    assert_eq!(RBTree::<VecRBTreeNodes>::new(&vec).predecessor(10), 9);
    assert_eq!(RBTree::<VecRBTreeNodes>::new(&vec).predecessor(9), 8);
    assert_eq!(RBTree::<VecRBTreeNodes>::new(&vec).predecessor(8), 7);
    assert_eq!(RBTree::<VecRBTreeNodes>::new(&vec).predecessor(7), 6);
    assert_eq!(RBTree::<VecRBTreeNodes>::new(&vec).predecessor(6), 5);
    assert_eq!(RBTree::<VecRBTreeNodes>::new(&vec).predecessor(5), 4);
    assert_eq!(RBTree::<VecRBTreeNodes>::new(&vec).predecessor(4), 3);
    assert_eq!(RBTree::<VecRBTreeNodes>::new(&vec).predecessor(3), 2);
    assert_eq!(RBTree::<VecRBTreeNodes>::new(&vec).predecessor(2), 1);
    assert_eq!(RBTree::<VecRBTreeNodes>::new(&vec).predecessor(1), 0);
    assert_eq!(RBTree::<VecRBTreeNodes>::new(&vec).predecessor(0), N);
}

#[test]
fn test_swap() {
    let mut vec: Vec<RBTreeNode> = Vec::new();
    vec.resize_with(10, RBTreeNode::new);

    #[allow(non_snake_case)]
    let N = usize::nullptr(); // For convenience.

    // +---------------+
    // |       4b      |
    // |    /     \    |
    // |   2b     6b   |
    // |  /  \   /  \  |
    // | 0b  3b 5b  8r |
    // |  \         /  |
    // |   1r     7b   |
    // +---------------+
    rbtree_node_make(&mut vec[4], 2, 6, 4, color::BLACK);
    rbtree_node_make(&mut vec[2], 0, 3, 4, color::BLACK);
    rbtree_node_make(&mut vec[0], N, 1, 2, color::BLACK);
    rbtree_node_make(&mut vec[1], N, N, 0, color::RED);
    rbtree_node_make(&mut vec[3], N, N, 2, color::BLACK);
    rbtree_node_make(&mut vec[6], 5, 8, 4, color::BLACK);
    rbtree_node_make(&mut vec[5], N, N, 6, color::BLACK);
    rbtree_node_make(&mut vec[8], 7, N, 6, color::RED);
    rbtree_node_make(&mut vec[7], N, N, 8, color::BLACK);

    // +---------------+
    // |       4b      |
    // |    /     \    |
    // |   2b     6b   |
    // |  /  \   /  \  |
    // | 1b* 3b 5b  8r |
    // |  \         /  |
    // |   0r*    7b   |
    // +---------------+
    RBTreeMut::<VecRBTreeNodes>::new(&mut vec).swap(0, 1);
    rbtree_node_assert(&vec[4], 2, 6, 4, color::BLACK);
    rbtree_node_assert(&vec[2], 1, 3, 4, color::BLACK);
    rbtree_node_assert(&vec[1], N, 0, 2, color::BLACK);
    rbtree_node_assert(&vec[0], N, N, 1, color::RED);
    rbtree_node_assert(&vec[3], N, N, 2, color::BLACK);
    rbtree_node_assert(&vec[6], 5, 8, 4, color::BLACK);
    rbtree_node_assert(&vec[5], N, N, 6, color::BLACK);
    rbtree_node_assert(&vec[8], 7, N, 6, color::RED);
    rbtree_node_assert(&vec[7], N, N, 8, color::BLACK);

    // +---------------+
    // |       4b      |
    // |    /     \    |
    // |   3b*    6b   |
    // |  /  \   /  \  |
    // | 1b  2b*5b  8r |
    // |  \         /  |
    // |   0r     7b   |
    // +---------------+
    RBTreeMut::<VecRBTreeNodes>::new(&mut vec).swap(2, 3);
    rbtree_node_assert(&vec[4], 3, 6, 4, color::BLACK);
    rbtree_node_assert(&vec[3], 1, 2, 4, color::BLACK);
    rbtree_node_assert(&vec[1], N, 0, 3, color::BLACK);
    rbtree_node_assert(&vec[0], N, N, 1, color::RED);
    rbtree_node_assert(&vec[2], N, N, 3, color::BLACK);
    rbtree_node_assert(&vec[6], 5, 8, 4, color::BLACK);
    rbtree_node_assert(&vec[5], N, N, 6, color::BLACK);
    rbtree_node_assert(&vec[8], 7, N, 6, color::RED);
    rbtree_node_assert(&vec[7], N, N, 8, color::BLACK);

    // +---------------+
    // |       4b      |
    // |    /     \    |
    // |   3b     6b   |
    // |  /  \   /  \  |
    // | 0b* 2b 5b  8r |
    // |  \         /  |
    // |   1r*    7b   |
    // +---------------+
    RBTreeMut::<VecRBTreeNodes>::new(&mut vec).swap(0, 1);
    rbtree_node_assert(&vec[4], 3, 6, 4, color::BLACK);
    rbtree_node_assert(&vec[3], 0, 2, 4, color::BLACK);
    rbtree_node_assert(&vec[0], N, 1, 3, color::BLACK);
    rbtree_node_assert(&vec[1], N, N, 0, color::RED);
    rbtree_node_assert(&vec[2], N, N, 3, color::BLACK);
    rbtree_node_assert(&vec[6], 5, 8, 4, color::BLACK);
    rbtree_node_assert(&vec[5], N, N, 6, color::BLACK);
    rbtree_node_assert(&vec[8], 7, N, 6, color::RED);
    rbtree_node_assert(&vec[7], N, N, 8, color::BLACK);

    // +---------------+
    // |       4b      |
    // |    /     \    |
    // |   2b*    6b   |
    // |  /  \   /  \  |
    // | 0b  3b*5b  8r |
    // |  \         /  |
    // |   1r     7b   |
    // +---------------+
    RBTreeMut::<VecRBTreeNodes>::new(&mut vec).swap(2, 3);
    rbtree_node_assert(&vec[4], 2, 6, 4, color::BLACK);
    rbtree_node_assert(&vec[2], 0, 3, 4, color::BLACK);
    rbtree_node_assert(&vec[0], N, 1, 2, color::BLACK);
    rbtree_node_assert(&vec[1], N, N, 0, color::RED);
    rbtree_node_assert(&vec[3], N, N, 2, color::BLACK);
    rbtree_node_assert(&vec[6], 5, 8, 4, color::BLACK);
    rbtree_node_assert(&vec[5], N, N, 6, color::BLACK);
    rbtree_node_assert(&vec[8], 7, N, 6, color::RED);
    rbtree_node_assert(&vec[7], N, N, 8, color::BLACK);

    // +----------------+
    // |       4b       |
    // |    /     \     |
    // |   2b     6b    |
    // |  /  \   /  \   |
    // | 0b  3b 5b  7r* |
    // |  \         /   |
    // |   1r     8b*   |
    // +----------------+
    RBTreeMut::<VecRBTreeNodes>::new(&mut vec).swap(7, 8);
    rbtree_node_assert(&vec[4], 2, 6, 4, color::BLACK);
    rbtree_node_assert(&vec[2], 0, 3, 4, color::BLACK);
    rbtree_node_assert(&vec[0], N, 1, 2, color::BLACK);
    rbtree_node_assert(&vec[1], N, N, 0, color::RED);
    rbtree_node_assert(&vec[3], N, N, 2, color::BLACK);
    rbtree_node_assert(&vec[6], 5, 7, 4, color::BLACK);
    rbtree_node_assert(&vec[5], N, N, 6, color::BLACK);
    rbtree_node_assert(&vec[7], 8, N, 6, color::RED);
    rbtree_node_assert(&vec[8], N, N, 7, color::BLACK);

    // +---------------+
    // |       4b      |
    // |    /     \    |
    // |   2b     5b*  |
    // |  /  \   /  \  |
    // | 0b  3b 6b* 7r |
    // |  \         /  |
    // |   1r     8b   |
    // +---------------+
    RBTreeMut::<VecRBTreeNodes>::new(&mut vec).swap(5, 6);
    rbtree_node_assert(&vec[4], 2, 5, 4, color::BLACK);
    rbtree_node_assert(&vec[2], 0, 3, 4, color::BLACK);
    rbtree_node_assert(&vec[0], N, 1, 2, color::BLACK);
    rbtree_node_assert(&vec[1], N, N, 0, color::RED);
    rbtree_node_assert(&vec[3], N, N, 2, color::BLACK);
    rbtree_node_assert(&vec[5], 6, 7, 4, color::BLACK);
    rbtree_node_assert(&vec[6], N, N, 5, color::BLACK);
    rbtree_node_assert(&vec[7], 8, N, 5, color::RED);
    rbtree_node_assert(&vec[8], N, N, 7, color::BLACK);

    // +----------------+
    // |       4b       |
    // |    /     \     |
    // |   2b     5b    |
    // |  /  \   /  \   |
    // | 0b  3b 6b  8r* |
    // |  \         /   |
    // |   1r     7b*   |
    // +----------------+
    RBTreeMut::<VecRBTreeNodes>::new(&mut vec).swap(7, 8);
    rbtree_node_assert(&vec[4], 2, 5, 4, color::BLACK);
    rbtree_node_assert(&vec[2], 0, 3, 4, color::BLACK);
    rbtree_node_assert(&vec[0], N, 1, 2, color::BLACK);
    rbtree_node_assert(&vec[1], N, N, 0, color::RED);
    rbtree_node_assert(&vec[3], N, N, 2, color::BLACK);
    rbtree_node_assert(&vec[5], 6, 8, 4, color::BLACK);
    rbtree_node_assert(&vec[6], N, N, 5, color::BLACK);
    rbtree_node_assert(&vec[8], 7, N, 5, color::RED);
    rbtree_node_assert(&vec[7], N, N, 8, color::BLACK);

    // +---------------+
    // |       4b      |
    // |    /     \    |
    // |   2b     6b*  |
    // |  /  \   /  \  |
    // | 0b  3b 5b* 8r |
    // |  \         /  |
    // |   1r     7b   |
    // +---------------+
    RBTreeMut::<VecRBTreeNodes>::new(&mut vec).swap(5, 6);
    rbtree_node_assert(&vec[4], 2, 6, 4, color::BLACK);
    rbtree_node_assert(&vec[2], 0, 3, 4, color::BLACK);
    rbtree_node_assert(&vec[0], N, 1, 2, color::BLACK);
    rbtree_node_assert(&vec[1], N, N, 0, color::RED);
    rbtree_node_assert(&vec[3], N, N, 2, color::BLACK);
    rbtree_node_assert(&vec[6], 5, 8, 4, color::BLACK);
    rbtree_node_assert(&vec[5], N, N, 6, color::BLACK);
    rbtree_node_assert(&vec[8], 7, N, 6, color::RED);
    rbtree_node_assert(&vec[7], N, N, 8, color::BLACK);

    // +---------------+
    // |       4b      |
    // |    /     \    |
    // |   1b*    6b   |
    // |  /  \   /  \  |
    // | 0b  3b 5b  8r |
    // |  \         /  |
    // |   2r*    7b   |
    // +---------------+
    RBTreeMut::<VecRBTreeNodes>::new(&mut vec).swap(1, 2);
    rbtree_node_assert(&vec[4], 1, 6, 4, color::BLACK);
    rbtree_node_assert(&vec[1], 0, 3, 4, color::BLACK);
    rbtree_node_assert(&vec[0], N, 2, 1, color::BLACK);
    rbtree_node_assert(&vec[2], N, N, 0, color::RED);
    rbtree_node_assert(&vec[3], N, N, 1, color::BLACK);
    rbtree_node_assert(&vec[6], 5, 8, 4, color::BLACK);
    rbtree_node_assert(&vec[5], N, N, 6, color::BLACK);
    rbtree_node_assert(&vec[8], 7, N, 6, color::RED);
    rbtree_node_assert(&vec[7], N, N, 8, color::BLACK);

    // +---------------+
    // |      5b*      |
    // |    /     \    |
    // |   1b     6b   |
    // |  /  \   /  \  |
    // | 0b  3b 4b* 8r |
    // |  \         /  |
    // |   2r     7b   |
    // +---------------+
    RBTreeMut::<VecRBTreeNodes>::new(&mut vec).swap(4, 5);
    rbtree_node_assert(&vec[5], 1, 6, 5, color::BLACK);
    rbtree_node_assert(&vec[1], 0, 3, 5, color::BLACK);
    rbtree_node_assert(&vec[0], N, 2, 1, color::BLACK);
    rbtree_node_assert(&vec[2], N, N, 0, color::RED);
    rbtree_node_assert(&vec[3], N, N, 1, color::BLACK);
    rbtree_node_assert(&vec[6], 4, 8, 5, color::BLACK);
    rbtree_node_assert(&vec[4], N, N, 6, color::BLACK);
    rbtree_node_assert(&vec[8], 7, N, 6, color::RED);
    rbtree_node_assert(&vec[7], N, N, 8, color::BLACK);

    // +---------------+
    // |      6b*      |
    // |    /     \    |
    // |   1b     5b*  |
    // |  /  \   /  \  |
    // | 0b  3b 4b  8r |
    // |  \         /  |
    // |   2r     7b   |
    // +---------------+
    RBTreeMut::<VecRBTreeNodes>::new(&mut vec).swap(5, 6);
    rbtree_node_assert(&vec[6], 1, 5, 6, color::BLACK);
    rbtree_node_assert(&vec[1], 0, 3, 6, color::BLACK);
    rbtree_node_assert(&vec[0], N, 2, 1, color::BLACK);
    rbtree_node_assert(&vec[2], N, N, 0, color::RED);
    rbtree_node_assert(&vec[3], N, N, 1, color::BLACK);
    rbtree_node_assert(&vec[5], 4, 8, 6, color::BLACK);
    rbtree_node_assert(&vec[4], N, N, 5, color::BLACK);
    rbtree_node_assert(&vec[8], 7, N, 5, color::RED);
    rbtree_node_assert(&vec[7], N, N, 8, color::BLACK);

    // +---------------+
    // |      1b*      |
    // |    /     \    |
    // |   6b*    5b   |
    // |  /  \   /  \  |
    // | 0b  3b 4b  8r |
    // |  \         /  |
    // |   2r     7b   |
    // +---------------+
    RBTreeMut::<VecRBTreeNodes>::new(&mut vec).swap(1, 6);
    rbtree_node_assert(&vec[1], 6, 5, 1, color::BLACK);
    rbtree_node_assert(&vec[6], 0, 3, 1, color::BLACK);
    rbtree_node_assert(&vec[0], N, 2, 6, color::BLACK);
    rbtree_node_assert(&vec[2], N, N, 0, color::RED);
    rbtree_node_assert(&vec[3], N, N, 6, color::BLACK);
    rbtree_node_assert(&vec[5], 4, 8, 1, color::BLACK);
    rbtree_node_assert(&vec[4], N, N, 5, color::BLACK);
    rbtree_node_assert(&vec[8], 7, N, 5, color::RED);
    rbtree_node_assert(&vec[7], N, N, 8, color::BLACK);

    // +---------------+
    // |      1b       |
    // |    /     \    |
    // |   9b*    5b   |
    // |  /  \   /  \  |
    // | 0b  3b 4b  8r |
    // |  \         /  |
    // |   2r     7b   |
    // +---------------+
    rbtree_node_assert(&vec[9], N, N, N, color::BLACK);
    RBTreeMut::<VecRBTreeNodes>::new(&mut vec).swap(9, 6);
    rbtree_node_assert(&vec[1], 9, 5, 1, color::BLACK);
    rbtree_node_assert(&vec[9], 0, 3, 1, color::BLACK);
    rbtree_node_assert(&vec[0], N, 2, 9, color::BLACK);
    rbtree_node_assert(&vec[2], N, N, 0, color::RED);
    rbtree_node_assert(&vec[3], N, N, 9, color::BLACK);
    rbtree_node_assert(&vec[5], 4, 8, 1, color::BLACK);
    rbtree_node_assert(&vec[4], N, N, 5, color::BLACK);
    rbtree_node_assert(&vec[8], 7, N, 5, color::RED);
    rbtree_node_assert(&vec[7], N, N, 8, color::BLACK);
    rbtree_node_assert(&vec[6], N, N, N, color::BLACK);

    // +---------------+
    // |      6b*      |
    // |    /     \    |
    // |   9b     5b   |
    // |  /  \   /  \  |
    // | 0b  3b 4b  8r |
    // |  \         /  |
    // |   2r     7b   |
    // +---------------+
    RBTreeMut::<VecRBTreeNodes>::new(&mut vec).swap(1, 6);
    rbtree_node_assert(&vec[6], 9, 5, 6, color::BLACK);
    rbtree_node_assert(&vec[9], 0, 3, 6, color::BLACK);
    rbtree_node_assert(&vec[0], N, 2, 9, color::BLACK);
    rbtree_node_assert(&vec[2], N, N, 0, color::RED);
    rbtree_node_assert(&vec[3], N, N, 9, color::BLACK);
    rbtree_node_assert(&vec[5], 4, 8, 6, color::BLACK);
    rbtree_node_assert(&vec[4], N, N, 5, color::BLACK);
    rbtree_node_assert(&vec[8], 7, N, 5, color::RED);
    rbtree_node_assert(&vec[7], N, N, 8, color::BLACK);
    rbtree_node_assert(&vec[1], N, N, N, color::BLACK);
}

#[test]
fn test_delete_1() {
    let mut vec: Vec<RBTreeNode> = Vec::new();
    vec.resize_with(11, RBTreeNode::new);

    #[allow(non_snake_case)]
    let N = usize::nullptr(); // For convenience.

    // +--------------------+
    // |      3b            |
    // |    /     \         |
    // |   1b      7b       |
    // |  /  \   /    \     |
    // | 0b  2b 5r     8r   |
    // |       /  \   /  \  |
    // |      4b  6b 9b 10b |
    // +--------------------+
    rbtree_node_make(&mut vec[3], 1, 7, 3, color::BLACK);
    rbtree_node_make(&mut vec[1], 0, 2, 3, color::BLACK);
    rbtree_node_make(&mut vec[0], N, N, 1, color::BLACK);
    rbtree_node_make(&mut vec[2], N, N, 1, color::BLACK);
    rbtree_node_make(&mut vec[7], 5, 8, 3, color::BLACK);
    rbtree_node_make(&mut vec[5], 4, 6, 7, color::RED);
    rbtree_node_make(&mut vec[4], N, N, 5, color::BLACK);
    rbtree_node_make(&mut vec[6], N, N, 5, color::BLACK);
    rbtree_node_make(&mut vec[8], 9, 10, 7, color::RED);
    rbtree_node_make(&mut vec[9], N, N, 8, color::BLACK);
    rbtree_node_make(&mut vec[10], N, N, 8, color::BLACK);
    let mut root = 3;

    // +--------------------+      +--------------------+      +--------------------+
    // |      3b            |      |      3b            |      |      3b            |
    // |    /     \         |      |    /     \         |      |    /     \         |
    // |   1b*     7b       |      |   2b     7b        |      |   2b*     7b       |
    // |  /  \   /    \     | ---> |  /  \   /    \     | ---> |  /      /    \     | --->
    // | 0b  2b 5r     8r   |      | 0b 1b* 5r     8r   |      | 0r     5r     8r   |
    // |       /  \   /  \  |      |       /  \   /  \  |      |       /  \   /  \  |
    // |      4b  6b 9b 10b |      |      4b  6b 9b 10b |      |      4b  6b 9b 10b |
    // +--------------------+      +--------------------+      +--------------------+
    // +-----------------+      +-----------------+
    // |        7b       |      |        7b       |
    // |      /     \    |      |      /     \    |
    // |     3b     8r   |      |     3b     8b   |
    // |    /  \   /  \  | ---> |    /  \   /  \  |
    // |   2b* 5r 9b 10b |      |   2b  5r 9b 10b |
    // |  /   /  \       |      |  /   /  \       |
    // | 0r  4b  6b      |      | 0r  4b  6b      |
    // +-----------------+      +-----------------+
    RBTreeMut::<VecRBTreeNodes>::new(&mut vec).delete(&mut root, 1);
    assert_eq!(root, 7);
    rbtree_node_assert(&mut vec[7], 3, 8, 7, color::BLACK);
    rbtree_node_assert(&mut vec[3], 2, 5, 7, color::BLACK);
    rbtree_node_assert(&mut vec[2], 0, N, 3, color::BLACK);
    rbtree_node_assert(&mut vec[0], N, N, 2, color::RED);
    rbtree_node_assert(&mut vec[5], 4, 6, 3, color::RED);
    rbtree_node_assert(&mut vec[4], N, N, 5, color::BLACK);
    rbtree_node_assert(&mut vec[6], N, N, 5, color::BLACK);
    rbtree_node_assert(&mut vec[8], 9, 10, 7, color::BLACK);
    rbtree_node_assert(&mut vec[9], N, N, 8, color::BLACK);
    rbtree_node_assert(&mut vec[10], N, N, 8, color::BLACK);
    rbtree_node_assert(&mut vec[1], N, N, N, color::BLACK);

    // +-----------------+      +-----------------+      +---------------+
    // |        7b       |      |        7b       |      |      7b       |
    // |      /     \    |      |      /     \    |      |    /     \    |
    // |     3b     8b   |      |     3b     8b   |      |   3b     8b   |
    // |    /  \   /  \  | ---> |    /  \   /  \  | ---> |  /  \   /  \  |
    // |   2b* 5r 9b 10b |      |   2r* 5r 9b 10b |      | 0b  5r 9b 10b |
    // |  /   /  \       |      |  /   /  \       |      |    /  \       |
    // | 0r  4b  6b      |      | 0b  4b  6b      |      |   4b  6b      |
    // +-----------------+      +-----------------+      +---------------+
    RBTreeMut::<VecRBTreeNodes>::new(&mut vec).delete(&mut root, 2);
    assert_eq!(root, 7);
    rbtree_node_assert(&mut vec[7], 3, 8, 7, color::BLACK);
    rbtree_node_assert(&mut vec[3], 0, 5, 7, color::BLACK);
    rbtree_node_assert(&mut vec[0], N, N, 3, color::BLACK);
    rbtree_node_assert(&mut vec[5], 4, 6, 3, color::RED);
    rbtree_node_assert(&mut vec[4], N, N, 5, color::BLACK);
    rbtree_node_assert(&mut vec[6], N, N, 5, color::BLACK);
    rbtree_node_assert(&mut vec[8], 9, 10, 7, color::BLACK);
    rbtree_node_assert(&mut vec[9], N, N, 8, color::BLACK);
    rbtree_node_assert(&mut vec[10], N, N, 8, color::BLACK);
    rbtree_node_assert(&mut vec[2], N, N, N, color::BLACK);

    // +---------------+      +-----------------+      +-----------------+      +---------------+
    // |      7b       |      |        7b       |      |        7b       |      |      7b       |
    // |    /     \    |      |      /     \    |      |      /     \    |      |    /     \    |
    // |   3b     8b   |      |     5r     8b   |      |     5b     8b   |      |   5b     8b   |
    // |  /  \   /  \  | ---> |    /  \   /  \  | ---> |    /  \   /  \  | ---> |  /  \   /  \  |
    // | 0b* 5r 9b 10b |      |   3b  6b 9b 10b |      |   3r  6b 9b 10b |      | 3b  6b 9b 10b |
    // |    /  \       |      |  /  \           |      |  / \            |      |  \            |
    // |   4b  6b      |      | 0b* 4b          |      | 0b* 4b          |      |   4r          |
    // +---------------+      +-----------------+      +-----------------+      +---------------+
    RBTreeMut::<VecRBTreeNodes>::new(&mut vec).delete(&mut root, 0);
    assert_eq!(root, 7);
    rbtree_node_assert(&mut vec[7], 5, 8, 7, color::BLACK);
    rbtree_node_assert(&mut vec[5], 3, 6, 7, color::BLACK);
    rbtree_node_assert(&mut vec[3], N, 4, 5, color::BLACK);
    rbtree_node_assert(&mut vec[4], N, N, 3, color::RED);
    rbtree_node_assert(&mut vec[6], N, N, 5, color::BLACK);
    rbtree_node_assert(&mut vec[8], 9, 10, 7, color::BLACK);
    rbtree_node_assert(&mut vec[9], N, N, 8, color::BLACK);
    rbtree_node_assert(&mut vec[10], N, N, 8, color::BLACK);
    rbtree_node_assert(&mut vec[0], N, N, N, color::BLACK);

    // +---------------+      +---------------+      +-----------------+
    // |      7b       |      |      7b       |      |        7b       |
    // |    /     \    |      |    /     \    |      |      /     \    |
    // |   5b*    8b   |      |   6b     8b   |      |     6b     8b   |
    // |  /  \   /  \  | ---> |  /  \   /  \  | ---> |    /  \   /  \  | --->
    // | 3b  6b 9b 10b |      | 3b 5b* 9b 10b |      |   4b 5b* 9b 10b |
    // |  \            |      |  \            |      |  /              |
    // |   4r          |      |   4r          |      | 3r              |
    // +---------------+      +---------------+      +-----------------+
    // +---------------+      +---------------+
    // |      7b       |      |      7b       |
    // |    /     \    |      |    /     \    |
    // |   4b     8b   |      |   4b     8b   |
    // |  /  \   /  \  | ---> |  /  \   /  \  |
    // | 3r  6b 9b 10b |      | 3b  6b 9b 10b |
    // |       \       |      +---------------+
    // |       5b*     |
    // +---------------+
    RBTreeMut::<VecRBTreeNodes>::new(&mut vec).delete(&mut root, 5);
    assert_eq!(root, 7);
    rbtree_node_assert(&mut vec[7], 4, 8, 7, color::BLACK);
    rbtree_node_assert(&mut vec[4], 3, 6, 7, color::BLACK);
    rbtree_node_assert(&mut vec[3], N, N, 4, color::BLACK);
    rbtree_node_assert(&mut vec[6], N, N, 4, color::BLACK);
    rbtree_node_assert(&mut vec[8], 9, 10, 7, color::BLACK);
    rbtree_node_assert(&mut vec[9], N, N, 8, color::BLACK);
    rbtree_node_assert(&mut vec[10], N, N, 8, color::BLACK);
    rbtree_node_assert(&mut vec[5], N, N, N, color::BLACK);

    // +---------------+      +---------------+      +---------------+      +--------------+
    // |      7b*      |      |      9b       |      |      9b       |      |      9b      |
    // |    /     \    |      |    /     \    |      |    /     \    |      |    /    \    |
    // |   4b     8b   | ---> |   4b     8b   | ---> |   4b     8b*  | ---> |   4r    8b   |
    // |  /  \   /  \  |      |  /  \   /  \  |      |  /  \      \  |      |  /  \     \  |
    // | 3b  6b 9b 10b |      | 3b  6b 7b*10b |      | 3b  6b    10r |      | 3b  6b   10r |
    // +---------------+      +---------------+      +---------------+      +--------------+
    RBTreeMut::<VecRBTreeNodes>::new(&mut vec).delete(&mut root, 7);
    assert_eq!(root, 9);
    rbtree_node_assert(&mut vec[9], 4, 8, 9, color::BLACK);
    rbtree_node_assert(&mut vec[4], 3, 6, 9, color::RED);
    rbtree_node_assert(&mut vec[3], N, N, 4, color::BLACK);
    rbtree_node_assert(&mut vec[6], N, N, 4, color::BLACK);
    rbtree_node_assert(&mut vec[8], N, 10, 9, color::BLACK);
    rbtree_node_assert(&mut vec[10], N, N, 8, color::RED);
    rbtree_node_assert(&mut vec[7], N, N, N, color::BLACK);

    // +--------------+      +--------------+      +--------------+      +--------------+
    // |      9b      |      |      9b      |      |      9b      |      |      9b      |
    // |    /    \    |      |    /    \    |      |    /    \    |      |    /    \    |
    // |   4r*   8b   | ---> |   6r    8b   | ---> |   6b    8b   | ---> |   6b    8b   |
    // |  /  \     \  |      |  /  \     \  |      |  /  \     \  |      |  /        \  |
    // | 3b  6b   10r |      | 3b  4b*  10r |      | 3r  4b*  10r |      | 3r       10r |
    // +--------------+      +--------------+      +--------------+      +--------------+
    RBTreeMut::<VecRBTreeNodes>::new(&mut vec).delete(&mut root, 4);
    assert_eq!(root, 9);
    rbtree_node_assert(&mut vec[9], 6, 8, 9, color::BLACK);
    rbtree_node_assert(&mut vec[6], 3, N, 9, color::BLACK);
    rbtree_node_assert(&mut vec[3], N, N, 6, color::RED);
    rbtree_node_assert(&mut vec[8], N, 10, 9, color::BLACK);
    rbtree_node_assert(&mut vec[10], N, N, 8, color::RED);
    rbtree_node_assert(&mut vec[4], N, N, N, color::BLACK);

    // +--------------+      +--------------+      +-----------+
    // |      9b*     |      |      8b      |      |     8b    |
    // |    /    \    |      |    /    \    |      |    /  \   |
    // |   6b    8b   | ---> |   6b    9b*  | ---> |   6b  10b |
    // |  /        \  |      |  /        \  |      |  /        |
    // | 3r       10r |      | 3r       10r |      | 3r        |
    // +--------------+      +--------------+      +-----------+
    RBTreeMut::<VecRBTreeNodes>::new(&mut vec).delete(&mut root, 9);
    assert_eq!(root, 8);
    rbtree_node_assert(&mut vec[8], 6, 10, 8, color::BLACK);
    rbtree_node_assert(&mut vec[6], 3, N, 8, color::BLACK);
    rbtree_node_assert(&mut vec[3], N, N, 6, color::RED);
    rbtree_node_assert(&mut vec[10], N, N, 8, color::BLACK);
    rbtree_node_assert(&mut vec[9], N, N, N, color::BLACK);

    // +-----------+      +----------+      +--------+
    // |     8b    |      |   6b     |      |   6b   |
    // |    /  \   |      |  /  \    |      |  /  \  |
    // |   6b 10b* | ---> | 3r  8b   | ---> | 3b  8b |
    // |  /        |      |       \  |      +--------+
    // | 3r        |      |     10b* |
    // +-----------+      +----------+
    RBTreeMut::<VecRBTreeNodes>::new(&mut vec).delete(&mut root, 10);
    assert_eq!(root, 6);
    rbtree_node_assert(&mut vec[6], 3, 8, 6, color::BLACK);
    rbtree_node_assert(&mut vec[3], N, N, 6, color::BLACK);
    rbtree_node_assert(&mut vec[8], N, N, 6, color::BLACK);
    rbtree_node_assert(&mut vec[10], N, N, N, color::BLACK);

    // +--------+      +--------+      +------+
    // |   6b*  |      |   8b   |      |   8b |
    // |  /  \  | ---> |  /  \  | ---> |  /   |
    // | 3b  8b |      | 3b 6b* |      | 3r   |
    // +--------+      +--------+      +------+
    RBTreeMut::<VecRBTreeNodes>::new(&mut vec).delete(&mut root, 6);
    assert_eq!(root, 8);
    rbtree_node_assert(&mut vec[8], 3, N, 8, color::BLACK);
    rbtree_node_assert(&mut vec[3], N, N, 8, color::RED);
    rbtree_node_assert(&mut vec[6], N, N, N, color::BLACK);

    // +-------+      +-------+
    // |   8b* |      |   8r* |      +----+
    // |  /    | ---> |  /    | ---> | 3b |
    // | 3r    |      | 3b    |      +----+
    // +-------+      +-------+
    RBTreeMut::<VecRBTreeNodes>::new(&mut vec).delete(&mut root, 8);
    assert_eq!(root, 3);
    rbtree_node_assert(&mut vec[3], N, N, 3, color::BLACK);
    rbtree_node_assert(&mut vec[8], N, N, N, color::BLACK);

    // 3b* ---> *
    RBTreeMut::<VecRBTreeNodes>::new(&mut vec).delete(&mut root, 3);
    assert_eq!(root, N);
    rbtree_node_assert(&mut vec[3], N, N, N, color::BLACK);
}

#[test]
fn test_delete_2() {
    let mut vec: Vec<RBTreeNode> = Vec::new();
    vec.resize_with(11, RBTreeNode::new);

    #[allow(non_snake_case)]
    let N = usize::nullptr(); // For convenience.

    // +--------------------+
    // |          7b        |
    // |       /      \     |
    // |      3b       9b   |
    // |    /    \    /  \  |
    // |   1r     5r 8b 10b |
    // |  /  \   /  \       |
    // | 0b  2b 4b  6b      |
    // +--------------------+
    rbtree_node_make(&mut vec[7], 3, 9, 7, color::BLACK);
    rbtree_node_make(&mut vec[3], 1, 5, 7, color::BLACK);
    rbtree_node_make(&mut vec[1], 0, 2, 3, color::RED);
    rbtree_node_make(&mut vec[0], N, N, 1, color::BLACK);
    rbtree_node_make(&mut vec[2], N, N, 1, color::BLACK);
    rbtree_node_make(&mut vec[5], 4, 6, 3, color::RED);
    rbtree_node_make(&mut vec[4], N, N, 5, color::BLACK);
    rbtree_node_make(&mut vec[6], N, N, 5, color::BLACK);
    rbtree_node_make(&mut vec[9], 8, 10, 7, color::BLACK);
    rbtree_node_make(&mut vec[8], N, N, 9, color::BLACK);
    rbtree_node_make(&mut vec[10], N, N, 9, color::BLACK);
    let mut root = 7;

    // +--------------------+      +--------------------+      +------------------+      +------------------+
    // |          7b        |      |          7b        |      |       3b         |      |       3b         |
    // |       /      \     |      |       /      \     |      |    /      \      |      |    /      \      |
    // |      3b       9b   |      |      3b       9b*  |      |   1r      7b     |      |   1b      7b     |
    // |    /    \    /  \  | ---> |    /    \       \  | ---> |  /  \   /   \    | ---> |  /  \   /   \    |
    // |   1r     5r 8b*10b |      |   1r     5r    10r |      | 0b  2b 5r    9b* |      | 0b  2b 5r    9b  |
    // |  /  \   /  \       |      |  /  \   /  \       |      |       /  \    \  |      |       /  \    \  |
    // | 0b  2b 4b  6b      |      | 0b  2b 4b  6b      |      |      4b  6b  10r |      |      4b  6b  10r |
    // +--------------------+      +--------------------+      +------------------+      +------------------+
    RBTreeMut::<VecRBTreeNodes>::new(&mut vec).delete(&mut root, 8);
    assert_eq!(root, 3);
    rbtree_node_assert(&mut vec[3], 1, 7, 3, color::BLACK);
    rbtree_node_assert(&mut vec[1], 0, 2, 3, color::BLACK);
    rbtree_node_assert(&mut vec[0], N, N, 1, color::BLACK);
    rbtree_node_assert(&mut vec[2], N, N, 1, color::BLACK);
    rbtree_node_assert(&mut vec[7], 5, 9, 3, color::BLACK);
    rbtree_node_assert(&mut vec[5], 4, 6, 7, color::RED);
    rbtree_node_assert(&mut vec[4], N, N, 5, color::BLACK);
    rbtree_node_assert(&mut vec[6], N, N, 5, color::BLACK);
    rbtree_node_assert(&mut vec[9], N, 10, 7, color::BLACK);
    rbtree_node_assert(&mut vec[10], N, N, 9, color::RED);
    rbtree_node_assert(&mut vec[8], N, N, N, color::BLACK);

    // +------------------+      +------------------+      +----------------+
    // |       3b         |      |       3b         |      |       3b       |
    // |    /      \      |      |    /      \      |      |    /      \    |
    // |   1b      7b     |      |   1b      7b     |      |   1b      7b   |
    // |  /  \   /   \    | ---> |  /  \   /   \    | ---> |  /  \   /   \  |
    // | 0b  2b 5r   9b*  |      | 0b  2b 5r   9r*  |      | 0b  2b 5r  10b |
    // |       /  \    \  |      |       /  \    \  |      |       /  \     |
    // |      4b  6b  10r |      |      4b  6b  10b |      |      4b  6b    |
    // +------------------+      +------------------+      +----------------+
    RBTreeMut::<VecRBTreeNodes>::new(&mut vec).delete(&mut root, 9);
    assert_eq!(root, 3);
    rbtree_node_assert(&mut vec[3], 1, 7, 3, color::BLACK);
    rbtree_node_assert(&mut vec[1], 0, 2, 3, color::BLACK);
    rbtree_node_assert(&mut vec[0], N, N, 1, color::BLACK);
    rbtree_node_assert(&mut vec[2], N, N, 1, color::BLACK);
    rbtree_node_assert(&mut vec[7], 5, 10, 3, color::BLACK);
    rbtree_node_assert(&mut vec[5], 4, 6, 7, color::RED);
    rbtree_node_assert(&mut vec[4], N, N, 5, color::BLACK);
    rbtree_node_assert(&mut vec[6], N, N, 5, color::BLACK);
    rbtree_node_assert(&mut vec[10], N, N, 7, color::BLACK);
    rbtree_node_assert(&mut vec[9], N, N, N, color::BLACK);

    // +----------------+      +----------------+      +-------------------+
    // |       3b       |      |       3b       |      |       3b          |
    // |    /      \    |      |    /      \    |      |    /      \       |
    // |   1b     7b*   |      |   1b     10b   |      |   1b      5r      |
    // |  /  \   /   \  | ---> |  /  \   /   \  | ---> |  /  \   /   \     | --->
    // | 0b  2b 5r  10b |      | 0b  2b 5r  7b* |      | 0b  2b 4b  10b    |
    // |       /  \     |      |       /  \     |      |            /  \   |
    // |      4b  6b    |      |      4b  6b    |      |           6b  7b* |
    // +----------------+      +----------------+      +-------------------+
    // +-------------------+      +----------------+
    // |       3b          |      |       3b       |
    // |    /      \       |      |    /      \    |
    // |   1b      5b      |      |   1b      5b   |
    // |  /  \   /   \     | ---> |  /  \   /   \  |
    // | 0b  2b 4b  10r    |      | 0b  2b 4b  10b |
    // |            /  \   |      |             /  |
    // |           6b  7b* |      |            6r  |
    // +-------------------+      +----------------+
    RBTreeMut::<VecRBTreeNodes>::new(&mut vec).delete(&mut root, 7);
    assert_eq!(root, 3);
    rbtree_node_assert(&mut vec[3], 1, 5, 3, color::BLACK);
    rbtree_node_assert(&mut vec[1], 0, 2, 3, color::BLACK);
    rbtree_node_assert(&mut vec[0], N, N, 1, color::BLACK);
    rbtree_node_assert(&mut vec[2], N, N, 1, color::BLACK);
    rbtree_node_assert(&mut vec[5], 4, 10, 3, color::BLACK);
    rbtree_node_assert(&mut vec[4], N, N, 5, color::BLACK);
    rbtree_node_assert(&mut vec[10], 6, N, 5, color::BLACK);
    rbtree_node_assert(&mut vec[6], N, N, 10, color::RED);
    rbtree_node_assert(&mut vec[7], N, N, N, color::BLACK);

    // +----------------+      +-----------------+      +---------------+      +---------------+
    // |       3b       |      |      3b         |      |      3b       |      |      3b       |
    // |    /      \    |      |    /     \      |      |    /     \    |      |    /     \    |
    // |   1b      5b   |      |   1b     5b     |      |   1b     6b   |      |   1b     6b   |
    // |  /  \   /   \  | ---> |  /  \   /  \    | ---> |  /  \   /  \  | ---> |  /  \   /  \  |
    // | 0b  2b 4b* 10b |      | 0b  2b 4b* 6b   |      | 0b  2b 5b 10r |      | 0b  2b 5b 10b |
    // |             /  |      |              \  |      |       /       |      +---------------+
    // |            6r  |      |             10r |      |      4b*      |
    // +----------------+      +-----------------+      +---------------+
    RBTreeMut::<VecRBTreeNodes>::new(&mut vec).delete(&mut root, 4);
    assert_eq!(root, 3);
    rbtree_node_assert(&mut vec[3], 1, 6, 3, color::BLACK);
    rbtree_node_assert(&mut vec[1], 0, 2, 3, color::BLACK);
    rbtree_node_assert(&mut vec[0], N, N, 1, color::BLACK);
    rbtree_node_assert(&mut vec[2], N, N, 1, color::BLACK);
    rbtree_node_assert(&mut vec[6], 5, 10, 3, color::BLACK);
    rbtree_node_assert(&mut vec[5], N, N, 6, color::BLACK);
    rbtree_node_assert(&mut vec[10], N, N, 6, color::BLACK);
    rbtree_node_assert(&mut vec[4], N, N, N, color::BLACK);

    // +---------------+      +---------------+      +------------+      +------------+
    // |      3b       |      |      3b       |      |     3b     |      |     3b     |
    // |    /     \    |      |    /     \    |      |    /  \    |      |    /  \    |
    // |   1b*    6b   | ---> |   2b     6b   | ---> |   2b* 6b   | ---> |   2b  6r   |
    // |  /  \   /  \  |      |  /  \   /  \  |      |  /   /  \  |      |  /   /  \  |
    // | 0b  2b 5b 10b |      | 0b 1b* 5b 10b |      | 0r  5b 10b |      | 0r  5b 10b |
    // +---------------+      +---------------+      +------------+      +------------+
    RBTreeMut::<VecRBTreeNodes>::new(&mut vec).delete(&mut root, 1);
    assert_eq!(root, 3);
    rbtree_node_assert(&mut vec[3], 2, 6, 3, color::BLACK);
    rbtree_node_assert(&mut vec[2], 0, N, 3, color::BLACK);
    rbtree_node_assert(&mut vec[0], N, N, 2, color::RED);
    rbtree_node_assert(&mut vec[6], 5, 10, 3, color::RED);
    rbtree_node_assert(&mut vec[5], N, N, 6, color::BLACK);
    rbtree_node_assert(&mut vec[10], N, N, 6, color::BLACK);
    rbtree_node_assert(&mut vec[1], N, N, N, color::BLACK);

    // +-------------+      +------------+
    // |     3b      |      |     3b     |
    // |    /  \     |      |    /  \    |
    // |   2b  6r    | ---> |   2b  6b   |
    // |  /   /  \   |      |  /      \  |
    // | 0r  5b* 10b |      | 0r     10r |
    // +-------------+      +------------+
    RBTreeMut::<VecRBTreeNodes>::new(&mut vec).delete(&mut root, 5);
    assert_eq!(root, 3);
    rbtree_node_assert(&mut vec[3], 2, 6, 3, color::BLACK);
    rbtree_node_assert(&mut vec[2], 0, N, 3, color::BLACK);
    rbtree_node_assert(&mut vec[0], N, N, 2, color::RED);
    rbtree_node_assert(&mut vec[6], N, 10, 3, color::BLACK);
    rbtree_node_assert(&mut vec[10], N, N, 6, color::RED);
    rbtree_node_assert(&mut vec[5], N, N, N, color::BLACK);

    // +------------+      +----------+
    // |     3b     |      |   3b     |
    // |    /  \    |      |  /  \    |
    // |   2b  6b   | ---> | 2b  6b   |
    // |  /      \  |      |       \  |
    // | 0r*    10r |      |      10r |
    // +------------+      +----------+
    RBTreeMut::<VecRBTreeNodes>::new(&mut vec).delete(&mut root, 0);
    assert_eq!(root, 3);
    rbtree_node_assert(&mut vec[3], 2, 6, 3, color::BLACK);
    rbtree_node_assert(&mut vec[2], N, N, 3, color::BLACK);
    rbtree_node_assert(&mut vec[6], N, 10, 3, color::BLACK);
    rbtree_node_assert(&mut vec[10], N, N, 6, color::RED);
    rbtree_node_assert(&mut vec[0], N, N, N, color::BLACK);

    // +----------+      +----------+      +--------+
    // |   3b     |      |     6b   |      |   6b   |
    // |  /  \    |      |    /  \  |      |  /  \  |
    // | 2b* 6b   | ---> |   3b 10r | ---> | 3b 10b |
    // |       \  |      |  /       |      +--------+
    // |      10r |      | 2b*      |
    // +----------+      +----------+
    RBTreeMut::<VecRBTreeNodes>::new(&mut vec).delete(&mut root, 2);
    assert_eq!(root, 6);
    rbtree_node_assert(&mut vec[6], 3, 10, 6, color::BLACK);
    rbtree_node_assert(&mut vec[3], N, N, 6, color::BLACK);
    rbtree_node_assert(&mut vec[10], N, N, 6, color::BLACK);
    rbtree_node_assert(&mut vec[2], N, N, N, color::BLACK);

    // +---------+      +------+
    // |   6b    |      | 6b   |
    // |  /  \   | ---> |   \  |
    // | 3b* 10b |      |  10r |
    // +---------+      +------+
    RBTreeMut::<VecRBTreeNodes>::new(&mut vec).delete(&mut root, 3);
    assert_eq!(root, 6);
    rbtree_node_assert(&mut vec[6], N, 10, 6, color::BLACK);
    rbtree_node_assert(&mut vec[10], N, N, 6, color::RED);
    rbtree_node_assert(&mut vec[3], N, N, N, color::BLACK);

    // +------+      +------+
    // | 6b*  |      | 6r*  |      +-----+
    // |   \  | ---> |   \  | ---> | 10b |
    // |  10r |      |  10b |      +-----+
    // +------+      +------+
    RBTreeMut::<VecRBTreeNodes>::new(&mut vec).delete(&mut root, 6);
    assert_eq!(root, 10);
    rbtree_node_assert(&mut vec[10], N, N, 10, color::BLACK);
    rbtree_node_assert(&mut vec[6], N, N, N, color::BLACK);

    // 10b* ---> *
    RBTreeMut::<VecRBTreeNodes>::new(&mut vec).delete(&mut root, 10);
    assert_eq!(root, N);
    rbtree_node_assert(&mut vec[10], N, N, N, color::BLACK);
}

#[test]
fn test_key_find_insert() {
    let mut kvec: Vec<(RBTreeNode, usize)> = Vec::new();
    let mut root = usize::nullptr();

    #[allow(non_snake_case)]
    let N = usize::nullptr(); // For convenience.

    // * -> 0b:3*
    kvec.push((RBTreeNode::new(), 3));
    let ret = RBTreeMut::<VecKeyedRBTreeNodes>::new(&mut kvec).find_or_insert(&mut root, 0);
    assert_eq!(ret, N);
    rbtree_node_assert(&kvec[0].0, N, N, 0, color::BLACK);
    assert_eq!(RBTree::<VecKeyedRBTreeNodes>::new(&kvec).locate(root, &3), 0);
    assert_eq!(RBTree::<VecKeyedRBTreeNodes>::new(&kvec).find(root, &3), 0);
    assert_eq!(RBTree::<VecKeyedRBTreeNodes>::new(&kvec).locate(root, &2), 0);
    assert_eq!(RBTree::<VecKeyedRBTreeNodes>::new(&kvec).find(root, &2), N);
    assert_eq!(RBTree::<VecKeyedRBTreeNodes>::new(&kvec).locate(root, &4), 0);
    assert_eq!(RBTree::<VecKeyedRBTreeNodes>::new(&kvec).find(root, &4), N);

    // +---------+
    // | 0b:3    |
    // |   \     |
    // |   1r:3* |
    // +---------+
    kvec.push((RBTreeNode::new(), 3));
    let ret = RBTreeMut::<VecKeyedRBTreeNodes>::new(&mut kvec).find_or_insert(&mut root, 1);
    assert_eq!(ret, 0);
    RBTreeMut::<VecKeyedRBTreeNodes>::new(&mut kvec).insert(&mut root, 1);
    rbtree_node_assert(&kvec[0].0, N, 1, 0, color::BLACK);
    rbtree_node_assert(&kvec[1].0, N, N, 0, color::RED);
    assert_eq!(RBTree::<VecKeyedRBTreeNodes>::new(&kvec).locate(root, &3), 0);
    assert_eq!(RBTree::<VecKeyedRBTreeNodes>::new(&kvec).find_first(root, &3), 0);
    assert_eq!(RBTree::<VecKeyedRBTreeNodes>::new(&kvec).find_last(root, &3), 1);
    assert_eq!(RBTree::<VecKeyedRBTreeNodes>::new(&kvec).locate(root, &2), 0);
    assert_eq!(RBTree::<VecKeyedRBTreeNodes>::new(&kvec).find(root, &2), N);
    assert_eq!(RBTree::<VecKeyedRBTreeNodes>::new(&kvec).locate(root, &4), 1);
    assert_eq!(RBTree::<VecKeyedRBTreeNodes>::new(&kvec).find(root, &4), N);

    // +-----------+      +-------------+
    // | 0b:3      |      |    1b:3     |
    // |   \       |      |    /  \     |
    // |   1r:3    | ---> | 0r:3   2r:3 |
    // |     \     |      +-------------+
    // |     2r:3* |
    // +-----------+
    kvec.push((RBTreeNode::new(), 3));
    RBTreeMut::<VecKeyedRBTreeNodes>::new(&mut kvec).insert_last(&mut root, 2);
    rbtree_node_assert(&kvec[0].0, N, N, 1, color::RED);
    rbtree_node_assert(&kvec[1].0, 0, 2, 1, color::BLACK);
    rbtree_node_assert(&kvec[2].0, N, N, 1, color::RED);
    assert_eq!(RBTree::<VecKeyedRBTreeNodes>::new(&kvec).locate(root, &3), 1);
    assert_eq!(RBTree::<VecKeyedRBTreeNodes>::new(&kvec).find_first(root, &3), 0);
    assert_eq!(RBTree::<VecKeyedRBTreeNodes>::new(&kvec).find_last(root, &3), 2);
    assert_eq!(RBTree::<VecKeyedRBTreeNodes>::new(&kvec).locate(root, &2), 0);
    assert_eq!(RBTree::<VecKeyedRBTreeNodes>::new(&kvec).find(root, &2), N);
    assert_eq!(RBTree::<VecKeyedRBTreeNodes>::new(&kvec).locate(root, &4), 2);
    assert_eq!(RBTree::<VecKeyedRBTreeNodes>::new(&kvec).find(root, &4), N);

    // +---------------+      +--------------+
    // |    1b:3       |      |    1b:3      |
    // |    /  \       |      |    /  \      |
    // | 0r:3   2r:3   | ---> | 0b:3   2b:3  |
    // |         \     |      |         \    |
    // |         3r:3* |      |         3r:3 |
    // +---------------+      +--------------+
    kvec.push((RBTreeNode::new(), 3));
    RBTreeMut::<VecKeyedRBTreeNodes>::new(&mut kvec).insert_last(&mut root, 3);
    rbtree_node_assert(&kvec[0].0, N, N, 1, color::BLACK);
    rbtree_node_assert(&kvec[1].0, 0, 2, 1, color::BLACK);
    rbtree_node_assert(&kvec[2].0, N, 3, 1, color::BLACK);
    rbtree_node_assert(&kvec[3].0, N, N, 2, color::RED);
    assert_eq!(RBTree::<VecKeyedRBTreeNodes>::new(&kvec).locate(root, &3), 1);
    assert_eq!(RBTree::<VecKeyedRBTreeNodes>::new(&kvec).find_first(root, &3), 0);
    assert_eq!(RBTree::<VecKeyedRBTreeNodes>::new(&kvec).find_last(root, &3), 3);
    assert_eq!(RBTree::<VecKeyedRBTreeNodes>::new(&kvec).locate(root, &2), 0);
    assert_eq!(RBTree::<VecKeyedRBTreeNodes>::new(&kvec).find(root, &2), N);
    assert_eq!(RBTree::<VecKeyedRBTreeNodes>::new(&kvec).locate(root, &4), 3);
    assert_eq!(RBTree::<VecKeyedRBTreeNodes>::new(&kvec).find(root, &4), N);

    // +----------------+
    // |      1b:3      |
    // |      /  \      |
    // |   0b:3   2b:3  |
    // |    /      \    |
    // | 4r:3*     3r:3 |
    // +----------------+
    kvec.push((RBTreeNode::new(), 3));
    RBTreeMut::<VecKeyedRBTreeNodes>::new(&mut kvec).insert_first(&mut root, 4);
    rbtree_node_assert(&kvec[0].0, 4, N, 1, color::BLACK);
    rbtree_node_assert(&kvec[1].0, 0, 2, 1, color::BLACK);
    rbtree_node_assert(&kvec[2].0, N, 3, 1, color::BLACK);
    rbtree_node_assert(&kvec[3].0, N, N, 2, color::RED);
    rbtree_node_assert(&kvec[4].0, N, N, 0, color::RED);
    assert_eq!(RBTree::<VecKeyedRBTreeNodes>::new(&kvec).locate(root, &3), 1);
    assert_eq!(RBTree::<VecKeyedRBTreeNodes>::new(&kvec).find_first(root, &3), 4);
    assert_eq!(RBTree::<VecKeyedRBTreeNodes>::new(&kvec).find_last(root, &3), 3);
    assert_eq!(RBTree::<VecKeyedRBTreeNodes>::new(&kvec).locate(root, &2), 4);
    assert_eq!(RBTree::<VecKeyedRBTreeNodes>::new(&kvec).find(root, &2), N);
    assert_eq!(RBTree::<VecKeyedRBTreeNodes>::new(&kvec).locate(root, &4), 3);
    assert_eq!(RBTree::<VecKeyedRBTreeNodes>::new(&kvec).find(root, &4), N);

    // +------------------+      +----------------+
    // |        1b:3      |      |      1b:3      |
    // |        /  \      |      |      /  \      |
    // |     0b:3   2b:3  |      |   4b:3   2b:3  |
    // |      /      \    | ---> |    / \    \    |
    // |   4r:3      3r:3 |      | 5r:2 0r:3 3r:3 |
    // |    /             |      +----------------+
    // | 5r:2*            |
    // +------------------+
    kvec.push((RBTreeNode::new(), 2));
    let ret = RBTreeMut::<VecKeyedRBTreeNodes>::new(&mut kvec).find_or_insert(&mut root, 5);
    assert_eq!(ret, N);
    rbtree_node_assert(&kvec[0].0, N, N, 4, color::RED);
    rbtree_node_assert(&kvec[1].0, 4, 2, 1, color::BLACK);
    rbtree_node_assert(&kvec[2].0, N, 3, 1, color::BLACK);
    rbtree_node_assert(&kvec[3].0, N, N, 2, color::RED);
    rbtree_node_assert(&kvec[4].0, 5, 0, 1, color::BLACK);
    rbtree_node_assert(&kvec[5].0, N, N, 4, color::RED);
    assert_eq!(RBTree::<VecKeyedRBTreeNodes>::new(&kvec).locate(root, &3), 1);
    assert_eq!(RBTree::<VecKeyedRBTreeNodes>::new(&kvec).find_first(root, &3), 4);
    assert_eq!(RBTree::<VecKeyedRBTreeNodes>::new(&kvec).find_last(root, &3), 3);
    assert_eq!(RBTree::<VecKeyedRBTreeNodes>::new(&kvec).locate(root, &2), 5);
    assert_eq!(RBTree::<VecKeyedRBTreeNodes>::new(&kvec).find(root, &2), 5);
    assert_eq!(RBTree::<VecKeyedRBTreeNodes>::new(&kvec).locate(root, &1), 5);
    assert_eq!(RBTree::<VecKeyedRBTreeNodes>::new(&kvec).find(root, &1), N);
    assert_eq!(RBTree::<VecKeyedRBTreeNodes>::new(&kvec).locate(root, &4), 3);
    assert_eq!(RBTree::<VecKeyedRBTreeNodes>::new(&kvec).find(root, &4), N);

    // +----------------+      +----------------+
    // |      1b:3      |      |      1b:3      |
    // |      /  \      |      |      /  \      |
    // |   4b:3   2b:3  |      |   4r:3   2b:3  |
    // |    / \    \    |      |    / \    \    |
    // | 5r:2 0r:3 3r:3 | ---> | 5b:2 0b:3 3r:3 |
    // |    \           |      |    \           |
    // |   6r:3*        |      |   6r:3         |
    // +----------------+      +----------------+
    kvec.push((RBTreeNode::new(), 3));
    RBTreeMut::<VecKeyedRBTreeNodes>::new(&mut kvec).insert_first(&mut root, 6);
    rbtree_node_assert(&kvec[0].0, N, N, 4, color::BLACK);
    rbtree_node_assert(&kvec[1].0, 4, 2, 1, color::BLACK);
    rbtree_node_assert(&kvec[2].0, N, 3, 1, color::BLACK);
    rbtree_node_assert(&kvec[3].0, N, N, 2, color::RED);
    rbtree_node_assert(&kvec[4].0, 5, 0, 1, color::RED);
    rbtree_node_assert(&kvec[5].0, N, 6, 4, color::BLACK);
    rbtree_node_assert(&kvec[6].0, N, N, 5, color::RED);
    assert_eq!(RBTree::<VecKeyedRBTreeNodes>::new(&kvec).locate(root, &3), 1);
    assert_eq!(RBTree::<VecKeyedRBTreeNodes>::new(&kvec).find_first(root, &3), 6);
    assert_eq!(RBTree::<VecKeyedRBTreeNodes>::new(&kvec).find_last(root, &3), 3);
    assert_eq!(RBTree::<VecKeyedRBTreeNodes>::new(&kvec).locate(root, &2), 5);
    assert_eq!(RBTree::<VecKeyedRBTreeNodes>::new(&kvec).find(root, &2), 5);
    assert_eq!(RBTree::<VecKeyedRBTreeNodes>::new(&kvec).locate(root, &1), 5);
    assert_eq!(RBTree::<VecKeyedRBTreeNodes>::new(&kvec).find(root, &1), N);
    assert_eq!(RBTree::<VecKeyedRBTreeNodes>::new(&kvec).locate(root, &4), 3);
    assert_eq!(RBTree::<VecKeyedRBTreeNodes>::new(&kvec).find(root, &4), N);

    // +----------------+      +----------------+      +------------------+
    // |      1b:3      |      |      1b:3      |      |        1b:3      |
    // |      /  \      |      |      /  \      |      |        /  \      |
    // |   4r:3   2b:3  |      |   4r:3   2b:3  |      |     4r:3   2b:3  |
    // |    / \    \    |      |    / \    \    |      |      / \    \    |
    // | 5b:2 0b:3 3r:3 | ---> | 5b:2 0b:3 3r:3 | ---> |   7b:2 0b:3 3r:3 |
    // |    \           |      |    \           |      |    / \           |
    // |   6r:3         |      |   7r:2*        |      | 5r:2 6r:3        |
    // |    /           |      |      \         |      +------------------+
    // | 7r:2*          |      |      6r:3      |
    // +----------------+      +----------------+
    kvec.push((RBTreeNode::new(), 2));
    RBTreeMut::<VecKeyedRBTreeNodes>::new(&mut kvec).insert_last(&mut root, 7);
    rbtree_node_assert(&kvec[0].0, N, N, 4, color::BLACK);
    rbtree_node_assert(&kvec[1].0, 4, 2, 1, color::BLACK);
    rbtree_node_assert(&kvec[2].0, N, 3, 1, color::BLACK);
    rbtree_node_assert(&kvec[3].0, N, N, 2, color::RED);
    rbtree_node_assert(&kvec[4].0, 7, 0, 1, color::RED);
    rbtree_node_assert(&kvec[5].0, N, N, 7, color::RED);
    rbtree_node_assert(&kvec[6].0, N, N, 7, color::RED);
    rbtree_node_assert(&kvec[7].0, 5, 6, 4, color::BLACK);
    assert_eq!(RBTree::<VecKeyedRBTreeNodes>::new(&kvec).locate(root, &3), 1);
    assert_eq!(RBTree::<VecKeyedRBTreeNodes>::new(&kvec).find_first(root, &3), 6);
    assert_eq!(RBTree::<VecKeyedRBTreeNodes>::new(&kvec).find_last(root, &3), 3);
    assert_eq!(RBTree::<VecKeyedRBTreeNodes>::new(&kvec).locate(root, &2), 7);
    assert_eq!(RBTree::<VecKeyedRBTreeNodes>::new(&kvec).find_first(root, &2), 5);
    assert_eq!(RBTree::<VecKeyedRBTreeNodes>::new(&kvec).find_last(root, &2), 7);
    assert_eq!(RBTree::<VecKeyedRBTreeNodes>::new(&kvec).locate(root, &1), 5);
    assert_eq!(RBTree::<VecKeyedRBTreeNodes>::new(&kvec).find(root, &1), N);
    assert_eq!(RBTree::<VecKeyedRBTreeNodes>::new(&kvec).locate(root, &4), 3);
    assert_eq!(RBTree::<VecKeyedRBTreeNodes>::new(&kvec).find(root, &4), N);

    // +------------------+      +------------------+      +-----------------------+
    // |        1b:3      |      |        1b:3      |      |         4b:3          |
    // |        /  \      |      |        /  \      |      |      /       \        |
    // |     4r:3   2b:3  |      |     4r:3   2b:3  |      |    7r:2     1r:3      |
    // |      / \    \    |      |      / \    \    |      |    /  \     /  \      |
    // |   7b:2 0b:3 3r:3 | ---> |  7r:2* 0b:3 3r:3 | ---> | 5b:2 6b:3 0b:3 2b:3   |
    // |    / \           |      |    / \           |      |       /          \    |
    // | 5r:2 6r:3        |      | 5b:2 6b:3        |      |    8r:3          3r:3 |
    // |      /           |      |      /           |      +-----------------------+
    // |   8r:3*          |      |   8r:3           |
    // +------------------+      +------------------+
    kvec.push((RBTreeNode::new(), 3));
    RBTreeMut::<VecKeyedRBTreeNodes>::new(&mut kvec).insert_first(&mut root, 8);
    assert_eq!(root, 4);
    rbtree_node_assert(&kvec[0].0, N, N, 1, color::BLACK);
    rbtree_node_assert(&kvec[1].0, 0, 2, 4, color::RED);
    rbtree_node_assert(&kvec[2].0, N, 3, 1, color::BLACK);
    rbtree_node_assert(&kvec[3].0, N, N, 2, color::RED);
    rbtree_node_assert(&kvec[4].0, 7, 1, 4, color::BLACK);
    rbtree_node_assert(&kvec[5].0, N, N, 7, color::BLACK);
    rbtree_node_assert(&kvec[6].0, 8, N, 7, color::BLACK);
    rbtree_node_assert(&kvec[7].0, 5, 6, 4, color::RED);
    rbtree_node_assert(&kvec[8].0, N, N, 6, color::RED);
    assert_eq!(RBTree::<VecKeyedRBTreeNodes>::new(&kvec).locate(root, &3), 4);
    assert_eq!(RBTree::<VecKeyedRBTreeNodes>::new(&kvec).find_first(root, &3), 8);
    assert_eq!(RBTree::<VecKeyedRBTreeNodes>::new(&kvec).find_last(root, &3), 3);
    assert_eq!(RBTree::<VecKeyedRBTreeNodes>::new(&kvec).locate(root, &2), 7);
    assert_eq!(RBTree::<VecKeyedRBTreeNodes>::new(&kvec).find_first(root, &2), 5);
    assert_eq!(RBTree::<VecKeyedRBTreeNodes>::new(&kvec).find_last(root, &2), 7);
    assert_eq!(RBTree::<VecKeyedRBTreeNodes>::new(&kvec).locate(root, &1), 5);
    assert_eq!(RBTree::<VecKeyedRBTreeNodes>::new(&kvec).find(root, &1), N);
    assert_eq!(RBTree::<VecKeyedRBTreeNodes>::new(&kvec).locate(root, &4), 3);
    assert_eq!(RBTree::<VecKeyedRBTreeNodes>::new(&kvec).find(root, &4), N);

    // +--------------------------+      +-----------------------+
    // |         4b:3             |      |         4b:3          |
    // |      /       \           |      |      /       \        |
    // |    7r:2     1r:3         |      |    7r:2     1r:3      |
    // |    /  \     /  \         |      |    /  \     /  \      |
    // | 5b:2 6b:3 0b:3 2b:3      | ---> | 5b:2 6b:3 0b:3 3b:3   |
    // |       /          \       |      |       /        / \    |
    // |    8r:3          3r:3    |      |    8r:3     2r:3 9r:4 |
    // |                    \     |      +-----------------------+
    // |                    9r:4* |
    // +--------------------------+
    kvec.push((RBTreeNode::new(), 4));
    RBTreeMut::<VecKeyedRBTreeNodes>::new(&mut kvec).insert_last(&mut root, 9);
    rbtree_node_assert(&kvec[0].0, N, N, 1, color::BLACK);
    rbtree_node_assert(&kvec[1].0, 0, 3, 4, color::RED);
    rbtree_node_assert(&kvec[2].0, N, N, 3, color::RED);
    rbtree_node_assert(&kvec[3].0, 2, 9, 1, color::BLACK);
    rbtree_node_assert(&kvec[4].0, 7, 1, 4, color::BLACK);
    rbtree_node_assert(&kvec[5].0, N, N, 7, color::BLACK);
    rbtree_node_assert(&kvec[6].0, 8, N, 7, color::BLACK);
    rbtree_node_assert(&kvec[7].0, 5, 6, 4, color::RED);
    rbtree_node_assert(&kvec[8].0, N, N, 6, color::RED);
    rbtree_node_assert(&kvec[9].0, N, N, 3, color::RED);
    assert_eq!(RBTree::<VecKeyedRBTreeNodes>::new(&kvec).locate(root, &3), 4);
    assert_eq!(RBTree::<VecKeyedRBTreeNodes>::new(&kvec).find_first(root, &3), 8);
    assert_eq!(RBTree::<VecKeyedRBTreeNodes>::new(&kvec).find_last(root, &3), 3);
    assert_eq!(RBTree::<VecKeyedRBTreeNodes>::new(&kvec).locate(root, &2), 7);
    assert_eq!(RBTree::<VecKeyedRBTreeNodes>::new(&kvec).find_first(root, &2), 5);
    assert_eq!(RBTree::<VecKeyedRBTreeNodes>::new(&kvec).find_last(root, &2), 7);
    assert_eq!(RBTree::<VecKeyedRBTreeNodes>::new(&kvec).locate(root, &1), 5);
    assert_eq!(RBTree::<VecKeyedRBTreeNodes>::new(&kvec).find(root, &1), N);
    assert_eq!(RBTree::<VecKeyedRBTreeNodes>::new(&kvec).locate(root, &4), 9);
    assert_eq!(RBTree::<VecKeyedRBTreeNodes>::new(&kvec).find(root, &4), 9);
    assert_eq!(RBTree::<VecKeyedRBTreeNodes>::new(&kvec).locate(root, &5), 9);
    assert_eq!(RBTree::<VecKeyedRBTreeNodes>::new(&kvec).find(root, &5), N);

    // +-----------------------+      +-----------------------+      +-----------------------+      +-----------------------+
    // |         4b:3          |      |         4b:3          |      |         4r:3*         |      |         4b:3          |
    // |      /       \        |      |      /       \        |      |      /       \        |      |      /       \        |
    // |    7r:2     1r:3      |      |    7r:2     1r:3      |      |    7b:2     1b:3      |      |    7b:2     1b:3      |
    // |    /  \     /  \      |      |    /  \     /  \      |      |    /  \     /  \      |      |    /  \     /  \      |
    // | 5b:2 6b:3 0b:3 3b:3   | ---> | 5b:2 6b:3 0b:3 3r:3*  | ---> | 5b:2 6b:3 0b:3 3r:3   | ---> | 5b:2 6b:3 0b:3 3r:3   |
    // |       /        / \    |      |       /        / \    |      |       /        / \    |      |       /        / \    |
    // |    8r:3     2r:3 9r:4 |      |    8r:3     2b:3 9b:4 |      |    8r:3     2b:3 9b:4 |      |    8r:3     2b:3 9b:4 |
    // |                  /    |      |                  /    |      |                  /    |      |                  /    |
    // |               10r:3*  |      |               10r:3   |      |               10r:3   |      |               10r:3   |
    // +-----------------------+      +-----------------------+      +-----------------------+      +-----------------------+
    kvec.push((RBTreeNode::new(), 3));
    RBTreeMut::<VecKeyedRBTreeNodes>::new(&mut kvec).insert_last(&mut root, 10);
    rbtree_node_assert(&kvec[0].0, N, N, 1, color::BLACK);
    rbtree_node_assert(&kvec[1].0, 0, 3, 4, color::BLACK);
    rbtree_node_assert(&kvec[2].0, N, N, 3, color::BLACK);
    rbtree_node_assert(&kvec[3].0, 2, 9, 1, color::RED);
    rbtree_node_assert(&kvec[4].0, 7, 1, 4, color::BLACK);
    rbtree_node_assert(&kvec[5].0, N, N, 7, color::BLACK);
    rbtree_node_assert(&kvec[6].0, 8, N, 7, color::BLACK);
    rbtree_node_assert(&kvec[7].0, 5, 6, 4, color::BLACK);
    rbtree_node_assert(&kvec[8].0, N, N, 6, color::RED);
    rbtree_node_assert(&kvec[9].0, 10, N, 3, color::BLACK);
    rbtree_node_assert(&kvec[10].0, N, N, 9, color::RED);
    assert_eq!(RBTree::<VecKeyedRBTreeNodes>::new(&kvec).locate(root, &3), 4);
    assert_eq!(RBTree::<VecKeyedRBTreeNodes>::new(&kvec).find_first(root, &3), 8);
    assert_eq!(RBTree::<VecKeyedRBTreeNodes>::new(&kvec).find_last(root, &3), 10);
    assert_eq!(RBTree::<VecKeyedRBTreeNodes>::new(&kvec).locate(root, &2), 7);
    assert_eq!(RBTree::<VecKeyedRBTreeNodes>::new(&kvec).find_first(root, &2), 5);
    assert_eq!(RBTree::<VecKeyedRBTreeNodes>::new(&kvec).find_last(root, &2), 7);
    assert_eq!(RBTree::<VecKeyedRBTreeNodes>::new(&kvec).locate(root, &1), 5);
    assert_eq!(RBTree::<VecKeyedRBTreeNodes>::new(&kvec).find(root, &1), N);
    assert_eq!(RBTree::<VecKeyedRBTreeNodes>::new(&kvec).locate(root, &4), 9);
    assert_eq!(RBTree::<VecKeyedRBTreeNodes>::new(&kvec).find(root, &4), 9);
    assert_eq!(RBTree::<VecKeyedRBTreeNodes>::new(&kvec).locate(root, &5), 9);
    assert_eq!(RBTree::<VecKeyedRBTreeNodes>::new(&kvec).find(root, &5), N);
}
