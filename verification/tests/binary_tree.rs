use my_algo::binary_tree::linked_binary_tree::LinkedBinaryTree;
use my_algo::binary_tree::vec_binary_tree::VecBinaryTree;
use my_algo::binary_tree::doubly_linked_binary_tree::DoublyLinkedBinaryTree;

fn vec_basic_scenario() {
    let mut tree = VecBinaryTree::new();
    let mut cursor = tree.cursor_mut();
    cursor.insert_as_root(0);
    cursor.insert_as_left(1);
    cursor.insert_as_right(2);
    cursor.move_right();
    cursor.insert_as_left(3);
    cursor.move_left();
    cursor.insert_as_left(4);
    cursor.insert_as_right(5);
    assert_eq!(tree.cursor().in_order_iter(), vec![0, 1, 2, 3, 4, 5]);
    let mut cursor = tree.cursor_mut();
    let right = cursor.take_right().unwrap();
    assert_eq!(tree.cursor().in_order_iter(), vec![0, 1]);
    assert_eq!(right.cursor().in_order_iter(), vec![2, 3, 4, 5]);
    let mut cursor = tree.cursor_mut();
    cursor.move_left();
    cursor.append_left(right);
    assert_eq!(tree.cursor().in_order_iter(), vec![0, 1, 2, 3, 4, 5]);
    let mut cursor = tree.cursor_mut();
    cursor.insert_as_right(6);
    assert_eq!(tree.cursor().in_order_iter(), vec![0, 1, 6, 2, 3, 4, 5]);
    assert_eq!(tree.cursor().pre_order_iter(), vec![0, 1, 2, 3, 4, 5, 6]);
    assert_eq!(tree.cursor().mid_order_iter(), vec![4, 3, 5, 2, 1, 0, 6]);
    assert_eq!(tree.cursor().post_order_iter(), vec![4, 5, 3, 2, 1, 6, 0]);
    let mut cursor = tree.cursor_mut();
    cursor.move_right();
    assert_eq!(cursor.cursor().post_order_iter(), vec![6]);
}

fn linked_basic_scenario() {
    let mut tree = LinkedBinaryTree::new();
    let mut cursor = tree.cursor_mut();
    cursor.insert_as_root(0);
    cursor.insert_as_left(1);
    cursor.insert_as_right(2);
    cursor.move_right();
    cursor.insert_as_left(3);
    cursor.move_left();
    cursor.insert_as_left(4);
    cursor.insert_as_right(5);
    assert_eq!(tree.cursor().in_order_iter(), vec![0, 1, 2, 3, 4, 5]);
    let mut cursor = tree.cursor_mut();
    let right = cursor.take_right().unwrap();
    assert_eq!(tree.cursor().in_order_iter(), vec![0, 1]);
    assert_eq!(right.cursor().in_order_iter(), vec![2, 3, 4, 5]);
    let mut cursor = tree.cursor_mut();
    cursor.move_left();
    cursor.append_left(right);
    assert_eq!(tree.cursor().in_order_iter(), vec![0, 1, 2, 3, 4, 5]);
    let mut cursor = tree.cursor_mut();
    cursor.insert_as_right(6);
    assert_eq!(tree.cursor().in_order_iter(), vec![0, 1, 6, 2, 3, 4, 5]);
    assert_eq!(tree.cursor().pre_order_iter(), vec![0, 1, 2, 3, 4, 5, 6]);
    assert_eq!(tree.cursor().mid_order_iter(), vec![4, 3, 5, 2, 1, 0, 6]);
    assert_eq!(tree.cursor().post_order_iter(), vec![4, 5, 3, 2, 1, 6, 0]);
    let mut cursor = tree.cursor_mut();
    cursor.move_right();
    assert_eq!(cursor.cursor().post_order_iter(), vec![6]);
}

fn doubly_basic_scenario() {
    let mut tree = DoublyLinkedBinaryTree::new();
    let mut cursor = tree.cursor_mut();
    cursor.insert_as_root(0);
    cursor.insert_as_left(1);
    cursor.insert_as_right(2);
    cursor.move_right();
    cursor.insert_as_left(3);
    cursor.move_left();
    cursor.insert_as_left(4);
    cursor.insert_as_right(5);
    assert_eq!(tree.cursor().in_order_iter(), vec![0, 1, 2, 3, 4, 5]);
    let mut cursor = tree.cursor_mut();
    let right = cursor.take_right().unwrap();
    assert_eq!(tree.cursor().in_order_iter(), vec![0, 1]);
    assert_eq!(right.cursor().in_order_iter(), vec![2, 3, 4, 5]);
    let mut cursor = tree.cursor_mut();
    cursor.move_left();
    cursor.append_left(right);
    assert_eq!(tree.cursor().in_order_iter(), vec![0, 1, 2, 3, 4, 5]);
    let mut cursor = tree.cursor_mut();
    cursor.insert_as_right(6);
    assert_eq!(tree.cursor().in_order_iter(), vec![0, 1, 6, 2, 3, 4, 5]);
    assert_eq!(tree.cursor().pre_order_iter(), vec![0, 1, 2, 3, 4, 5, 6]);
    assert_eq!(tree.cursor().mid_order_iter(), vec![4, 3, 5, 2, 1, 0, 6]);
    assert_eq!(tree.cursor().post_order_iter(), vec![4, 5, 3, 2, 1, 6, 0]);
    let mut cursor = tree.cursor_mut();
    cursor.move_right();
    assert_eq!(cursor.cursor().post_order_iter(), vec![6]);
}

#[derive(Debug)]
struct Foo(usize);

impl Drop for Foo {
    fn drop(&mut self) {
        println!("drop: {:?}", self)
    }
}

#[test]
fn mod_test_drop() {
    let mut tree = DoublyLinkedBinaryTree::new();
    let mut cursor = tree.cursor_mut();
    cursor.insert_as_root(Foo(1));
    cursor.insert_as_left(Foo(2));
    cursor.insert_as_right(Foo(3));
    cursor.move_left();
    cursor.insert_as_left(Foo(4));
    cursor.insert_as_right(Foo(5));
}

#[test]
fn doubly_cursor_moves_back_to_parent() {
    let mut tree = DoublyLinkedBinaryTree::new();
    let mut cursor = tree.cursor_mut();
    cursor.insert_as_root(1);
    cursor.insert_as_left(2);
    cursor.insert_as_right(3);
    assert_eq!(cursor.parent(), None);
    cursor.move_left();
    assert_eq!(cursor.as_ref(), Some(&2));
    assert_eq!(cursor.parent(), Some(&1));
    cursor.insert_as_right(7);
    cursor.move_parent();
    assert_eq!(cursor.as_ref(), Some(&1));
    cursor.move_parent();
    assert_eq!(cursor.as_ref(), Some(&1));
    cursor.move_right();
    assert_eq!(cursor.as_ref(), Some(&3));
    let mut read = tree.cursor();
    read.move_left();
    read.move_right();
    assert_eq!(read.as_ref(), Some(&7));
    assert_eq!(read.parent(), Some(&2));
    read.move_parent();
    read.move_parent();
    assert_eq!(read.as_ref(), Some(&1));
    assert_eq!(read.pre_order_iter(), vec![1, 2, 7, 3]);
}

#[test]
fn mod_test_vec_binary_tree_basic() {
    vec_basic_scenario();
}

#[test]
fn mod_test_linked_binary_tree_basic() {
    linked_basic_scenario();
    doubly_basic_scenario();
}

#[test]
fn mod_test_post_order_iter() {
    let mut tree = VecBinaryTree::new();
    assert_eq!(tree.cursor().post_order_iter(), Vec::<i32>::new());
    let mut cursor = tree.cursor_mut();
    cursor.insert_as_root(1);
    cursor.insert_as_left(2);
    cursor.insert_as_right(3);
    cursor.move_left();
    cursor.insert_as_left(4);
    cursor.insert_as_right(5);
    cursor = tree.cursor_mut();
    cursor.move_right();
    cursor.insert_as_left(6);
    cursor.move_left();
    cursor.insert_as_left(7);
    cursor.insert_as_right(8);
    assert_eq!(tree.cursor().post_order_iter(), vec![4, 5, 2, 7, 8, 6, 3, 1]);

    let mut tree = LinkedBinaryTree::new();
    assert_eq!(tree.cursor().post_order_iter(), Vec::<i32>::new());
    let mut cursor = tree.cursor_mut();
    cursor.insert_as_root(1);
    cursor.insert_as_left(2);
    cursor.insert_as_right(3);
    cursor.move_left();
    cursor.insert_as_left(4);
    cursor.insert_as_right(5);
    cursor = tree.cursor_mut();
    cursor.move_right();
    cursor.insert_as_left(6);
    cursor.move_left();
    cursor.insert_as_left(7);
    cursor.insert_as_right(8);
    assert_eq!(tree.cursor().post_order_iter(), vec![4, 5, 2, 7, 8, 6, 3, 1]);

    let mut tree = DoublyLinkedBinaryTree::new();
    assert_eq!(tree.cursor().post_order_iter(), Vec::<i32>::new());
    let mut cursor = tree.cursor_mut();
    cursor.insert_as_root(1);
    cursor.insert_as_left(2);
    cursor.insert_as_right(3);
    cursor.move_left();
    cursor.insert_as_left(4);
    cursor.insert_as_right(5);
    cursor = tree.cursor_mut();
    cursor.move_right();
    cursor.insert_as_left(6);
    cursor.move_left();
    cursor.insert_as_left(7);
    cursor.insert_as_right(8);
    assert_eq!(tree.cursor().post_order_iter(), vec![4, 5, 2, 7, 8, 6, 3, 1]);
}

#[test]
fn linked_rotations_keep_mid_order() {
    let mut tree = LinkedBinaryTree::new();
    let mut cursor = tree.cursor_mut();
    cursor.insert_as_root(2);
    cursor.insert_as_left(1);
    cursor.insert_as_right(3);
    cursor.zig();
    assert_eq!(tree.cursor().pre_order_iter(), vec![1, 2, 3]);
    assert_eq!(tree.cursor().mid_order_iter(), vec![1, 2, 3]);
    let mut cursor = tree.cursor_mut();
    cursor.zag();
    assert_eq!(tree.cursor().pre_order_iter(), vec![2, 1, 3]);
    assert_eq!(tree.cursor().mid_order_iter(), vec![1, 2, 3]);
}

#[test]
fn vec_tree_take_leaves_positions_empty() {
    let mut tree = VecBinaryTree::new();
    let mut cursor = tree.cursor_mut();
    cursor.insert_as_root(10);
    assert_eq!(cursor.insert_as_root(11), Some(11));
    cursor.insert_as_left(20);
    assert_eq!(cursor.insert_as_left(21), Some(21));
    let whole = cursor.take();
    assert!(tree.is_empty());
    assert_eq!(whole.cursor().pre_order_iter(), vec![10, 20]);
}
