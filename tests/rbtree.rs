use rbtree::node::Color;
use rbtree::tree::RBTree;

#[test]
fn len() {
    let tree: RBTree<usize> = RBTree::new();
    assert_eq!(tree.len(), 0);
}

#[test]
fn insert() {
    let mut tree: RBTree<usize> = RBTree::new();
    tree.insert(10, 2).unwrap();
    tree.insert(3, 1).unwrap();
    tree.insert(1, 2).unwrap();
    tree.insert(5, 3).unwrap();
    tree.insert(20, 4).unwrap();
    tree.insert(25, 5).unwrap();
    tree.insert(30, 5).unwrap();
    tree.insert(40, 6).unwrap();
    tree.insert(8, 6).unwrap();
    tree.insert(9, 6).unwrap();
    tree.insert(50, 6).unwrap();
    tree.insert(60, 6).unwrap();
    assert_eq!(tree.len(), 12);
    assert_eq!(10, tree.root().unwrap().key);
    assert_eq!(3, tree.root().unwrap().left().unwrap().key);
    assert_eq!(25, tree.root().unwrap().right().unwrap().key);
    assert_eq!(1, tree.root().unwrap().left().unwrap().left().unwrap().key);
}

#[test]
fn find_minimum() {
    let mut tree: RBTree<usize> = RBTree::new();
    tree.insert(10, 2).unwrap();
    let node = tree.find_minimum(tree.root().unwrap());
    assert_eq!(10, node.key);
    tree.insert(3, 1).unwrap();
    let node = tree.find_minimum(tree.root().unwrap());
    assert_eq!(3, node.key);
    tree.insert(1, 2).unwrap();
    tree.insert(5, 3).unwrap();
    tree.insert(20, 4).unwrap();
    tree.insert(25, 5).unwrap();
    tree.insert(30, 5).unwrap();
    tree.insert(40, 6).unwrap();
    tree.insert(8, 6).unwrap();
    tree.insert(9, 6).unwrap();
    tree.insert(50, 6).unwrap();
    tree.insert(60, 6).unwrap();
    let node = tree.find_minimum(tree.root().unwrap());
    assert_eq!(1, node.key);
    let node = tree.find_minimum(tree.root().unwrap().left().unwrap().right().unwrap());
    assert_eq!(5, node.key);
    let node = tree.find_minimum(tree.root().unwrap().right().unwrap());
    assert_eq!(20, node.key);
    let node = tree.find_minimum(tree.root().unwrap().right().unwrap().right().unwrap());
    assert_eq!(30, node.key);
    let node = tree.find_minimum(tree.root().unwrap().right().unwrap().right().unwrap().right().unwrap());
    assert_eq!(50, node.key);
}

#[test]
fn find() {
    let mut tree: RBTree<usize> = RBTree::new();
    let node = tree.find(15);
    assert!(node.is_none());
    tree.insert(10, 2).unwrap();
    tree.insert(3, 1).unwrap();
    tree.insert(1, 2).unwrap();
    tree.insert(5, 3).unwrap();
    tree.insert(20, 4).unwrap();
    tree.insert(25, 5).unwrap();
    tree.insert(30, 5).unwrap();
    tree.insert(40, 6).unwrap();
    tree.insert(8, 6).unwrap();
    tree.insert(9, 6).unwrap();
    tree.insert(50, 6).unwrap();
    tree.insert(60, 6).unwrap();
    let node = tree.find(3);
    assert_eq!(3, node.unwrap().key);
    assert_eq!(Color::Black, node.unwrap().color);
    let node = tree.find(40);
    assert_eq!(40, node.unwrap().key);
    assert_eq!(Color::Red, node.unwrap().color);
    let node = tree.find(15);
    assert!(node.is_none());
}

#[test]
fn remove() {
    let mut tree: RBTree<usize> = RBTree::new();
    tree.insert(10, 2).unwrap();
    tree.remove(10).unwrap();
    assert_eq!(0, tree.len());
    tree.insert(10, 2).unwrap();
    tree.insert(3, 1).unwrap();
    tree.remove(10).unwrap();
    assert_eq!(1, tree.len());
    assert_eq!(3, tree.root().unwrap().key);
    assert_eq!(Color::Black, tree.root().unwrap().color);
    tree.insert(1, 2).unwrap();
    tree.insert(5, 3).unwrap();
    tree.insert(20, 4).unwrap();
    tree.insert(25, 5).unwrap();
    tree.insert(30, 5).unwrap();
    tree.insert(40, 6).unwrap();
    tree.insert(8, 6).unwrap();
    tree.insert(9, 6).unwrap();
    tree.insert(50, 6).unwrap();
    tree.insert(60, 6).unwrap();
    tree.remove(20).unwrap();
    assert_eq!(10, tree.len());
    assert_eq!(25, tree.root().unwrap().key);
    assert_eq!(Color::Black, tree.root().unwrap().color);
    assert_eq!(3, tree.root().unwrap().left().unwrap().key);
    assert_eq!(Color::Red, tree.root().unwrap().left().unwrap().color);
    assert_eq!(50, tree.root().unwrap().right().unwrap().key);
    assert_eq!(Color::Red, tree.root().unwrap().right().unwrap().color);
    assert_eq!(1, tree.root().unwrap().left().unwrap().left().unwrap().key);
    assert_eq!(Color::Black, tree.root().unwrap().left().unwrap().left().unwrap().color);
    assert_eq!(8, tree.root().unwrap().left().unwrap().right().unwrap().key);
    assert_eq!(Color::Black, tree.root().unwrap().left().unwrap().right().unwrap().color);
    assert_eq!(30, tree.root().unwrap().right().unwrap().left().unwrap().key);
    assert_eq!(Color::Black, tree.root().unwrap().right().unwrap().left().unwrap().color);
    assert_eq!(60, tree.root().unwrap().right().unwrap().right().unwrap().key);
    assert_eq!(Color::Black, tree.root().unwrap().right().unwrap().right().unwrap().color);
    assert_eq!(5, tree.root().unwrap().left().unwrap().right().unwrap().left().unwrap().key);
    assert_eq!(Color::Red, tree.root().unwrap().left().unwrap().right().unwrap().left().unwrap().color);
    assert_eq!(9, tree.root().unwrap().left().unwrap().right().unwrap().right().unwrap().key);
    assert_eq!(Color::Red, tree.root().unwrap().left().unwrap().right().unwrap().right().unwrap().color);
    assert_eq!(40, tree.root().unwrap().right().unwrap().left().unwrap().right().unwrap().key);
    assert_eq!(Color::Red, tree.root().unwrap().right().unwrap().left().unwrap().right().unwrap().color);
    tree.remove(40).unwrap();
    assert_eq!(9, tree.len());
    assert_eq!(25, tree.root().unwrap().key);
    assert_eq!(Color::Black, tree.root().unwrap().color);
    assert_eq!(3, tree.root().unwrap().left().unwrap().key);
    assert_eq!(Color::Red, tree.root().unwrap().left().unwrap().color);
    assert_eq!(50, tree.root().unwrap().right().unwrap().key);
    assert_eq!(Color::Red, tree.root().unwrap().right().unwrap().color);
    assert_eq!(1, tree.root().unwrap().left().unwrap().left().unwrap().key);
    assert_eq!(Color::Black, tree.root().unwrap().left().unwrap().left().unwrap().color);
    assert_eq!(8, tree.root().unwrap().left().unwrap().right().unwrap().key);
    assert_eq!(Color::Black, tree.root().unwrap().left().unwrap().right().unwrap().color);
    assert_eq!(30, tree.root().unwrap().right().unwrap().left().unwrap().key);
    assert_eq!(Color::Black, tree.root().unwrap().right().unwrap().left().unwrap().color);
    assert_eq!(60, tree.root().unwrap().right().unwrap().right().unwrap().key);
    assert_eq!(Color::Black, tree.root().unwrap().right().unwrap().right().unwrap().color);
    assert_eq!(5, tree.root().unwrap().left().unwrap().right().unwrap().left().unwrap().key);
    assert_eq!(Color::Red, tree.root().unwrap().left().unwrap().right().unwrap().left().unwrap().color);
    assert_eq!(9, tree.root().unwrap().left().unwrap().right().unwrap().right().unwrap().key);
    assert_eq!(Color::Red, tree.root().unwrap().left().unwrap().right().unwrap().right().unwrap().color);
    tree.remove(1).unwrap();
    assert_eq!(8, tree.len());
    assert_eq!(25, tree.root().unwrap().key);
    assert_eq!(Color::Black, tree.root().unwrap().color);
    assert_eq!(8, tree.root().unwrap().left().unwrap().key);
    assert_eq!(Color::Red, tree.root().unwrap().left().unwrap().color);
    assert_eq!(50, tree.root().unwrap().right().unwrap().key);
    assert_eq!(Color::Red, tree.root().unwrap().right().unwrap().color);
    assert_eq!(3, tree.root().unwrap().left().unwrap().left().unwrap().key);
    assert_eq!(Color::Black, tree.root().unwrap().left().unwrap().left().unwrap().color);
    assert_eq!(9, tree.root().unwrap().left().unwrap().right().unwrap().key);
    assert_eq!(Color::Black, tree.root().unwrap().left().unwrap().right().unwrap().color);
    assert_eq!(30, tree.root().unwrap().right().unwrap().left().unwrap().key);
    assert_eq!(Color::Black, tree.root().unwrap().right().unwrap().left().unwrap().color);
    assert_eq!(60, tree.root().unwrap().right().unwrap().right().unwrap().key);
    assert_eq!(Color::Black, tree.root().unwrap().right().unwrap().right().unwrap().color);
    assert_eq!(5, tree.root().unwrap().left().unwrap().left().unwrap().right().unwrap().key);
    assert_eq!(Color::Red, tree.root().unwrap().left().unwrap().left().unwrap().right().unwrap().color);
    tree.remove(9).unwrap();
    assert_eq!(7, tree.len());
    assert_eq!(25, tree.root().unwrap().key);
    assert_eq!(Color::Black, tree.root().unwrap().color);
    assert_eq!(5, tree.root().unwrap().left().unwrap().key);
    assert_eq!(Color::Red, tree.root().unwrap().left().unwrap().color);
    assert_eq!(50, tree.root().unwrap().right().unwrap().key);
    assert_eq!(Color::Red, tree.root().unwrap().right().unwrap().color);
    assert_eq!(3, tree.root().unwrap().left().unwrap().left().unwrap().key);
    assert_eq!(Color::Black, tree.root().unwrap().left().unwrap().left().unwrap().color);
    assert_eq!(8, tree.root().unwrap().left().unwrap().right().unwrap().key);
    assert_eq!(Color::Black, tree.root().unwrap().left().unwrap().right().unwrap().color);
    assert_eq!(30, tree.root().unwrap().right().unwrap().left().unwrap().key);
    assert_eq!(Color::Black, tree.root().unwrap().right().unwrap().left().unwrap().color);
    assert_eq!(60, tree.root().unwrap().right().unwrap().right().unwrap().key);
    assert_eq!(Color::Black, tree.root().unwrap().right().unwrap().right().unwrap().color);
    let mut tree: RBTree<usize> = RBTree::new();
    tree.insert(10, 2).unwrap();
    tree.insert(3, 1).unwrap();
    tree.insert(1, 2).unwrap();
    tree.insert(5, 3).unwrap();
    tree.insert(20, 4).unwrap();
    tree.insert(25, 5).unwrap();
    tree.insert(30, 5).unwrap();
    tree.insert(40, 6).unwrap();
    tree.insert(8, 6).unwrap();
    tree.insert(9, 6).unwrap();
    tree.insert(50, 6).unwrap();
    tree.insert(60, 6).unwrap();
    assert_eq!(12, tree.len());
    tree.remove(20).unwrap();
    assert_eq!(11, tree.len());
    assert_eq!(10, tree.root().unwrap().key);
    assert_eq!(Color::Black, tree.root().unwrap().color);
    assert_eq!(3, tree.root().unwrap().left().unwrap().key);
    assert_eq!(Color::Black, tree.root().unwrap().left().unwrap().color);
    assert_eq!(40, tree.root().unwrap().right().unwrap().key);
    assert_eq!(Color::Black, tree.root().unwrap().right().unwrap().color);
    assert_eq!(1, tree.root().unwrap().left().unwrap().left().unwrap().key);
    assert_eq!(Color::Black, tree.root().unwrap().left().unwrap().left().unwrap().color);
    assert_eq!(8, tree.root().unwrap().left().unwrap().right().unwrap().key);
    assert_eq!(Color::Black, tree.root().unwrap().left().unwrap().right().unwrap().color);
    assert_eq!(25, tree.root().unwrap().right().unwrap().left().unwrap().key);
    assert_eq!(Color::Black, tree.root().unwrap().right().unwrap().left().unwrap().color);
    assert_eq!(50, tree.root().unwrap().right().unwrap().right().unwrap().key);
    assert_eq!(Color::Black, tree.root().unwrap().right().unwrap().right().unwrap().color);
    assert_eq!(5, tree.root().unwrap().left().unwrap().right().unwrap().left().unwrap().key);
    assert_eq!(Color::Red, tree.root().unwrap().left().unwrap().right().unwrap().left().unwrap().color);
    assert_eq!(9, tree.root().unwrap().left().unwrap().right().unwrap().right().unwrap().key);
    assert_eq!(Color::Red, tree.root().unwrap().left().unwrap().right().unwrap().right().unwrap().color);
    assert_eq!(30, tree.root().unwrap().right().unwrap().left().unwrap().right().unwrap().key);
    assert_eq!(Color::Red, tree.root().unwrap().right().unwrap().left().unwrap().right().unwrap().color);
    assert_eq!(60, tree.root().unwrap().right().unwrap().right().unwrap().right().unwrap().key);
    assert_eq!(Color::Red, tree.root().unwrap().right().unwrap().right().unwrap().right().unwrap().color);
    assert!(tree.root().unwrap().right().unwrap().left().unwrap().left().is_none());
    let mut tree: RBTree<usize> = RBTree::new();
    tree.insert(10, 2).unwrap();
    tree.insert(3, 1).unwrap();
    tree.insert(1, 2).unwrap();
    tree.insert(5, 3).unwrap();
    tree.insert(20, 4).unwrap();
    tree.insert(25, 5).unwrap();
    tree.insert(30, 5).unwrap();
    tree.insert(40, 6).unwrap();
    tree.insert(8, 6).unwrap();
    tree.insert(9, 6).unwrap();
    tree.insert(50, 6).unwrap();
    tree.insert(60, 6).unwrap();
    tree.insert(19, 6).unwrap();
    assert_eq!(13, tree.len());
    tree.remove(20).unwrap();
    assert_eq!(12, tree.len());
    assert_eq!(10, tree.root().unwrap().key);
    assert_eq!(Color::Black, tree.root().unwrap().color);
    assert_eq!(3, tree.root().unwrap().left().unwrap().key);
    assert_eq!(Color::Black, tree.root().unwrap().left().unwrap().color);
    assert_eq!(25, tree.root().unwrap().right().unwrap().key);
    assert_eq!(Color::Black, tree.root().unwrap().right().unwrap().color);
    assert_eq!(1, tree.root().unwrap().left().unwrap().left().unwrap().key);
    assert_eq!(Color::Black, tree.root().unwrap().left().unwrap().left().unwrap().color);
    assert_eq!(8, tree.root().unwrap().left().unwrap().right().unwrap().key);
    assert_eq!(Color::Black, tree.root().unwrap().left().unwrap().right().unwrap().color);
    assert_eq!(19, tree.root().unwrap().right().unwrap().left().unwrap().key);
    assert_eq!(Color::Black, tree.root().unwrap().right().unwrap().left().unwrap().color);
    assert_eq!(40, tree.root().unwrap().right().unwrap().right().unwrap().key);
    assert_eq!(Color::Red, tree.root().unwrap().right().unwrap().right().unwrap().color);
    assert_eq!(5, tree.root().unwrap().left().unwrap().right().unwrap().left().unwrap().key);
    assert_eq!(Color::Red, tree.root().unwrap().left().unwrap().right().unwrap().left().unwrap().color);
    assert_eq!(9, tree.root().unwrap().left().unwrap().right().unwrap().right().unwrap().key);
    assert_eq!(Color::Red, tree.root().unwrap().left().unwrap().right().unwrap().right().unwrap().color);
    assert_eq!(30, tree.root().unwrap().right().unwrap().right().unwrap().left().unwrap().key);
    assert_eq!(Color::Black, tree.root().unwrap().right().unwrap().right().unwrap().left().unwrap().color);
    assert_eq!(50, tree.root().unwrap().right().unwrap().right().unwrap().right().unwrap().key);
    assert_eq!(Color::Black, tree.root().unwrap().right().unwrap().right().unwrap().right().unwrap().color);
    assert_eq!(60, tree.root().unwrap().right().unwrap().right().unwrap().right().unwrap().right().unwrap().key);
    assert_eq!(Color::Red, tree.root().unwrap().right().unwrap().right().unwrap().right().unwrap().right().unwrap().color);
}
