use data_structures::binary_tree::BinaryTree;
use data_structures::binary_tree::Node;

#[test]
fn builds_a_small_tree() {
    let mut root = Node::new(1);
    root.append_left(Box::new(Node::new(2)));
    root.append_right(Box::new(Node::new(3)));
    root.append_left(Box::new(Node::new(4)));
    let _tree = BinaryTree::new(Box::new(root));
}
