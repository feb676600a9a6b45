use sise::builder::BuilderBase;
use sise::tree::{Node, TreeNode};

fn a(s: &str) -> Node {
    Node::from(s)
}

fn l(items: Vec<Node>) -> Node {
    Node::from(items)
}

fn ta(s: &str) -> TreeNode {
    TreeNode::from(s)
}

fn tl(items: Vec<TreeNode>) -> TreeNode {
    TreeNode::from(items)
}

#[test]
fn test_node_index_path() {
    // (example (1 2 3) (a b c))
    let tree = l(vec![a("example"), l(vec![a("1"), a("2"), a("3")]), l(vec![a("a"), a("b"), a("c")])]);
    assert_eq!(*tree.index_path(&[]).unwrap(), tree);
    assert_eq!(*tree.index_path(&[0]).unwrap(), "example");
    assert_eq!(*tree.index_path(&[1]).unwrap(), l(vec![a("1"), a("2"), a("3")]));
    assert_eq!(tree.index_path(&[1, 0]).unwrap(), "1");
    assert_eq!(tree.index_path(&[2, 0]).unwrap(), "a");
    assert!(tree.index_path(&[3]).is_none());
    assert!(tree.index_path(&[0, 1]).is_none());
}

#[test]
fn test_tree_node_index_path() {
    // (example (1 2 3) (a b c))
    let tree = tl(vec![
        ta("example"),
        tl(vec![ta("1"), ta("2"), ta("3")]),
        tl(vec![ta("a"), ta("b"), ta("c")]),
    ]);
    assert_eq!(*tree.index_path(&[]).unwrap(), tree);
    assert_eq!(*tree.index_path(&[0]).unwrap(), "example");
    assert_eq!(*tree.index_path(&[1]).unwrap(), tl(vec![ta("1"), ta("2"), ta("3")]));
    assert_eq!(tree.index_path(&[1, 0]).unwrap(), "1");
    assert_eq!(tree.index_path(&[2, 0]).unwrap(), "a");
    assert!(tree.index_path(&[3]).is_none());
    assert!(tree.index_path(&[0, 1]).is_none());
}

#[test]
fn test_node_compares_with_text() {
    let atom = a("x-1");
    assert!(atom == *"x-1");
    assert!(atom == "x-1");
    assert!(atom == String::from("x-1"));
    assert!(atom != "x-2");
    let list = l(vec![a("x-1")]);
    assert!(list != "x-1");
    assert!(list != String::from("x-1"));

    let atom = ta("x-1");
    assert!(atom == *"x-1");
    assert!(atom == "x-1");
    assert!(atom == String::from("x-1"));
    assert!(tl(vec![]) != "");
}

#[test]
fn test_node_accessors() {
    let mut atom = Node::from(String::from("abc"));
    assert!(atom.is_atom());
    assert!(!atom.is_list());
    assert_eq!(atom.as_atom(), Some(&String::from("abc")));
    assert!(atom.as_list().is_none());
    atom.as_mut_atom().unwrap().push('d');
    assert_eq!(atom.clone().into_atom(), Some(String::from("abcd")));
    assert!(atom.clone().into_list().is_none());

    let mut list = l(vec![a("1")]);
    assert!(list.is_list());
    assert!(!list.is_atom());
    assert!(list.as_atom().is_none());
    assert!(list.as_mut_atom().is_none());
    list.as_mut_list().unwrap().push(a("2"));
    assert_eq!(list.as_list().unwrap().len(), 2);
    assert_eq!(list.clone(), l(vec![a("1"), a("2")]));
    assert_eq!(list.into_list(), Some(vec![a("1"), a("2")]));
}

#[test]
fn test_tree_node_accessors() {
    let mut atom = TreeNode::from(String::from("abc"));
    assert!(atom.is_atom());
    assert!(!atom.is_list());
    atom.as_mut_atom().unwrap().push('d');
    assert_eq!(atom.as_atom(), Some(&String::from("abcd")));
    assert_eq!(atom.clone().into_atom(), Some(String::from("abcd")));

    let mut list = tl(vec![]);
    assert!(list.is_list());
    list.as_mut_list().unwrap().push(ta("z"));
    assert_eq!(list.as_list().unwrap().len(), 1);
    assert!(list.as_atom().is_none());
    assert_eq!(list.into_list(), Some(vec![ta("z")]));
}

#[test]
fn test_builder() {
    let mut builder_base = BuilderBase::new();
    let mut builder = builder_base.builder();

    // Build (atom-1 atom-2 (atom-3 atom-4) atom-5)
    builder.add_node("atom-1");
    assert_eq!(builder.last_index_path(), [0]);
    builder.add_node("atom-2");
    assert_eq!(builder.last_index_path(), [1]);
    builder.begin_list();
    builder.add_node("atom-3");
    assert_eq!(builder.last_index_path(), [2, 0]);
    builder.add_node("atom-4");
    assert_eq!(builder.last_index_path(), [2, 1]);
    builder.end_list();
    assert_eq!(builder.last_index_path(), [2]);
    builder.add_node("atom-5");
    assert_eq!(builder.last_index_path(), [3]);
    builder.finish();

    let root_node = builder_base.into_node();
    let expected = l(vec![a("atom-1"), a("atom-2"), l(vec![a("atom-3"), a("atom-4")]), a("atom-5")]);
    assert_eq!(root_node, expected);
}

#[test]
fn test_sub_builder() {
    let mut builder_base = BuilderBase::default();
    let mut builder = builder_base.builder();
    assert_eq!(builder.last_index_path(), Vec::<usize>::new());
    builder.begin_list();
    {
        let mut sub = builder.sub_builder();
        sub.add_node(String::from("x"));
        sub.begin_list();
        sub.add_node(vec![a("y")]);
        assert_eq!(sub.last_index_path(), [0, 1, 0]);
        sub.end_list();
        sub.finish();
    }
    builder.end_list();
    builder.finish();
    assert_eq!(builder_base.into_node(), l(vec![l(vec![a("x"), l(vec![l(vec![a("y")])])])]));
}
