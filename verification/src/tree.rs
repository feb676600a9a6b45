//! Trees of nodes.
use vstd::prelude::*;

verus! {

/// The mathematical value of a node: an atom's characters, or a list of values.
pub enum NodeValue {
    /// An atom.
    Atom(Seq<char>),
    /// A list.
    List(Seq<NodeValue>),
}

/// The node reached from `v` by following the list indices in `path`.
pub open spec fn value_at_path(v: NodeValue, path: Seq<usize>) -> Option<NodeValue>
    decreases path.len(),
{
    if path.len() == 0 {
        Some(v)
    } else {
        match v {
            NodeValue::Atom(_) => None,
            NodeValue::List(items) => if path[0] < items.len() {
                value_at_path(items[path[0] as int], path.drop_first())
            } else {
                None
            },
        }
    }
}


/// A SISE node.
#[derive(Debug, PartialEq, Eq, Hash)]
pub enum Node {
    /// An atom, matching the grammar of `crate::util::is_valid_atom`.
    ///
    /// Atoms are not interpreted in any way; `crate::atom` provides functions
    /// to encode and decode atoms as strings, numbers and booleans.
    Atom(String),
    /// A list of nodes.
    List(Vec<Node>),
}

impl View for Node {
    type V = NodeValue;

    open spec fn view(&self) -> NodeValue
        decreases self,
    {
        match self {
            Node::Atom(a) => NodeValue::Atom(a@),
            Node::List(l) => NodeValue::List(
                Seq::new(
                    l@.len(),
                    |i: int|
                        if 0 <= i < l@.len() {
                            l@[i]@
                        } else {
                            NodeValue::Atom(Seq::empty())
                        },
                ),
            ),
        }
    }
}

/// The values of the nodes `l`.
pub open spec fn node_values(l: Seq<Node>) -> Seq<NodeValue> {
    Seq::new(l.len(), |i: int| l[i]@)
}

impl Node {
    /// Returns whether the node is an `Atom`.
    pub fn is_atom(&self) -> (r: bool)
        ensures
            r == (self is Atom),
    {
        match self {
            Node::Atom(_) => true,
            _ => false,
        }
    }

    /// Returns whether the node is a `List`.
    pub fn is_list(&self) -> (r: bool)
        ensures
            r == (self is List),
    {
        match self {
            Node::List(_) => true,
            _ => false,
        }
    }

    /// Consumes the node and returns the atom value if it is an `Atom`.
    pub fn into_atom(self) -> (r: Option<String>)
        ensures
            match self {
                Node::Atom(a) => r == Some(a),
                Node::List(_) => r is None,
            },
    {
        match self {
            Node::Atom(s) => Some(s),
            _ => None,
        }
    }

    /// Consumes the node and returns the list if it is a `List`.
    pub fn into_list(self) -> (r: Option<Vec<Node>>)
        ensures
            match self {
                Node::List(l) => r == Some(l),
                Node::Atom(_) => r is None,
            },
    {
        match self {
            Node::List(l) => Some(l),
            _ => None,
        }
    }

    /// Returns a reference to the atom value if the node is an `Atom`.
    pub fn as_atom(&self) -> (r: Option<&String>)
        ensures
            match self {
                Node::Atom(a) => r == Some(a),
                Node::List(_) => r is None,
            },
    {
        match self {
            Node::Atom(s) => Some(s),
            _ => None,
        }
    }

    /// Returns a reference to the list if the node is a `List`.
    pub fn as_list(&self) -> (r: Option<&Vec<Node>>)
        ensures
            match self {
                Node::List(l) => r == Some(l),
                Node::Atom(_) => r is None,
            },
    {
        match self {
            Node::List(l) => Some(l),
            _ => None,
        }
    }

    /// Returns a mutable reference to the atom value if the node is an `Atom`.
    pub fn as_mut_atom(&mut self) -> (r: Option<&mut String>)
        ensures
            match *old(self) {
                Node::Atom(a) => r matches Some(m) && *m == a && *final(self) == Node::Atom(*final(m)),
                Node::List(_) => r is None && *final(self) == *old(self),
            },
    {
        match self {
            Node::Atom(s) => Some(s),
            _ => None,
        }
    }

    /// Returns a mutable reference to the list if the node is a `List`.
    pub fn as_mut_list(&mut self) -> (r: Option<&mut Vec<Node>>)
        ensures
            match *old(self) {
                Node::List(l) => r matches Some(m) && *m == l && *final(self) == Node::List(*final(m)),
                Node::Atom(_) => r is None && *final(self) == *old(self),
            },
    {
        match self {
            Node::List(l) => Some(l),
            _ => None,
        }
    }

    /// Traverses a tree with indices from `path`.
    pub fn index_path(&self, path: &[usize]) -> (r: Option<&Node>)
        ensures
            match r {
                Some(n) => value_at_path(self@, path@) == Some(n@),
                None => value_at_path(self@, path@) is None,
            },
    {
        let mut current_node = self;
        let mut i: usize = 0;
        assert(path@.skip(0) =~= path@);
        while i < path.len()
            invariant
                i <= path@.len(),
                value_at_path(self@, path@) == value_at_path(current_node@, path@.skip(i as int)),
            decreases path.len() - i,
        {
            let index = path[i];
            let ghost rest = path@.skip(i as int);
            assert(rest[0] == index);
            assert(rest.drop_first() =~= path@.skip(i + 1));
            match current_node {
                Node::Atom(_) => {
                    return None;
                },
                Node::List(list) => {
                    if index < list.len() {
                        current_node = &list[index];
                    } else {
                        return None;
                    }
                },
            }
            i = i + 1;
        }
        assert(path@.skip(i as int) =~= Seq::<usize>::empty());
        Some(current_node)
    }
}

/// A SISE tree node.
#[derive(Debug, PartialEq, Eq, Hash)]
pub enum TreeNode {
    /// An atom, matching the grammar of `crate::util::is_valid_atom`.
    ///
    /// Atoms are not interpreted in any way; `crate::atom` provides functions
    /// to encode and decode atoms as strings, numbers and booleans.
    Atom(String),
    /// A list of nodes.
    List(Vec<TreeNode>),
}

impl View for TreeNode {
    type V = NodeValue;

    open spec fn view(&self) -> NodeValue
        decreases self,
    {
        match self {
            TreeNode::Atom(a) => NodeValue::Atom(a@),
            TreeNode::List(l) => NodeValue::List(
                Seq::new(
                    l@.len(),
                    |i: int|
                        if 0 <= i < l@.len() {
                            l@[i]@
                        } else {
                            NodeValue::Atom(Seq::empty())
                        },
                ),
            ),
        }
    }
}

/// The values of the nodes `l`.
pub open spec fn tree_node_values(l: Seq<TreeNode>) -> Seq<NodeValue> {
    Seq::new(l.len(), |i: int| l[i]@)
}

impl TreeNode {
    /// Returns whether the node is an `Atom`.
    pub fn is_atom(&self) -> (r: bool)
        ensures
            r == (self is Atom),
    {
        match self {
            TreeNode::Atom(_) => true,
            _ => false,
        }
    }

    /// Returns whether the node is a `List`.
    pub fn is_list(&self) -> (r: bool)
        ensures
            r == (self is List),
    {
        match self {
            TreeNode::List(_) => true,
            _ => false,
        }
    }

    /// Consumes the node and returns the atom value if it is an `Atom`.
    pub fn into_atom(self) -> (r: Option<String>)
        ensures
            match self {
                TreeNode::Atom(a) => r == Some(a),
                TreeNode::List(_) => r is None,
            },
    {
        match self {
            TreeNode::Atom(s) => Some(s),
            _ => None,
        }
    }

    /// Consumes the node and returns the list if it is a `List`.
    pub fn into_list(self) -> (r: Option<Vec<TreeNode>>)
        ensures
            match self {
                TreeNode::List(l) => r == Some(l),
                TreeNode::Atom(_) => r is None,
            },
    {
        match self {
            TreeNode::List(l) => Some(l),
            _ => None,
        }
    }

    /// Returns a reference to the atom value if the node is an `Atom`.
    pub fn as_atom(&self) -> (r: Option<&String>)
        ensures
            match self {
                TreeNode::Atom(a) => r == Some(a),
                TreeNode::List(_) => r is None,
            },
    {
        match self {
            TreeNode::Atom(s) => Some(s),
            _ => None,
        }
    }

    /// Returns a reference to the list if the node is a `List`.
    pub fn as_list(&self) -> (r: Option<&Vec<TreeNode>>)
        ensures
            match self {
                TreeNode::List(l) => r == Some(l),
                TreeNode::Atom(_) => r is None,
            },
    {
        match self {
            TreeNode::List(l) => Some(l),
            _ => None,
        }
    }

    /// Returns a mutable reference to the atom value if the node is an `Atom`.
    pub fn as_mut_atom(&mut self) -> (r: Option<&mut String>)
        ensures
            match *old(self) {
                TreeNode::Atom(a) => r matches Some(m) && *m == a && *final(self) == TreeNode::Atom(*final(m)),
                TreeNode::List(_) => r is None && *final(self) == *old(self),
            },
    {
        match self {
            TreeNode::Atom(s) => Some(s),
            _ => None,
        }
    }

    /// Returns a mutable reference to the list if the node is a `List`.
    pub fn as_mut_list(&mut self) -> (r: Option<&mut Vec<TreeNode>>)
        ensures
            match *old(self) {
                TreeNode::List(l) => r matches Some(m) && *m == l && *final(self) == TreeNode::List(*final(m)),
                TreeNode::Atom(_) => r is None && *final(self) == *old(self),
            },
    {
        match self {
            TreeNode::List(l) => Some(l),
            _ => None,
        }
    }

    /// Traverses a tree with indices from `path`.
    pub fn index_path(&self, path: &[usize]) -> (r: Option<&TreeNode>)
        ensures
            match r {
                Some(n) => value_at_path(self@, path@) == Some(n@),
                None => value_at_path(self@, path@) is None,
            },
    {
        let mut current_node = self;
        let mut i: usize = 0;
        assert(path@.skip(0) =~= path@);
        while i < path.len()
            invariant
                i <= path@.len(),
                value_at_path(self@, path@) == value_at_path(current_node@, path@.skip(i as int)),
            decreases path.len() - i,
        {
            let index = path[i];
            let ghost rest = path@.skip(i as int);
            assert(rest[0] == index);
            assert(rest.drop_first() =~= path@.skip(i + 1));
            match current_node {
                TreeNode::Atom(_) => {
                    return None;
                },
                TreeNode::List(list) => {
                    if index < list.len() {
                        current_node = &list[index];
                    } else {
                        return None;
                    }
                },
            }
            i = i + 1;
        }
        assert(path@.skip(i as int) =~= Seq::<usize>::empty());
        Some(current_node)
    }
}


impl Clone for Node {
    /// Returns a deep copy of the node.
    fn clone(&self) -> (r: Self)
        ensures
            r@ == self@,
        decreases self,
    {
        match self {
            Node::Atom(a) => Node::Atom(a.clone()),
            Node::List(l) => {
                let mut items: Vec<Node> = Vec::new();
                let mut i: usize = 0;
                while i < l.len()
                    invariant
                        *self == Node::List(*l),
                        i <= l@.len(),
                        items@.len() == i,
                        forall|j: int| 0 <= j < i ==> (#[trigger] items@[j])@ == l@[j]@,
                    decreases l.len() - i,
                {
                    assert(decreases_to!(*self => self->List_0));
                    assert(decreases_to!(self->List_0 => self->List_0@));
                    assert(decreases_to!(self->List_0@ => self->List_0@[i as int]));
                    let c = l[i].clone();
                    items.push(c);
                    i = i + 1;
                }
                let r = Node::List(items);
                assert(r@ == self@) by {
                    assert(r@->List_0 =~= self@->List_0);
                }
                r
            },
        }
    }
}

impl Clone for TreeNode {
    /// Returns a deep copy of the node.
    fn clone(&self) -> (r: Self)
        ensures
            r@ == self@,
        decreases self,
    {
        match self {
            TreeNode::Atom(a) => TreeNode::Atom(a.clone()),
            TreeNode::List(l) => {
                let mut items: Vec<TreeNode> = Vec::new();
                let mut i: usize = 0;
                while i < l.len()
                    invariant
                        *self == TreeNode::List(*l),
                        i <= l@.len(),
                        items@.len() == i,
                        forall|j: int| 0 <= j < i ==> (#[trigger] items@[j])@ == l@[j]@,
                    decreases l.len() - i,
                {
                    assert(decreases_to!(*self => self->List_0));
                    assert(decreases_to!(self->List_0 => self->List_0@));
                    assert(decreases_to!(self->List_0@ => self->List_0@[i as int]));
                    let c = l[i].clone();
                    items.push(c);
                    i = i + 1;
                }
                let r = TreeNode::List(items);
                assert(r@ == self@) by {
                    assert(r@->List_0 =~= self@->List_0);
                }
                r
            },
        }
    }
}

/// The value of a list node is the list of its items' values.
pub proof fn lemma_node_list_value(v: Vec<Node>)
    ensures
        Node::List(v)@ == NodeValue::List(node_values(v@)),
{
    assert(Node::List(v)@->List_0 =~= node_values(v@));
}

/// The value of a list node is the list of its items' values.
pub proof fn lemma_tree_node_list_value(v: Vec<TreeNode>)
    ensures
        TreeNode::List(v)@ == NodeValue::List(tree_node_values(v@)),
{
    assert(TreeNode::List(v)@->List_0 =~= tree_node_values(v@));
}
impl PartialEq<str> for Node {
    /// Whether the node is an atom with the text `other`.
    fn eq(&self, other: &str) -> (r: bool) {
        match self {
            Node::Atom(atom) => {
                let o = other.to_owned();
                atom.eq(&o)
            },
            Node::List(_) => false,
        }
    }
}

impl vstd::std_specs::cmp::PartialEqSpecImpl<str> for Node {
    open spec fn obeys_eq_spec() -> bool {
        true
    }

    open spec fn eq_spec(&self, other: &str) -> bool {
        match self {
            Node::Atom(atom) => atom@ == other@,
            Node::List(_) => false,
        }
    }
}

impl<'b> PartialEq<&'b str> for Node {
    /// Whether the node is an atom with the text `other`.
    fn eq(&self, other: &&'b str) -> (r: bool) {
        match self {
            Node::Atom(atom) => {
                let o = (*other).to_owned();
                atom.eq(&o)
            },
            Node::List(_) => false,
        }
    }
}

impl<'b> vstd::std_specs::cmp::PartialEqSpecImpl<&'b str> for Node {
    open spec fn obeys_eq_spec() -> bool {
        true
    }

    open spec fn eq_spec(&self, other: &&'b str) -> bool {
        match self {
            Node::Atom(atom) => atom@ == (*other)@,
            Node::List(_) => false,
        }
    }
}

impl PartialEq<String> for Node {
    /// Whether the node is an atom with the text `other`.
    fn eq(&self, other: &String) -> (r: bool) {
        match self {
            Node::Atom(atom) => atom.eq(other),
            Node::List(_) => false,
        }
    }
}

impl vstd::std_specs::cmp::PartialEqSpecImpl<String> for Node {
    open spec fn obeys_eq_spec() -> bool {
        true
    }

    open spec fn eq_spec(&self, other: &String) -> bool {
        match self {
            Node::Atom(atom) => atom@ == other@,
            Node::List(_) => false,
        }
    }
}

impl<'a> From<&'a str> for Node {
    /// An atom with the text `atom`.
    fn from(atom: &'a str) -> (r: Self)
        ensures
            r@ == NodeValue::Atom(atom@),
    {
        Node::Atom(atom.to_owned())
    }
}

impl<'a> vstd::std_specs::convert::FromSpecImpl<&'a str> for Node {
    open spec fn obeys_from_spec() -> bool {
        false
    }

    open spec fn from_spec(v: &'a str) -> Self {
        vstd::pervasive::arbitrary()
    }
}

impl From<String> for Node {
    /// An atom with the text `atom`.
    fn from(atom: String) -> (r: Self) {
        Node::Atom(atom)
    }
}

impl vstd::std_specs::convert::FromSpecImpl<String> for Node {
    open spec fn obeys_from_spec() -> bool {
        true
    }

    open spec fn from_spec(v: String) -> Self {
        Node::Atom(v)
    }
}

impl From<Vec<Node>> for Node {
    /// A list with the items `list`.
    fn from(list: Vec<Node>) -> (r: Self) {
        Node::List(list)
    }
}

impl vstd::std_specs::convert::FromSpecImpl<Vec<Node>> for Node {
    open spec fn obeys_from_spec() -> bool {
        true
    }

    open spec fn from_spec(v: Vec<Node>) -> Self {
        Node::List(v)
    }
}

impl PartialEq<str> for TreeNode {
    /// Whether the node is an atom with the text `other`.
    fn eq(&self, other: &str) -> (r: bool) {
        match self {
            TreeNode::Atom(atom) => {
                let o = other.to_owned();
                atom.eq(&o)
            },
            TreeNode::List(_) => false,
        }
    }
}

impl vstd::std_specs::cmp::PartialEqSpecImpl<str> for TreeNode {
    open spec fn obeys_eq_spec() -> bool {
        true
    }

    open spec fn eq_spec(&self, other: &str) -> bool {
        match self {
            TreeNode::Atom(atom) => atom@ == other@,
            TreeNode::List(_) => false,
        }
    }
}

impl<'b> PartialEq<&'b str> for TreeNode {
    /// Whether the node is an atom with the text `other`.
    fn eq(&self, other: &&'b str) -> (r: bool) {
        match self {
            TreeNode::Atom(atom) => {
                let o = (*other).to_owned();
                atom.eq(&o)
            },
            TreeNode::List(_) => false,
        }
    }
}

impl<'b> vstd::std_specs::cmp::PartialEqSpecImpl<&'b str> for TreeNode {
    open spec fn obeys_eq_spec() -> bool {
        true
    }

    open spec fn eq_spec(&self, other: &&'b str) -> bool {
        match self {
            TreeNode::Atom(atom) => atom@ == (*other)@,
            TreeNode::List(_) => false,
        }
    }
}

impl PartialEq<String> for TreeNode {
    /// Whether the node is an atom with the text `other`.
    fn eq(&self, other: &String) -> (r: bool) {
        match self {
            TreeNode::Atom(atom) => atom.eq(other),
            TreeNode::List(_) => false,
        }
    }
}

impl vstd::std_specs::cmp::PartialEqSpecImpl<String> for TreeNode {
    open spec fn obeys_eq_spec() -> bool {
        true
    }

    open spec fn eq_spec(&self, other: &String) -> bool {
        match self {
            TreeNode::Atom(atom) => atom@ == other@,
            TreeNode::List(_) => false,
        }
    }
}

impl<'a> From<&'a str> for TreeNode {
    /// An atom with the text `atom`.
    fn from(atom: &'a str) -> (r: Self)
        ensures
            r@ == NodeValue::Atom(atom@),
    {
        TreeNode::Atom(atom.to_owned())
    }
}

impl<'a> vstd::std_specs::convert::FromSpecImpl<&'a str> for TreeNode {
    open spec fn obeys_from_spec() -> bool {
        false
    }

    open spec fn from_spec(v: &'a str) -> Self {
        vstd::pervasive::arbitrary()
    }
}

impl From<String> for TreeNode {
    /// An atom with the text `atom`.
    fn from(atom: String) -> (r: Self) {
        TreeNode::Atom(atom)
    }
}

impl vstd::std_specs::convert::FromSpecImpl<String> for TreeNode {
    open spec fn obeys_from_spec() -> bool {
        true
    }

    open spec fn from_spec(v: String) -> Self {
        TreeNode::Atom(v)
    }
}

impl From<Vec<TreeNode>> for TreeNode {
    /// A list with the items `list`.
    fn from(list: Vec<TreeNode>) -> (r: Self) {
        TreeNode::List(list)
    }
}

impl vstd::std_specs::convert::FromSpecImpl<Vec<TreeNode>> for TreeNode {
    open spec fn obeys_from_spec() -> bool {
        true
    }

    open spec fn from_spec(v: Vec<TreeNode>) -> Self {
        TreeNode::List(v)
    }
}

} // verus!
