//! Parse-tree nodes and their DOT serialization.
//!
//! A node is either an interior node (drawn as a circle) or a leaf (drawn as
//! a box); `generate_dot_format` renders a tree in the DOT language. The
//! contracts state the emitted text exactly, over the mathematical view of
//! the tree.
use vstd::prelude::*;
use vstd::string::StringExecFns;

use crate::text::dec_digits;

verus! {

#[derive(Copy, Clone, Debug)]
enum Shape {
    Circle,
    Rect,
}

#[derive(Debug)]
pub struct GraphVizNode {
    id: String,
    label: String,
    shape: Shape,
    children: Vec<GraphVizNode>,
}

/// The mathematical view of a node: its texts, whether it is an interior
/// node, and the views of its children in order.
#[verifier::ext_equal]
pub struct NodeV {
    pub id: Seq<char>,
    pub label: Seq<char>,
    pub circle: bool,
    pub children: Seq<NodeV>,
}

impl View for GraphVizNode {
    type V = NodeV;

    closed spec fn view(&self) -> NodeV {
        node_view(*self)
    }
}

closed spec fn node_view(n: GraphVizNode) -> NodeV
    decreases n, 0int,
{
    NodeV {
        id: n.id@,
        label: n.label@,
        circle: n.shape is Circle,
        children: node_view_list(n.children@, 0),
    }
}

closed spec fn node_view_list(s: Seq<GraphVizNode>, i: int) -> Seq<NodeV>
    decreases s, s.len() - i,
{
    if 0 <= i < s.len() {
        seq![node_view(s[i])] + node_view_list(s, i + 1)
    } else {
        Seq::empty()
    }
}

proof fn lemma_node_view_list(s: Seq<GraphVizNode>, i: int)
    requires
        0 <= i <= s.len(),
    ensures
        node_view_list(s, i).len() == s.len() - i,
        forall|j: int|
            0 <= j < s.len() - i ==> #[trigger] node_view_list(s, i)[j] == node_view(s[i + j]),
    decreases s.len() - i,
{
    if i < s.len() {
        lemma_node_view_list(s, i + 1);
    }
}

/// One line declaring a node: indentation, id, shape and label.
pub open spec fn dot_node_line(nv: NodeV) -> Seq<char> {
    "    "@ + nv.id + "[shape="@ + (if nv.circle {
        "circle"@
    } else {
        "box"@
    }) + ", label="@ + nv.label + "]\n"@
}

/// The node-declaration lines of a whole tree, in preorder.
pub open spec fn dot_nodes(nv: NodeV) -> Seq<char>
    decreases nv, 0int,
{
    dot_node_line(nv) + dot_nodes_list(nv.children, 0)
}

pub open spec fn dot_nodes_list(s: Seq<NodeV>, i: int) -> Seq<char>
    decreases s, s.len() - i,
{
    if 0 <= i < s.len() {
        dot_nodes(s[i]) + dot_nodes_list(s, i + 1)
    } else {
        Seq::empty()
    }
}

/// The child ids of a node, joined with commas.
pub open spec fn dot_ids_join(s: Seq<NodeV>, i: int) -> Seq<char>
    decreases s.len() - i,
{
    if 0 <= i < s.len() {
        (if i > 0 {
            ","@
        } else {
            Seq::empty()
        }) + s[i].id + dot_ids_join(s, i + 1)
    } else {
        Seq::empty()
    }
}

/// The edge lines of a whole tree: for each node with children, one line
/// listing the ids of its children, in preorder.
pub open spec fn dot_paths(nv: NodeV) -> Seq<char>
    decreases nv, 0int,
{
    if nv.children.len() == 0 {
        Seq::empty()
    } else {
        "    "@ + nv.id + "->{"@ + dot_ids_join(nv.children, 0) + "}\n"@ + dot_paths_list(
            nv.children,
            0,
        )
    }
}

pub open spec fn dot_paths_list(s: Seq<NodeV>, i: int) -> Seq<char>
    decreases s, s.len() - i,
{
    if 0 <= i < s.len() {
        dot_paths(s[i]) + dot_paths_list(s, i + 1)
    } else {
        Seq::empty()
    }
}

/// The complete DOT document for a tree.
pub open spec fn dot_text(nv: NodeV) -> Seq<char> {
    "digraph ParseTree {\n"@ + dot_nodes(nv) + "\n"@ + dot_paths(nv) + "}"@
}

impl GraphVizNode {
    fn new(id: String, label: String, shape: Shape, children: Vec<GraphVizNode>) -> (r:
        GraphVizNode)
        ensures
            r@ == (NodeV {
                id: id@,
                label: label@,
                circle: shape is Circle,
                children: children@.map_values(|c: GraphVizNode| c@),
            }),
    {
        let r = GraphVizNode { id, children, label, shape };
        proof {
            lemma_node_view_list(r.children@, 0);
            assert(r@.children =~= r.children@.map_values(|c: GraphVizNode| c@));
            assert(r@ =~= NodeV {
                id: r.id@,
                label: r.label@,
                circle: r.shape is Circle,
                children: r.children@.map_values(|c: GraphVizNode| c@),
            });
        }
        r
    }

    /// A leaf node, drawn as a box.
    pub fn new_leaf(id: String, label: String) -> (r: GraphVizNode)
        ensures
            r@ == (NodeV { id: id@, label: label@, circle: false, children: Seq::empty() }),
    {
        let r = GraphVizNode::new(id, label, Shape::Rect, Vec::new());
        proof {
            assert(r@.children =~= Seq::<NodeV>::empty());
            assert(r@ =~= NodeV { id: r@.id, label: r@.label, circle: false, children: Seq::empty() });
        }
        r
    }

    /// An interior node, drawn as a circle, with its children in order.
    pub fn new_node(id: String, label: String, children: Vec<GraphVizNode>) -> (r: GraphVizNode)
        ensures
            r@ == (NodeV {
                id: id@,
                label: label@,
                circle: true,
                children: children@.map_values(|c: GraphVizNode| c@),
            }),
    {
        GraphVizNode::new(id, label, Shape::Circle, children)
    }

    fn to_dot_language(&self) -> (r: String)
        ensures
            r@ == dot_text(self@),
    {
        let mut buffer = String::new();
        buffer.append("digraph ParseTree {\n");
        self.generates_nodes(&mut buffer);
        buffer.append("\n");
        self.generate_paths(&mut buffer);
        buffer.append("}");
        proof {
            assert(buffer@ =~= dot_text(self@));
        }
        buffer
    }

    fn generates_nodes(&self, buffer: &mut String)
        ensures
            final(buffer)@ == old(buffer)@ + dot_nodes(self@),
        decreases *self,
    {
        buffer.append("    ");
        buffer.append(self.id.as_str());
        buffer.append("[shape=");
        match self.shape {
            Shape::Circle => buffer.append("circle"),
            Shape::Rect => buffer.append("box"),
        }
        buffer.append(", label=");
        buffer.append(self.label.as_str());
        buffer.append("]\n");
        proof {
            assert(buffer@ =~= old(buffer)@ + dot_node_line(self@));
        }
        let ghost head = buffer@;
        let n = self.children.len();
        proof {
            lemma_node_view_list(self.children@, 0);
        }
        let mut i: usize = 0;
        while i < n
            invariant
                n == self.children.len(),
                i <= n,
                self@.children.len() == n,
                head + dot_nodes_list(self@.children, 0) == buffer@ + dot_nodes_list(
                    self@.children,
                    i as int,
                ),
            decreases n - i,
        {
            let child = &self.children[i];
            proof {
                lemma_node_view_list(self.children@, 0);
                assert(self@.children[i as int] == child@);
                assert(decreases_to!(*self => *child));
            }
            child.generates_nodes(buffer);
            proof {
                assert(head + dot_nodes_list(self@.children, 0) =~= buffer@ + dot_nodes_list(
                    self@.children,
                    i + 1,
                ));
            }
            i = i + 1;
        }
        proof {
            assert(head + dot_nodes_list(self@.children, 0) =~= buffer@);
            assert(old(buffer)@ + dot_nodes(self@) =~= buffer@);
        }
    }

    fn generate_paths(&self, buffer: &mut String)
        ensures
            final(buffer)@ == old(buffer)@ + dot_paths(self@),
        decreases *self,
    {
        let n = self.children.len();
        proof {
            lemma_node_view_list(self.children@, 0);
        }
        if n == 0 {
            proof {
                assert(old(buffer)@ + dot_paths(self@) =~= buffer@);
            }
            return ;
        }
        buffer.append("    ");
        buffer.append(self.id.as_str());
        buffer.append("->{");
        let ghost head0 = buffer@;
        let mut i: usize = 0;
        while i < n
            invariant
                n == self.children.len(),
                n > 0,
                i <= n,
                self@.children.len() == n,
                head0 + dot_ids_join(self@.children, 0) == buffer@ + dot_ids_join(
                    self@.children,
                    i as int,
                ),
            decreases n - i,
        {
            if i > 0 {
                buffer.append(",");
            }
            buffer.append(self.children[i].id.as_str());
            proof {
                lemma_node_view_list(self.children@, 0);
                assert(self@.children[i as int] == self.children@[i as int]@);
                assert(head0 + dot_ids_join(self@.children, 0) =~= buffer@ + dot_ids_join(
                    self@.children,
                    i + 1,
                ));
            }
            i = i + 1;
        }
        buffer.append("}\n");
        let ghost head = buffer@;
        proof {
            assert(head =~= old(buffer)@ + "    "@ + self@.id + "->{"@ + dot_ids_join(
                self@.children,
                0,
            ) + "}\n"@);
        }
        let mut j: usize = 0;
        while j < n
            invariant
                n == self.children.len(),
                j <= n,
                self@.children.len() == n,
                head + dot_paths_list(self@.children, 0) == buffer@ + dot_paths_list(
                    self@.children,
                    j as int,
                ),
            decreases n - j,
        {
            let child = &self.children[j];
            proof {
                lemma_node_view_list(self.children@, 0);
                assert(self@.children[j as int] == child@);
                assert(decreases_to!(*self => *child));
            }
            child.generate_paths(buffer);
            proof {
                assert(head + dot_paths_list(self@.children, 0) =~= buffer@ + dot_paths_list(
                    self@.children,
                    j + 1,
                ));
            }
            j = j + 1;
        }
        proof {
            assert(old(buffer)@ + dot_paths(self@) =~= buffer@);
        }
    }
}

/// Serializes a parse tree to the DOT language.
pub fn generate_dot_format(syntax_tree: &GraphVizNode) -> (r: String)
    ensures
        r@ == dot_text(syntax_tree@),
{
    syntax_tree.to_dot_language()
}

/// The number of nodes of a tree.
pub open spec fn tree_size(nv: NodeV) -> nat
    decreases nv, 0int,
{
    1 + tree_size_list(nv.children, 0)
}

pub open spec fn tree_size_list(s: Seq<NodeV>, i: int) -> nat
    decreases s, s.len() - i,
{
    if 0 <= i < s.len() {
        tree_size(s[i]) + tree_size_list(s, i + 1)
    } else {
        0
    }
}

/// The ids of the tree are the decimal notations of consecutive counter
/// values, assigned in preorder starting from `c0`.
pub open spec fn ids_consecutive(nv: NodeV, c0: nat) -> bool
    decreases nv, 0int,
{
    nv.id == dec_digits(c0) && ids_consecutive_list(nv.children, c0 + 1, 0)
}

pub open spec fn ids_consecutive_list(s: Seq<NodeV>, c0: nat, i: int) -> bool
    decreases s, s.len() - i,
{
    if 0 <= i < s.len() {
        ids_consecutive(s[i], c0) && ids_consecutive_list(s, c0 + tree_size(s[i]), i + 1)
    } else {
        true
    }
}

/// `d` is a proper descendant of `a`.
pub open spec fn is_descendant(a: NodeV, d: NodeV) -> bool
    decreases a,
{
    exists|i: int|
        0 <= i < a.children.len() && (a.children[i] == d || is_descendant(a.children[i], d))
}

proof fn lemma_ids_range_list(s: Seq<NodeV>, c0: nat, i: int, d: NodeV, j: int) -> (k: nat)
    requires
        ids_consecutive_list(s, c0, i),
        i <= j < s.len(),
        0 <= i,
        s[j] == d || is_descendant(s[j], d),
        c0 > 0,
    ensures
        c0 - 1 < k,
        d.id == dec_digits(k),
    decreases s, s.len() - i, 1int,
{
    assert(0 <= i < s.len());
    assert(ids_consecutive(s[i], c0));
    if j == i {
        if s[j] == d {
            assert(s[i].id == dec_digits(c0));
            c0
        } else {
            lemma_preorder_ids(s[i], c0, d)
        }
    } else {
        lemma_ids_range_list(s, (c0 + tree_size(s[i])) as nat, i + 1, d, j)
    }
}

/// Preorder numbering: in a tree whose ids are consecutive counter values in
/// preorder, every descendant carries the decimal of a strictly larger
/// counter than its ancestor's.
pub proof fn lemma_preorder_ids(nv: NodeV, c0: nat, d: NodeV) -> (k: nat)
    requires
        ids_consecutive(nv, c0),
        is_descendant(nv, d),
    ensures
        c0 < k,
        d.id == dec_digits(k),
    decreases nv, 0int, 0int,
{
    assert(exists|i: int|
        0 <= i < nv.children.len() && (nv.children[i] == d || is_descendant(nv.children[i], d)));
    let i = choose|i: int|
        0 <= i < nv.children.len() && (nv.children[i] == d || is_descendant(nv.children[i], d));
    lemma_ids_range_list(nv.children, (c0 + 1) as nat, 0, d, i)
}

/// Helpers for the preorder-id law: sizes of small child lists.
pub proof fn lemma_list_ids_1(n1: NodeV, c: int)
    requires
        c >= 0,
        ids_consecutive(n1, (c + 1) as nat),
    ensures
        ids_consecutive_list(seq![n1], (c + 1) as nat, 0),
        tree_size_list(seq![n1], 0) == tree_size(n1),
{
    assert(seq![n1][0] == n1);
    assert(ids_consecutive_list(seq![n1], ((c + 1) + tree_size(n1)) as nat, 1));
    assert(tree_size_list(seq![n1], 1) == 0);
}

pub proof fn lemma_list_ids_2(n1: NodeV, n2: NodeV, c: int)
    requires
        c >= 0,
        ids_consecutive(n1, (c + 1) as nat),
        ids_consecutive(n2, ((c + 1) + tree_size(n1)) as nat),
    ensures
        ids_consecutive_list(seq![n1, n2], (c + 1) as nat, 0),
        tree_size_list(seq![n1, n2], 0) == tree_size(n1) + tree_size(n2),
{
    let l = seq![n1, n2];
    assert(l[0] == n1 && l[1] == n2);
    assert(ids_consecutive_list(l, ((c + 1) + tree_size(n1) + tree_size(n2)) as nat, 2));
    assert(ids_consecutive_list(l, ((c + 1) + tree_size(n1)) as nat, 1));
    assert(ids_consecutive_list(l, (c + 1) as nat, 0));
    assert(tree_size_list(l, 2) == 0);
    assert(tree_size_list(l, 1) == tree_size(n2));
}

pub proof fn lemma_list_ids_3(n1: NodeV, n2: NodeV, n3: NodeV, c: int)
    requires
        c >= 0,
        ids_consecutive(n1, (c + 1) as nat),
        ids_consecutive(n2, ((c + 1) + tree_size(n1)) as nat),
        ids_consecutive(n3, ((c + 1) + tree_size(n1) + tree_size(n2)) as nat),
    ensures
        ids_consecutive_list(seq![n1, n2, n3], (c + 1) as nat, 0),
        tree_size_list(seq![n1, n2, n3], 0) == tree_size(n1) + tree_size(n2) + tree_size(n3),
{
    let l = seq![n1, n2, n3];
    assert(l[0] == n1 && l[1] == n2 && l[2] == n3);
    assert(ids_consecutive_list(
        l,
        ((c + 1) + tree_size(n1) + tree_size(n2) + tree_size(n3)) as nat,
        3,
    ));
    assert(ids_consecutive_list(l, ((c + 1) + tree_size(n1) + tree_size(n2)) as nat, 2));
    assert(ids_consecutive_list(l, ((c + 1) + tree_size(n1)) as nat, 1));
    assert(ids_consecutive_list(l, (c + 1) as nat, 0));
    assert(tree_size_list(l, 3) == 0);
    assert(tree_size_list(l, 2) == tree_size(n3));
    assert(tree_size_list(l, 1) == tree_size(n2) + tree_size(n3));
}

} // verus!
