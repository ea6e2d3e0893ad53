//! The canonical configuration tree.
//!
//! Nodes live in a flat, append-only arena and refer to each other by index,
//! never by reference: positions are array offsets, which is what makes the
//! serialized form relocatable. A node's children are always appended before
//! the node itself, so every reference points strictly downwards.

use vstd::prelude::*;
use crate::order::{key_le, pairs_sorted, pairs_view};

verus! {

/// One node of the tree.
///
/// `Float` carries the decimal text of the number rather than a machine
/// float: verified code holds no floating-point values, and the text form is
/// all that traversal, projection into the environment, and the archive ever
/// need.
#[derive(Debug, Clone)]
pub enum ValueNode {
    Null,
    Bool(bool),
    Int(i64),
    Float(String),
    String(String),
    Array(Vec<u32>),
    Object(Vec<(String, u32)>),
}

/// The mathematical shape of a node: text as character sequences, child
/// references as arena indices.
pub enum NodeView {
    Null,
    Bool(bool),
    Int(i64),
    Float(Seq<char>),
    Str(Seq<char>),
    Array(Seq<u32>),
    Object(Seq<(Seq<char>, u32)>),
}

impl View for ValueNode {
    type V = NodeView;

    open spec fn view(&self) -> NodeView {
        match self {
            ValueNode::Null => NodeView::Null,
            ValueNode::Bool(b) => NodeView::Bool(*b),
            ValueNode::Int(i) => NodeView::Int(*i),
            ValueNode::Float(t) => NodeView::Float(t@),
            ValueNode::String(s) => NodeView::Str(s@),
            ValueNode::Array(els) => NodeView::Array(els@),
            ValueNode::Object(pairs) => NodeView::Object(pairs_view(pairs@)),
        }
    }
}

/// Every element of an array payload points strictly below `i`.
pub open spec fn arr_refs_ok(els: Seq<u32>, i: int) -> bool {
    forall|j: int| 0 <= j < els.len() ==> ((#[trigger] els[j]) as int) < i
}

/// Every entry of an object payload points strictly below `i`.
pub open spec fn obj_refs_ok(pairs: Seq<(Seq<char>, u32)>, i: int) -> bool {
    forall|j: int| 0 <= j < pairs.len() ==> (((#[trigger] pairs[j]).1) as int) < i
}

/// Every reference a node standing at position `i` holds points strictly
/// below `i`: children are appended before their parent.
pub open spec fn node_refs_ok(n: NodeView, i: int) -> bool {
    match n {
        NodeView::Array(els) => arr_refs_ok(els, i),
        NodeView::Object(pairs) => obj_refs_ok(pairs, i),
        _ => true,
    }
}

/// Every node of the arena references strictly downwards.
pub open spec fn nodes_refs_ok(nodes: Seq<NodeView>) -> bool {
    forall|i: int| 0 <= i < nodes.len() ==> node_refs_ok(#[trigger] nodes[i], i)
}

/// Every object node of the arena has its entries sorted ascending by raw
/// key bytes. Adapters guarantee this; archive validation does not re-check
/// it.
pub open spec fn objects_sorted(nodes: Seq<NodeView>) -> bool {
    forall|i: int| 0 <= i < nodes.len() ==> match #[trigger] nodes[i] {
        NodeView::Object(pairs) => pairs_sorted(pairs),
        _ => true,
    }
}

/// A node standing at position `i` is well formed: references point
/// strictly below `i`, and object keys are sorted.
pub open spec fn node_wf(n: NodeView, i: int) -> bool {
    node_refs_ok(n, i) && match n {
        NodeView::Object(pairs) => pairs_sorted(pairs),
        _ => true,
    }
}

/// Every node of the arena is well formed at its own position.
pub open spec fn nodes_wf(nodes: Seq<NodeView>) -> bool {
    nodes_refs_ok(nodes) && objects_sorted(nodes)
}

/// Flat storage for configuration values: the node arena and an optional
/// root index.
#[derive(Debug, Clone)]
pub struct FlatValue {
    pub nodes: Vec<ValueNode>,
    pub root: Option<u32>,
}

/// The mathematical shape of a whole tree.
pub struct TreeView {
    pub nodes: Seq<NodeView>,
    pub root: Option<u32>,
}

impl View for FlatValue {
    type V = TreeView;

    open spec fn view(&self) -> TreeView {
        TreeView {
            nodes: self.nodes@.map_values(|n: ValueNode| n@),
            root: self.root,
        }
    }
}

impl FlatValue {
    /// The tree is well formed: bottom-up references everywhere, sorted
    /// object keys, and a root (if set) inside the arena.
    pub open spec fn wf(&self) -> bool {
        nodes_wf(self@.nodes) && match self@.root {
            Option::Some(r) => r < self@.nodes.len(),
            Option::None => true,
        }
    }

    /// An empty tree with no root.
    pub fn new() -> (r: Self)
        ensures
            r@.nodes.len() == 0,
            r@.root is None,
            r.wf(),
    {
        FlatValue { nodes: Vec::new(), root: Option::None }
    }

    /// An empty tree with storage reserved for `capacity` nodes.
    pub fn with_capacity(capacity: usize) -> (r: Self)
        ensures
            r@.nodes.len() == 0,
            r@.root is None,
            r.wf(),
    {
        FlatValue { nodes: Vec::with_capacity(capacity), root: Option::None }
    }

    /// Append a node and return its permanent index. Indices are issued in
    /// increasing order starting at 0; no node ever moves.
    pub fn add_node(&mut self, node: ValueNode) -> (idx: u32)
        requires
            old(self)@.nodes.len() < u32::MAX,
        ensures
            idx == old(self)@.nodes.len(),
            final(self)@.nodes == old(self)@.nodes.push(node@),
            final(self)@.root == old(self)@.root,
    {
        let idx = self.nodes.len() as u32;
        self.nodes.push(node);
        proof {
            assert(self@.nodes =~= old(self)@.nodes.push(self.nodes@.last()@));
        }
        idx
    }

    /// Declare `idx` the root of the tree.
    pub fn set_root(&mut self, idx: u32)
        ensures
            final(self)@.nodes == old(self)@.nodes,
            final(self)@.root == Option::Some(idx),
    {
        self.root = Option::Some(idx);
    }

    /// The root index, if one has been set.
    pub fn root(&self) -> (r: Option<u32>)
        ensures
            r == self@.root,
    {
        self.root
    }

    /// The number of nodes in the arena.
    pub fn len(&self) -> (n: usize)
        ensures
            n == self@.nodes.len(),
    {
        self.nodes.len()
    }

    /// Whether the arena holds no nodes yet.
    pub fn is_empty(&self) -> (r: bool)
        ensures
            r == (self@.nodes.len() == 0),
    {
        self.nodes.is_empty()
    }
}

impl Default for FlatValue {
    fn default() -> (r: Self)
        ensures
            r@.nodes.len() == 0,
            r@.root is None,
    {
        FlatValue::new()
    }
}

/// Appending a node whose references all point below the current length
/// keeps the arena well formed.
pub proof fn lemma_add_node_wf(nodes: Seq<NodeView>, n: NodeView)
    requires
        nodes_wf(nodes),
        node_wf(n, nodes.len() as int),
    ensures
        nodes_wf(nodes.push(n)),
{
    assert forall|i: int| 0 <= i < nodes.push(n).len() implies node_wf(
        #[trigger] nodes.push(n)[i],
        i,
    ) by {
        if i < nodes.len() {
            assert(nodes.push(n)[i] == nodes[i]);
        } else {
            assert(nodes.push(n)[i] == n);
        }
    }
}

} // verus!
