//! The document tree: a tagged-variant node type mirroring a structured
//! configuration document, together with its mathematical view.

use vstd::prelude::*;

verus! {

/// One node of a structured configuration document.
///
/// A `Mapping` is an ordered collection of key/value pairs: insertion order
/// is significant and is preserved by every operation of this library.
#[derive(Debug, PartialEq, Eq)]
pub enum Node {
    /// The null scalar.
    Null,
    /// A boolean scalar.
    Boolean(bool),
    /// A signed 64-bit integer scalar.
    Integer(i64),
    /// A real-number scalar, kept verbatim as its decimal text so that no
    /// precision is lost.
    Real(String),
    /// A text scalar; the only variant a substitution can rewrite.
    Text(String),
    /// An ordered list of nodes.
    Sequence(Vec<Node>),
    /// An ordered list of key/value pairs; keys are expected unique and
    /// their order is significant.
    Mapping(Vec<(Node, Node)>),
    /// An opaque marker for a malformed fragment, passed through unchanged.
    BadValue,
    /// A reference to a prior anchor, passed through unchanged.
    Alias(usize),
}

/// The mathematical shape of a `Node`: the same tree with every piece of
/// text abstracted to a `Seq<char>` and every list to a `Seq`.
pub enum NodeView {
    Null,
    Boolean(bool),
    Integer(i64),
    Real(Seq<char>),
    Text(Seq<char>),
    Sequence(Seq<NodeView>),
    Mapping(Seq<(NodeView, NodeView)>),
    BadValue,
    Alias(nat),
}

/// The view of a node: each string becomes its character sequence, each
/// vector the sequence of the views of its elements.
pub open spec fn node_view(n: Node) -> NodeView
    decreases n,
{
    match n {
        Node::Null => NodeView::Null,
        Node::Boolean(b) => NodeView::Boolean(b),
        Node::Integer(i) => NodeView::Integer(i),
        Node::Real(s) => NodeView::Real(s@),
        Node::Text(s) => NodeView::Text(s@),
        Node::Sequence(elems) => NodeView::Sequence(elem_views(elems@)),
        Node::Mapping(pairs) => NodeView::Mapping(pair_views(pairs@)),
        Node::BadValue => NodeView::BadValue,
        Node::Alias(a) => NodeView::Alias(a as nat),
    }
}

/// The views of the elements of a sequence node, in order.
pub open spec fn elem_views(elems: Seq<Node>) -> Seq<NodeView>
    decreases elems,
{
    if elems.len() == 0 {
        Seq::empty()
    } else {
        elem_views(elems.subrange(0, elems.len() - 1)).push(node_view(elems[elems.len() - 1]))
    }
}

/// The views of the key/value pairs of a mapping node, in order.
pub open spec fn pair_views(pairs: Seq<(Node, Node)>) -> Seq<(NodeView, NodeView)>
    decreases pairs,
{
    if pairs.len() == 0 {
        Seq::empty()
    } else {
        pair_views(pairs.subrange(0, pairs.len() - 1)).push(
            (node_view(pairs[pairs.len() - 1].0), node_view(pairs[pairs.len() - 1].1)),
        )
    }
}

impl View for Node {
    type V = NodeView;

    open spec fn view(&self) -> NodeView {
        node_view(*self)
    }
}

/// `elem_views` maps the view over the elements pointwise.
pub proof fn lemma_elem_views_index(elems: Seq<Node>)
    ensures
        elem_views(elems).len() == elems.len(),
        forall|i: int| 0 <= i < elems.len() ==> elem_views(elems)[i] == node_view(elems[i]),
    decreases elems,
{
    if elems.len() > 0 {
        lemma_elem_views_index(elems.subrange(0, elems.len() - 1));
    }
}

/// `pair_views` maps the view over the pairs pointwise.
pub proof fn lemma_pair_views_index(pairs: Seq<(Node, Node)>)
    ensures
        pair_views(pairs).len() == pairs.len(),
        forall|i: int| 0 <= i < pairs.len() ==> pair_views(pairs)[i] == (
            node_view(pairs[i].0),
            node_view(pairs[i].1),
        ),
    decreases pairs,
{
    if pairs.len() > 0 {
        lemma_pair_views_index(pairs.subrange(0, pairs.len() - 1));
    }
}

impl Node {
    /// An owned, independent copy of the tree, equal to it in view.
    #[verifier::loop_isolation(false)]
    pub fn duplicate(&self) -> (r: Node)
        ensures
            r@ == self@,
        decreases *self,
    {
        match self {
            Node::Null => Node::Null,
            Node::Boolean(b) => Node::Boolean(*b),
            Node::Integer(i) => Node::Integer(*i),
            Node::Real(s) => Node::Real(s.clone()),
            Node::Text(s) => Node::Text(s.clone()),
            Node::BadValue => Node::BadValue,
            Node::Alias(a) => Node::Alias(*a),
            Node::Sequence(elems) => {
                let mut out: Vec<Node> = Vec::new();
                let mut idx: usize = 0;
                while idx < elems.len()
                    invariant
                        idx <= elems.len(),
                        out@.len() == idx,
                        elem_views(out@) == elem_views(elems@.subrange(0, idx as int)),
                    decreases elems.len() - idx,
                {
                    let ghost out_before = out@;
                    proof {
                        assert(decreases_to!(*self => (*self)->Sequence_0));
                        assert(decreases_to!(*elems => elems@));
                        assert(decreases_to!(elems@ => elems@[idx as int]));
                    }
                    let d = elems[idx].duplicate();
                    out.push(d);
                    proof {
                        let pre = elems@.subrange(0, idx as int);
                        let cur = elems@.subrange(0, idx + 1);
                        assert(cur.subrange(0, cur.len() - 1) =~= pre);
                        assert(cur[cur.len() - 1] == elems@[idx as int]);
                        assert(out@.subrange(0, out@.len() - 1) =~= out_before);
                    }
                    idx = idx + 1;
                }
                proof {
                    assert(elems@.subrange(0, elems@.len() as int) =~= elems@);
                }
                Node::Sequence(out)
            },
            Node::Mapping(pairs) => {
                let mut out: Vec<(Node, Node)> = Vec::new();
                let mut idx: usize = 0;
                while idx < pairs.len()
                    invariant
                        idx <= pairs.len(),
                        out@.len() == idx,
                        pair_views(out@) == pair_views(pairs@.subrange(0, idx as int)),
                    decreases pairs.len() - idx,
                {
                    let ghost out_before = out@;
                    proof {
                        assert(decreases_to!(*self => (*self)->Mapping_0));
                        assert(decreases_to!(*pairs => pairs@));
                        assert(decreases_to!(pairs@ => pairs@[idx as int]));
                        assert(decreases_to!(pairs@[idx as int] => pairs@[idx as int].0));
                        assert(decreases_to!(pairs@[idx as int] => pairs@[idx as int].1));
                    }
                    let k = pairs[idx].0.duplicate();
                    let v = pairs[idx].1.duplicate();
                    out.push((k, v));
                    proof {
                        let pre = pairs@.subrange(0, idx as int);
                        let cur = pairs@.subrange(0, idx + 1);
                        assert(cur.subrange(0, cur.len() - 1) =~= pre);
                        assert(cur[cur.len() - 1] == pairs@[idx as int]);
                        assert(out@.subrange(0, out@.len() - 1) =~= out_before);
                    }
                    idx = idx + 1;
                }
                proof {
                    assert(pairs@.subrange(0, pairs@.len() as int) =~= pairs@);
                }
                Node::Mapping(out)
            },
        }
    }
}

} // verus!
