//! The substitution engine: a pure function from a document tree and an
//! environment to a structurally identical tree in which every placeholder
//! scalar is replaced by the value its variable is bound to. The first
//! placeholder whose variable is unbound aborts the whole walk.

use crate::env::Env;
use crate::node::{elem_views, pair_views, Node, NodeView};
use crate::node::{lemma_elem_views_index, lemma_pair_views_index};
use crate::placeholder::{is_placeholder, placeholder_name, spec_is_placeholder,
    spec_placeholder_name};
use vstd::prelude::*;

verus! {

/// Why a resolution failed.
#[derive(Debug, PartialEq, Eq)]
pub enum ResolveError {
    /// A placeholder named a variable that the environment does not bind;
    /// the field is the trimmed variable name.
    UnresolvedVariable(String),
}

/// What resolution does to the text of one scalar: a placeholder becomes
/// the value bound to its name, or fails with that name; any other text
/// stays as it is.
pub open spec fn resolve_text(s: Seq<char>, env: Map<Seq<char>, Seq<char>>) -> Result<
    NodeView,
    Seq<char>,
> {
    if spec_is_placeholder(s) {
        if env.contains_key(spec_placeholder_name(s)) {
            Result::Ok(NodeView::Text(env[spec_placeholder_name(s)]))
        } else {
            Result::Err(spec_placeholder_name(s))
        }
    } else {
        Result::Ok(NodeView::Text(s))
    }
}

/// What resolution does to a tree: text scalars are resolved, sequences and
/// mapping values are resolved in order with structure and key order kept,
/// every other node is returned unchanged. An error names the variable of
/// the first unresolved placeholder in depth-first order.
pub open spec fn resolve_view(n: NodeView, env: Map<Seq<char>, Seq<char>>) -> Result<
    NodeView,
    Seq<char>,
>
    decreases n,
{
    match n {
        NodeView::Text(s) => resolve_text(s, env),
        NodeView::Sequence(elems) => match resolve_elems(elems, env) {
            Result::Ok(rs) => Result::Ok(NodeView::Sequence(rs)),
            Result::Err(e) => Result::Err(e),
        },
        NodeView::Mapping(pairs) => match resolve_pairs(pairs, env) {
            Result::Ok(rs) => Result::Ok(NodeView::Mapping(rs)),
            Result::Err(e) => Result::Err(e),
        },
        _ => Result::Ok(n),
    }
}

/// Resolution of the elements of a sequence, in order; the error of the
/// leftmost failing element wins.
pub open spec fn resolve_elems(elems: Seq<NodeView>, env: Map<Seq<char>, Seq<char>>) -> Result<
    Seq<NodeView>,
    Seq<char>,
>
    decreases elems,
{
    if elems.len() == 0 {
        Result::Ok(Seq::empty())
    } else {
        match resolve_elems(elems.subrange(0, elems.len() - 1), env) {
            Result::Err(e) => Result::Err(e),
            Result::Ok(rs) => match resolve_view(elems[elems.len() - 1], env) {
                Result::Err(e) => Result::Err(e),
                Result::Ok(r) => Result::Ok(rs.push(r)),
            },
        }
    }
}

/// Resolution of the pairs of a mapping, in order: every key is kept as it
/// is, every value is resolved; the error of the leftmost failing value
/// wins.
pub open spec fn resolve_pairs(
    pairs: Seq<(NodeView, NodeView)>,
    env: Map<Seq<char>, Seq<char>>,
) -> Result<Seq<(NodeView, NodeView)>, Seq<char>>
    decreases pairs,
{
    if pairs.len() == 0 {
        Result::Ok(Seq::empty())
    } else {
        match resolve_pairs(pairs.subrange(0, pairs.len() - 1), env) {
            Result::Err(e) => Result::Err(e),
            Result::Ok(rs) => match resolve_view(pairs[pairs.len() - 1].1, env) {
                Result::Err(e) => Result::Err(e),
                Result::Ok(r) => Result::Ok(rs.push((pairs[pairs.len() - 1].0, r))),
            },
        }
    }
}

/// An error on a prefix of the elements is the error on all of them.
proof fn lemma_resolve_elems_prefix_err(
    elems: Seq<NodeView>,
    env: Map<Seq<char>, Seq<char>>,
    j: int,
    e: Seq<char>,
)
    requires
        0 <= j <= elems.len(),
        resolve_elems(elems.subrange(0, j), env) == Result::<Seq<NodeView>, Seq<char>>::Err(e),
    ensures
        resolve_elems(elems, env) == Result::<Seq<NodeView>, Seq<char>>::Err(e),
    decreases elems,
{
    if j == elems.len() {
        assert(elems.subrange(0, j) =~= elems);
    } else {
        let front = elems.subrange(0, elems.len() - 1);
        assert(front.subrange(0, j) =~= elems.subrange(0, j));
        lemma_resolve_elems_prefix_err(front, env, j, e);
    }
}

/// An error on a prefix of the pairs is the error on all of them.
proof fn lemma_resolve_pairs_prefix_err(
    pairs: Seq<(NodeView, NodeView)>,
    env: Map<Seq<char>, Seq<char>>,
    j: int,
    e: Seq<char>,
)
    requires
        0 <= j <= pairs.len(),
        resolve_pairs(pairs.subrange(0, j), env) == Result::<
            Seq<(NodeView, NodeView)>,
            Seq<char>,
        >::Err(e),
    ensures
        resolve_pairs(pairs, env) == Result::<Seq<(NodeView, NodeView)>, Seq<char>>::Err(e),
    decreases pairs,
{
    if j == pairs.len() {
        assert(pairs.subrange(0, j) =~= pairs);
    } else {
        let front = pairs.subrange(0, pairs.len() - 1);
        assert(front.subrange(0, j) =~= pairs.subrange(0, j));
        lemma_resolve_pairs_prefix_err(front, env, j, e);
    }
}

impl Node {
    /// Resolves every placeholder in the tree against `env`, returning a
    /// structurally identical tree, or the name of the first unresolved
    /// variable in depth-first order. The input is not changed.
    #[verifier::loop_isolation(false)]
    pub fn resolve(&self, env: &Env) -> (r: Result<Node, ResolveError>)
        ensures
            match r {
                Result::Ok(out) => resolve_view(self@, env@) == Result::<
                    NodeView,
                    Seq<char>,
                >::Ok(out@),
                Result::Err(e) => e matches ResolveError::UnresolvedVariable(name)
                    && resolve_view(self@, env@) == Result::<NodeView, Seq<char>>::Err(name@),
            },
        decreases *self,
    {
        match self {
            Node::Null => Result::Ok(Node::Null),
            Node::Boolean(b) => Result::Ok(Node::Boolean(*b)),
            Node::Integer(i) => Result::Ok(Node::Integer(*i)),
            Node::Real(s) => Result::Ok(Node::Real(s.clone())),
            Node::BadValue => Result::Ok(Node::BadValue),
            Node::Alias(a) => Result::Ok(Node::Alias(*a)),
            Node::Text(s) => {
                if is_placeholder(s.as_str()) {
                    let name = placeholder_name(s.as_str());
                    match env.lookup(&name) {
                        Option::Some(value) => Result::Ok(Node::Text(value)),
                        Option::None => Result::Err(ResolveError::UnresolvedVariable(name)),
                    }
                } else {
                    Result::Ok(Node::Text(s.clone()))
                }
            },
            Node::Sequence(elems) => {
                let mut out: Vec<Node> = Vec::new();
                let mut idx: usize = 0;
                while idx < elems.len()
                    invariant
                        idx <= elems.len(),
                        out@.len() == idx,
                        resolve_elems(elem_views(elems@.subrange(0, idx as int)), env@)
                            == Result::<Seq<NodeView>, Seq<char>>::Ok(elem_views(out@)),
                    decreases elems.len() - idx,
                {
                    let ghost out_before = out@;
                    proof {
                        assert(decreases_to!(*self => (*self)->Sequence_0));
                        assert(decreases_to!(*elems => elems@));
                        assert(decreases_to!(elems@ => elems@[idx as int]));
                    }
                    match elems[idx].resolve(env) {
                        Result::Ok(r) => {
                            out.push(r);
                            proof {
                                let pre = elems@.subrange(0, idx as int);
                                let cur = elems@.subrange(0, idx + 1);
                                lemma_elem_views_index(pre);
                                lemma_elem_views_index(cur);
                                assert(cur.subrange(0, cur.len() - 1) =~= pre);
                                assert(elem_views(cur).subrange(
                                    0,
                                    elem_views(cur).len() - 1,
                                ) =~= elem_views(pre));
                                assert(out@.subrange(0, out@.len() - 1) =~= out_before);
                                assert(elem_views(out@).subrange(
                                    0,
                                    elem_views(out@).len() - 1,
                                ) =~= elem_views(out_before));
                            }
                        },
                        Result::Err(e) => {
                            proof {
                                let pre = elems@.subrange(0, idx as int);
                                let cur = elems@.subrange(0, idx + 1);
                                lemma_elem_views_index(pre);
                                lemma_elem_views_index(cur);
                                lemma_elem_views_index(elems@);
                                assert(cur.subrange(0, cur.len() - 1) =~= pre);
                                assert(elem_views(cur).subrange(
                                    0,
                                    elem_views(cur).len() - 1,
                                ) =~= elem_views(pre));
                                assert(elem_views(cur) =~= elem_views(elems@).subrange(
                                    0,
                                    idx + 1,
                                ));
                                let name = e->UnresolvedVariable_0;
                                lemma_resolve_elems_prefix_err(
                                    elem_views(elems@),
                                    env@,
                                    idx + 1,
                                    name@,
                                );
                            }
                            return Result::Err(e);
                        },
                    }
                    idx = idx + 1;
                }
                proof {
                    assert(elems@.subrange(0, elems@.len() as int) =~= elems@);
                }
                Result::Ok(Node::Sequence(out))
            },
            Node::Mapping(pairs) => {
                let mut out: Vec<(Node, Node)> = Vec::new();
                let mut idx: usize = 0;
                while idx < pairs.len()
                    invariant
                        idx <= pairs.len(),
                        out@.len() == idx,
                        resolve_pairs(pair_views(pairs@.subrange(0, idx as int)), env@)
                            == Result::<Seq<(NodeView, NodeView)>, Seq<char>>::Ok(
                            pair_views(out@),
                        ),
                    decreases pairs.len() - idx,
                {
                    let ghost out_before = out@;
                    proof {
                        assert(decreases_to!(*self => (*self)->Mapping_0));
                        assert(decreases_to!(*pairs => pairs@));
                        assert(decreases_to!(pairs@ => pairs@[idx as int]));
                        assert(decreases_to!(pairs@[idx as int] => pairs@[idx as int].0));
                        assert(decreases_to!(pairs@[idx as int] => pairs@[idx as int].1));
                    }
                    let key = pairs[idx].0.duplicate();
                    match pairs[idx].1.resolve(env) {
                        Result::Ok(r) => {
                            out.push((key, r));
                            proof {
                                let pre = pairs@.subrange(0, idx as int);
                                let cur = pairs@.subrange(0, idx + 1);
                                lemma_pair_views_index(pre);
                                lemma_pair_views_index(cur);
                                assert(cur.subrange(0, cur.len() - 1) =~= pre);
                                assert(pair_views(cur).subrange(
                                    0,
                                    pair_views(cur).len() - 1,
                                ) =~= pair_views(pre));
                                assert(out@.subrange(0, out@.len() - 1) =~= out_before);
                                assert(pair_views(out@).subrange(
                                    0,
                                    pair_views(out@).len() - 1,
                                ) =~= pair_views(out_before));
                            }
                        },
                        Result::Err(e) => {
                            proof {
                                let pre = pairs@.subrange(0, idx as int);
                                let cur = pairs@.subrange(0, idx + 1);
                                lemma_pair_views_index(pre);
                                lemma_pair_views_index(cur);
                                lemma_pair_views_index(pairs@);
                                assert(cur.subrange(0, cur.len() - 1) =~= pre);
                                assert(pair_views(cur).subrange(
                                    0,
                                    pair_views(cur).len() - 1,
                                ) =~= pair_views(pre));
                                assert(pair_views(cur) =~= pair_views(pairs@).subrange(
                                    0,
                                    idx + 1,
                                ));
                                let name = e->UnresolvedVariable_0;
                                lemma_resolve_pairs_prefix_err(
                                    pair_views(pairs@),
                                    env@,
                                    idx + 1,
                                    name@,
                                );
                            }
                            return Result::Err(e);
                        },
                    }
                    idx = idx + 1;
                }
                proof {
                    assert(pairs@.subrange(0, pairs@.len() as int) =~= pairs@);
                }
                Result::Ok(Node::Mapping(out))
            },
        }
    }
}

} // verus!
