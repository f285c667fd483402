//! The engine's guarantees, stated and proved once and for all: resolution
//! leaves non-placeholder text alone, preserves structure and key order
//! exactly, and is the identity on a document with no placeholders left.

use crate::engine::{resolve_elems, resolve_pairs, resolve_view};
use crate::node::NodeView;
use crate::placeholder::{spec_is_placeholder, spec_placeholder_name};
use vstd::prelude::*;

verus! {

/// Two trees have the same shape when they differ at most in the value of
/// text scalars: the same variant at every node, sequences of the same
/// length, mappings of the same length with equal keys in the same order,
/// and every other scalar equal.
pub open spec fn same_shape(a: NodeView, b: NodeView) -> bool
    decreases a,
{
    match a {
        NodeView::Text(_) => b is Text,
        NodeView::Sequence(elems) => b matches NodeView::Sequence(belems) && elems.len()
            == belems.len() && (forall|i: int|
            0 <= i < elems.len() ==> same_shape(elems[i], #[trigger] belems[i])),
        NodeView::Mapping(pairs) => b matches NodeView::Mapping(bpairs) && pairs.len()
            == bpairs.len() && (forall|i: int|
            0 <= i < pairs.len() ==> (#[trigger] bpairs[i]).0 == pairs[i].0 && same_shape(
                pairs[i].1,
                bpairs[i].1,
            )),
        _ => b == a,
    }
}

/// A text scalar that is not a placeholder resolves to itself, under every
/// environment.
pub proof fn lemma_text_identity(s: Seq<char>, env: Map<Seq<char>, Seq<char>>)
    requires
        !spec_is_placeholder(s),
    ensures
        resolve_view(NodeView::Text(s), env) == Result::<NodeView, Seq<char>>::Ok(
            NodeView::Text(s),
        ),
{
}

/// A successful resolution of a sequence's elements succeeds pointwise, in
/// place.
proof fn lemma_resolve_elems_pointwise(
    elems: Seq<NodeView>,
    env: Map<Seq<char>, Seq<char>>,
    rs: Seq<NodeView>,
)
    requires
        resolve_elems(elems, env) == Result::<Seq<NodeView>, Seq<char>>::Ok(rs),
    ensures
        rs.len() == elems.len(),
        forall|i: int| 0 <= i < elems.len() ==> resolve_view(elems[i], env) == Result::<
            NodeView,
            Seq<char>,
        >::Ok(#[trigger] rs[i]),
    decreases elems,
{
    if elems.len() > 0 {
        let front = elems.subrange(0, elems.len() - 1);
        let rs_front = resolve_elems(front, env)->Ok_0;
        lemma_resolve_elems_pointwise(front, env, rs_front);
    }
}

/// A successful resolution of a mapping's pairs keeps every key and
/// resolves every value, in place.
proof fn lemma_resolve_pairs_pointwise(
    pairs: Seq<(NodeView, NodeView)>,
    env: Map<Seq<char>, Seq<char>>,
    rs: Seq<(NodeView, NodeView)>,
)
    requires
        resolve_pairs(pairs, env) == Result::<Seq<(NodeView, NodeView)>, Seq<char>>::Ok(rs),
    ensures
        rs.len() == pairs.len(),
        forall|i: int| 0 <= i < pairs.len() ==> (#[trigger] rs[i]).0 == pairs[i].0
            && resolve_view(pairs[i].1, env) == Result::<NodeView, Seq<char>>::Ok(rs[i].1),
    decreases pairs,
{
    if pairs.len() > 0 {
        let front = pairs.subrange(0, pairs.len() - 1);
        let rs_front = resolve_pairs(front, env)->Ok_0;
        lemma_resolve_pairs_pointwise(front, env, rs_front);
    }
}

/// Structural preservation: a successful resolution returns a tree of the
/// same shape as its input — same variants, same sequence lengths and
/// order, same mapping keys in the same order; at most the value of text
/// scalars differs.
pub proof fn lemma_resolve_preserves_shape(
    n: NodeView,
    env: Map<Seq<char>, Seq<char>>,
    r: NodeView,
)
    requires
        resolve_view(n, env) == Result::<NodeView, Seq<char>>::Ok(r),
    ensures
        same_shape(n, r),
    decreases n,
{
    match n {
        NodeView::Sequence(elems) => {
            let rs = resolve_elems(elems, env)->Ok_0;
            lemma_resolve_elems_pointwise(elems, env, rs);
            assert forall|i: int| 0 <= i < elems.len() implies same_shape(
                elems[i],
                #[trigger] rs[i],
            ) by {
                assert(decreases_to!(n => n->Sequence_0));
                assert(decreases_to!(elems => elems[i]));
                lemma_resolve_preserves_shape(elems[i], env, rs[i]);
            }
        },
        NodeView::Mapping(pairs) => {
            let rs = resolve_pairs(pairs, env)->Ok_0;
            lemma_resolve_pairs_pointwise(pairs, env, rs);
            assert forall|i: int| 0 <= i < pairs.len() implies (#[trigger] rs[i]).0 == pairs[i].0
                && same_shape(pairs[i].1, rs[i].1) by {
                assert(decreases_to!(n => n->Mapping_0));
                assert(decreases_to!(pairs => pairs[i]));
                assert(decreases_to!(pairs[i] => pairs[i].1));
                assert(rs[i].0 == pairs[i].0 && resolve_view(pairs[i].1, env) == Result::<
                    NodeView,
                    Seq<char>,
                >::Ok(rs[i].1));
                lemma_resolve_preserves_shape(pairs[i].1, env, rs[i].1);
            }
        },
        _ => {},
    }
}

/// A tree with no placeholder left: no text scalar of it that resolution
/// would rewrite. Mapping keys are never substitution targets, so they need
/// no condition.
pub open spec fn placeholder_free(n: NodeView) -> bool
    decreases n,
{
    match n {
        NodeView::Text(s) => !spec_is_placeholder(s),
        NodeView::Sequence(elems) => forall|i: int|
            0 <= i < elems.len() ==> placeholder_free(#[trigger] elems[i]),
        NodeView::Mapping(pairs) => forall|i: int|
            0 <= i < pairs.len() ==> placeholder_free(#[trigger] pairs[i].1),
        _ => true,
    }
}

proof fn lemma_elems_fixed_point(elems: Seq<NodeView>, env: Map<Seq<char>, Seq<char>>)
    requires
        forall|i: int| 0 <= i < elems.len() ==> placeholder_free(#[trigger] elems[i]),
    ensures
        resolve_elems(elems, env) == Result::<Seq<NodeView>, Seq<char>>::Ok(elems),
    decreases elems,
{
    if elems.len() > 0 {
        let front = elems.subrange(0, elems.len() - 1);
        lemma_elems_fixed_point(front, env);
        assert(decreases_to!(elems => elems[elems.len() - 1]));
        lemma_resolve_fixed_point(elems[elems.len() - 1], env);
        assert(front.push(elems[elems.len() - 1]) =~= elems);
    } else {
        assert(elems =~= Seq::<NodeView>::empty());
    }
}

proof fn lemma_pairs_fixed_point(pairs: Seq<(NodeView, NodeView)>, env: Map<Seq<char>, Seq<char>>)
    requires
        forall|i: int| 0 <= i < pairs.len() ==> placeholder_free(#[trigger] pairs[i].1),
    ensures
        resolve_pairs(pairs, env) == Result::<Seq<(NodeView, NodeView)>, Seq<char>>::Ok(pairs),
    decreases pairs,
{
    if pairs.len() > 0 {
        let front = pairs.subrange(0, pairs.len() - 1);
        lemma_pairs_fixed_point(front, env);
        assert(decreases_to!(pairs => pairs[pairs.len() - 1]));
        assert(decreases_to!(pairs[pairs.len() - 1] => pairs[pairs.len() - 1].1));
        lemma_resolve_fixed_point(pairs[pairs.len() - 1].1, env);
        assert(front.push((pairs[pairs.len() - 1].0, pairs[pairs.len() - 1].1)) =~= pairs);
    } else {
        assert(pairs =~= Seq::<(NodeView, NodeView)>::empty());
    }
}

/// Every mapping of the tree has pairwise distinct keys, at every depth.
pub open spec fn keys_unique(n: NodeView) -> bool
    decreases n,
{
    match n {
        NodeView::Sequence(elems) => forall|i: int|
            0 <= i < elems.len() ==> keys_unique(#[trigger] elems[i]),
        NodeView::Mapping(pairs) => (forall|i: int, j: int|
            0 <= i < j < pairs.len() ==> (#[trigger] pairs[i]).0 != (#[trigger] pairs[j]).0) && (
        forall|i: int|
            0 <= i < pairs.len() ==> keys_unique((#[trigger] pairs[i]).0) && keys_unique(
                pairs[i].1,
            )),
        _ => true,
    }
}

/// A tree of the same shape as one whose mapping keys are pairwise distinct
/// has pairwise distinct mapping keys itself: the shape carries every key.
proof fn lemma_same_shape_keys_unique(a: NodeView, b: NodeView)
    requires
        keys_unique(a),
        same_shape(a, b),
    ensures
        keys_unique(b),
    decreases a,
{
    match a {
        NodeView::Sequence(elems) => {
            let belems = b->Sequence_0;
            assert forall|i: int| 0 <= i < belems.len() implies keys_unique(
                #[trigger] belems[i],
            ) by {
                assert(decreases_to!(a => a->Sequence_0));
                assert(decreases_to!(elems => elems[i]));
                lemma_same_shape_keys_unique(elems[i], belems[i]);
            }
        },
        NodeView::Mapping(pairs) => {
            let bpairs = b->Mapping_0;
            assert forall|i: int, j: int| 0 <= i < j < bpairs.len() implies (
            #[trigger] bpairs[i]).0 != (#[trigger] bpairs[j]).0 by {
                assert(bpairs[i].0 == pairs[i].0);
                assert(bpairs[j].0 == pairs[j].0);
            }
            assert forall|i: int| 0 <= i < bpairs.len() implies keys_unique(
                (#[trigger] bpairs[i]).0,
            ) && keys_unique(bpairs[i].1) by {
                assert(decreases_to!(a => a->Mapping_0));
                assert(decreases_to!(pairs => pairs[i]));
                assert(decreases_to!(pairs[i] => pairs[i].1));
                assert(bpairs[i].0 == pairs[i].0 && same_shape(pairs[i].1, bpairs[i].1));
                lemma_same_shape_keys_unique(pairs[i].1, bpairs[i].1);
            }
        },
        _ => {},
    }
}

/// Resolution preserves the uniqueness of mapping keys: every key is copied
/// unchanged, so a well-formed document resolves to a well-formed one.
pub proof fn lemma_resolve_preserves_unique_keys(
    n: NodeView,
    env: Map<Seq<char>, Seq<char>>,
    r: NodeView,
)
    requires
        keys_unique(n),
        resolve_view(n, env) == Result::<NodeView, Seq<char>>::Ok(r),
    ensures
        keys_unique(r),
{
    lemma_resolve_preserves_shape(n, env, r);
    lemma_same_shape_keys_unique(n, r);
}

/// Every placeholder of the tree names a variable that `env` binds; keys
/// of mappings are not looked at.
pub open spec fn placeholders_bound(n: NodeView, env: Map<Seq<char>, Seq<char>>) -> bool
    decreases n,
{
    match n {
        NodeView::Text(s) => spec_is_placeholder(s) ==> env.contains_key(
            spec_placeholder_name(s),
        ),
        NodeView::Sequence(elems) => forall|i: int|
            0 <= i < elems.len() ==> placeholders_bound(#[trigger] elems[i], env),
        NodeView::Mapping(pairs) => forall|i: int|
            0 <= i < pairs.len() ==> placeholders_bound((#[trigger] pairs[i]).1, env),
        _ => true,
    }
}

proof fn lemma_elems_ok_iff_bound(elems: Seq<NodeView>, env: Map<Seq<char>, Seq<char>>)
    ensures
        resolve_elems(elems, env) is Ok <==> forall|i: int|
            0 <= i < elems.len() ==> placeholders_bound(#[trigger] elems[i], env),
    decreases elems,
{
    if elems.len() > 0 {
        let front = elems.subrange(0, elems.len() - 1);
        lemma_elems_ok_iff_bound(front, env);
        assert(decreases_to!(elems => elems[elems.len() - 1]));
        lemma_resolve_ok_iff_bound(elems[elems.len() - 1], env);
        if resolve_elems(elems, env) is Ok {
            assert forall|i: int| 0 <= i < elems.len() implies placeholders_bound(
                #[trigger] elems[i],
                env,
            ) by {
                if i < elems.len() - 1 {
                    assert(front[i] == elems[i]);
                }
            }
        }
        if forall|i: int| 0 <= i < elems.len() ==> placeholders_bound(#[trigger] elems[i], env) {
            assert forall|i: int| 0 <= i < front.len() implies placeholders_bound(
                #[trigger] front[i],
                env,
            ) by {
                assert(front[i] == elems[i]);
            }
        }
    }
}

proof fn lemma_pairs_ok_iff_bound(pairs: Seq<(NodeView, NodeView)>, env: Map<Seq<char>, Seq<char>>)
    ensures
        resolve_pairs(pairs, env) is Ok <==> forall|i: int|
            0 <= i < pairs.len() ==> placeholders_bound((#[trigger] pairs[i]).1, env),
    decreases pairs,
{
    if pairs.len() > 0 {
        let front = pairs.subrange(0, pairs.len() - 1);
        lemma_pairs_ok_iff_bound(front, env);
        assert(decreases_to!(pairs => pairs[pairs.len() - 1]));
        assert(decreases_to!(pairs[pairs.len() - 1] => pairs[pairs.len() - 1].1));
        lemma_resolve_ok_iff_bound(pairs[pairs.len() - 1].1, env);
        if resolve_pairs(pairs, env) is Ok {
            assert forall|i: int| 0 <= i < pairs.len() implies placeholders_bound(
                (#[trigger] pairs[i]).1,
                env,
            ) by {
                if i < pairs.len() - 1 {
                    assert(front[i] == pairs[i]);
                }
            }
        }
        if forall|i: int| 0 <= i < pairs.len() ==> placeholders_bound((#[trigger] pairs[i]).1, env) {
            assert forall|i: int| 0 <= i < front.len() implies placeholders_bound(
                (#[trigger] front[i]).1,
                env,
            ) by {
                assert(front[i] == pairs[i]);
            }
        }
    }
}

/// Resolution succeeds exactly when every placeholder of the tree names a
/// bound variable; otherwise it fails, with the name of the first unbound
/// one.
pub proof fn lemma_resolve_ok_iff_bound(n: NodeView, env: Map<Seq<char>, Seq<char>>)
    ensures
        resolve_view(n, env) is Ok <==> placeholders_bound(n, env),
    decreases n,
{
    match n {
        NodeView::Sequence(elems) => {
            assert(decreases_to!(n => n->Sequence_0));
            lemma_elems_ok_iff_bound(elems, env);
        },
        NodeView::Mapping(pairs) => {
            assert(decreases_to!(n => n->Mapping_0));
            lemma_pairs_ok_iff_bound(pairs, env);
        },
        _ => {},
    }
}

/// Resolution is the identity on a tree with no placeholders left, under
/// every environment. In particular, resolving a second time a document
/// whose first resolution left no placeholder changes nothing.
pub proof fn lemma_resolve_fixed_point(n: NodeView, env: Map<Seq<char>, Seq<char>>)
    requires
        placeholder_free(n),
    ensures
        resolve_view(n, env) == Result::<NodeView, Seq<char>>::Ok(n),
    decreases n,
{
    match n {
        NodeView::Sequence(elems) => {
            assert(decreases_to!(n => n->Sequence_0));
            lemma_elems_fixed_point(elems, env);
        },
        NodeView::Mapping(pairs) => {
            assert(decreases_to!(n => n->Mapping_0));
            lemma_pairs_fixed_point(pairs, env);
        },
        _ => {},
    }
}

} // verus!
