//! Conditions on a metadata graph under which a conversion pass succeeds.
use vstd::prelude::*;
use crate::btf::sanitized_name;
use crate::enums::enum_shape;
use crate::meta::{MetaGraph, MetaNode};

verus! {

/// `v` is the scope or a generic argument of a struct, union or enum node.
pub open spec fn header_ref(node: MetaNode, v: int) -> bool {
    match node {
        MetaNode::Composite(c) => (c.scope matches Some(s) && s == v) || exists|k: int|
            0 <= k < c.generic_args@.len() && c.generic_args@[k] == v,
        MetaNode::Enum(e) => (e.scope matches Some(s) && s == v) || exists|k: int|
            0 <= k < e.generic_args@.len() && e.generic_args@[k] == v,
        _ => false,
    }
}

/// `node` refers to node `v`.
pub open spec fn refers_to(node: MetaNode, v: int) -> bool {
    header_ref(node, v) || match node {
        MetaNode::Composite(c) => exists|k: int| 0 <= k < c.members@.len() && c.members@[k].ty == v,
        MetaNode::Enum(e) => exists|k: int, f: int|
            0 <= k < e.variants@.len() && 0 <= f < e.variants@[k].fields@.len()
                && e.variants@[k].fields@[f].ty == v,
        MetaNode::Pointer { pointee } => pointee == v,
        MetaNode::Array { element, .. } => element == v,
        MetaNode::Subroutine { ret, params, .. } => (ret matches Some(r) && r == v) || exists|k: int|
            0 <= k < params@.len() && params@[k] == v,
        MetaNode::Namespace { parent, .. } => parent matches Some(p) && p == v,
        _ => false,
    }
}

/// A path of references through the graph.
pub open spec fn is_path(g: MetaGraph, p: Seq<int>) -> bool {
    &&& p.len() > 0
    &&& forall|i: int| 0 <= i < p.len() ==> 0 <= #[trigger] p[i] < g.nodes@.len()
    &&& forall|i: int| 0 <= i < p.len() - 1 ==> #[trigger] refers_to(g.nodes@[p[i]], p[i + 1])
}

/// Node `b` can be reached from node `a` by following references.
pub open spec fn reaches(g: MetaGraph, a: int, b: int) -> bool {
    exists|p: Seq<int>| #[trigger] is_path(g, p) && p[0] == a && p.last() == b
}

/// Node `v` can be reached from the scope or a generic argument of node `c`.
pub open spec fn header_reaches(g: MetaGraph, c: int, v: int) -> bool {
    exists|h: int| #[trigger] header_ref(g.nodes@[c], h) && reaches(g, h, v)
}

/// A struct, union or enum: a node keyed by its name.
pub open spec fn is_named_node(node: MetaNode) -> bool {
    node is Composite || node is Enum
}

/// The node has a lowering rule, and an enum node can be classified.
pub open spec fn supported(node: MetaNode) -> bool {
    &&& !(node is Unsupported)
    &&& node matches MetaNode::Enum(e) ==> enum_shape(e.repr, e.variants@) is Ok
}

/// No struct, union or enum can be reached from its own scope or generic
/// arguments.
pub open spec fn headers_acyclic(g: MetaGraph) -> bool {
    forall|c: int, h: int|
        0 <= c < g.nodes@.len() && #[trigger] header_ref(g.nodes@[c], h) ==> !reaches(g, h, c)
}

/// Ranks below the node count that fall along every reference to a node
/// other than a struct, union or enum: every cycle passes through one.
pub open spec fn ranked(g: MetaGraph, rank: Seq<nat>) -> bool {
    &&& rank.len() == g.nodes@.len()
    &&& forall|v: int| 0 <= v < rank.len() ==> #[trigger] rank[v] < g.nodes@.len()
    &&& forall|u: int, v: int|
        0 <= u < g.nodes@.len() && 0 <= v < g.nodes@.len() && #[trigger] refers_to(g.nodes@[u], v)
            && !is_named_node(g.nodes@[v]) ==> rank[v] < rank[u]
}

/// The source name of a struct, union or enum.
pub open spec fn node_name(node: MetaNode) -> Seq<char> {
    match node {
        MetaNode::Composite(c) => c.name@,
        MetaNode::Enum(e) => e.name@,
        _ => Seq::empty(),
    }
}

pub open spec fn node_scope(node: MetaNode) -> Option<usize> {
    match node {
        MetaNode::Composite(c) => c.scope,
        MetaNode::Enum(e) => e.scope,
        _ => None,
    }
}

/// A node whose record carries a name: an enum, or a struct or union whose
/// sanitized name is not empty.
pub open spec fn has_name(node: MetaNode) -> bool {
    node is Enum || (node is Composite && sanitized_name(node_name(node)).len() > 0)
}

/// Both nodes sit in namespaces, and the two namespaces have different names.
pub open spec fn scopes_differ(g: MetaGraph, a: MetaNode, b: MetaNode) -> bool {
    node_scope(a) matches Some(sa) && node_scope(b) matches Some(sb) && sa < g.nodes@.len() && sb
        < g.nodes@.len() && g.nodes@[sa as int] is Namespace && g.nodes@[sb as int] is Namespace
        && g.nodes@[sa as int]->Namespace_name@ != g.nodes@[sb as int]->Namespace_name@
}

/// Two named nodes whose names sanitize alike are the same description, or
/// sit in namespaces of different names.
pub open spec fn names_distinct(g: MetaGraph) -> bool {
    forall|a: int, b: int|
        0 <= a < g.nodes@.len() && 0 <= b < g.nodes@.len() && has_name(#[trigger] g.nodes@[a]) && has_name(
            #[trigger] g.nodes@[b],
        ) && sanitized_name(node_name(g.nodes@[a])) == sanitized_name(node_name(g.nodes@[b]))
            ==> g.nodes@[a] == g.nodes@[b] || scopes_differ(g, g.nodes@[a], g.nodes@[b])
}

/// The conditions under which converting `roots` succeeds: every node
/// reachable from a root has a rule and every such enum can be classified;
/// no struct, union or enum reaches itself through its scope or generic
/// arguments; every cycle passes through a struct, union or enum; named
/// types whose names sanitize alike are the same or sit in differently named
/// namespaces; and the depth guard is at least the square of the node count.
pub open spec fn convertible(g: MetaGraph, roots: Seq<usize>, max_depth: nat) -> bool {
    &&& headers_acyclic(g)
    &&& names_distinct(g)
    &&& exists|rank: Seq<nat>| ranked(g, rank)
    &&& max_depth >= g.nodes@.len() * g.nodes@.len()
    &&& forall|k: int, w: int|
        0 <= k < roots.len() && #[trigger] reaches(g, roots[k] as int, w) ==> supported(g.nodes@[w])
}

/// The number of nodes not being lowered.
pub open spec fn count_idle(s: Seq<bool>) -> nat
    decreases s.len(),
{
    if s.len() == 0 {
        0
    } else {
        count_idle(s.drop_last()) + if s.last() {
            0nat
        } else {
            1nat
        }
    }
}

/// The nodes other than `n` that are not being lowered.
pub open spec fn idle_others(s: Seq<bool>, n: int) -> int {
    if s[n] {
        count_idle(s) as int
    } else {
        count_idle(s) - 1
    }
}

pub proof fn lemma_count_idle_set(s: Seq<bool>, i: int)
    requires
        0 <= i < s.len(),
        !s[i],
    ensures
        count_idle(s.update(i, true)) + 1 == count_idle(s),
    decreases s.len(),
{
    if i < s.len() - 1 {
        assert(s.update(i, true).drop_last() =~= s.drop_last().update(i, true));
        lemma_count_idle_set(s.drop_last(), i);
    } else {
        assert(s.update(i, true).drop_last() =~= s.drop_last());
    }
}

pub proof fn lemma_count_idle_all(s: Seq<bool>)
    requires
        forall|i: int| 0 <= i < s.len() ==> !#[trigger] s[i],
    ensures
        count_idle(s) == s.len(),
    decreases s.len(),
{
    if s.len() > 0 {
        lemma_count_idle_all(s.drop_last());
    }
}

pub proof fn lemma_reaches_self(g: MetaGraph, a: int)
    requires
        0 <= a < g.nodes@.len(),
    ensures
        reaches(g, a, a),
{
    assert(is_path(g, seq![a]));
}

pub proof fn lemma_reaches_step(g: MetaGraph, a: int, b: int, c: int)
    requires
        reaches(g, a, b),
        0 <= c < g.nodes@.len(),
        refers_to(g.nodes@[b], c),
    ensures
        reaches(g, a, c),
{
    let p = choose|p: Seq<int>| #[trigger] is_path(g, p) && p[0] == a && p.last() == b;
    let q = p.push(c);
    assert forall|i: int| 0 <= i < q.len() - 1 implies #[trigger] refers_to(g.nodes@[q[i]], q[i + 1]) by {
        if i < p.len() - 1 {
            assert(q[i] == p[i] && q[i + 1] == p[i + 1]);
        }
    }
    assert(is_path(g, q));
}

pub proof fn lemma_reaches_prepend(g: MetaGraph, a: int, b: int, c: int)
    requires
        0 <= a < g.nodes@.len(),
        refers_to(g.nodes@[a], b),
        reaches(g, b, c),
    ensures
        reaches(g, a, c),
{
    let p = choose|p: Seq<int>| #[trigger] is_path(g, p) && p[0] == b && p.last() == c;
    let q = seq![a] + p;
    assert forall|i: int| 0 <= i < q.len() implies 0 <= #[trigger] q[i] < g.nodes@.len() by {
        if i > 0 {
            assert(q[i] == p[i - 1]);
        }
    }
    assert forall|i: int| 0 <= i < q.len() - 1 implies #[trigger] refers_to(g.nodes@[q[i]], q[i + 1]) by {
        if i > 0 {
            let j = i - 1;
            assert(refers_to(g.nodes@[p[j]], p[j + 1]));
            assert(q[i] == p[j] && q[i + 1] == p[j + 1]);
        } else {
            assert(q[0] == a && q[1] == p[0]);
        }
    }
    assert(is_path(g, q));
    assert(q.last() == p.last());
}

} // verus!
