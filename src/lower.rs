//! Lowering metadata nodes into the type table, with deduplication by
//! identity key and stubs that break reference cycles.
use vstd::prelude::*;
use crate::btf::{
    lemma_one_record_per_key, members_view, opt_below, record_fits, refs_below, sanitized_name,
    scoped_name, BtfEnumEntry, BtfMember, BtfType, IdentityKey, KeyView, NamedKind, TypeTable,
};
use crate::enums::{classify, discriminant, enum_shape, has_data_variant, EnumPlan, EnumShape};
use crate::error::{ConvError, ErrorKind};
use crate::meta::{
    node_refs_ok, opt_ref_ok, refs_ok, CompositeKind, CompositeNode, Encoding, EnumNode, MetaGraph,
    MetaNode, Repr, Variant,
};
use crate::sanitize::sanitize;
use crate::graph::{
    header_reaches, header_ref, headers_acyclic, is_named_node, has_name, idle_others, count_idle,
    lemma_count_idle_set, lemma_count_idle_all, lemma_reaches_prepend, lemma_reaches_self,
    lemma_reaches_step, names_distinct, node_name, node_scope, ranked, reaches, refers_to,
    scopes_differ, supported, convertible,
};

verus! {

/// The optional reference, if any, has a handle.
pub open spec fn opt_resolved(memo: Seq<Option<usize>>, r: Option<usize>) -> bool {
    match r {
        Some(i) => memo[i as int] is Some,
        None => true,
    }
}

/// The handle of an optional reference.
pub open spec fn res_opt(memo: Seq<Option<usize>>, r: Option<usize>) -> Option<usize> {
    match r {
        Some(i) => memo[i as int],
        None => None,
    }
}

/// Every reference of the list has a handle.
pub open spec fn list_resolved(memo: Seq<Option<usize>>, s: Seq<usize>) -> bool {
    forall|k: int| 0 <= k < s.len() ==> (#[trigger] memo[s[k] as int]) is Some
}

/// The handles of a list of references.
pub open spec fn res_list(memo: Seq<Option<usize>>, s: Seq<usize>) -> Seq<usize> {
    s.map_values(|i: usize| memo[i as int]->0)
}

/// The key of a function signature (behind a pointer for a function pointer).
pub open spec fn is_proto(
    t: TypeTable,
    h: int,
    ret: Option<usize>,
    params: Seq<usize>,
    is_pointer: bool,
    memo: Seq<Option<usize>>,
) -> bool {
    let proto = KeyView::FuncProto(res_opt(memo, ret), res_list(memo, params));
    &&& opt_resolved(memo, ret)
    &&& list_resolved(memo, params)
    &&& if is_pointer {
        match t.keys()[h] {
            KeyView::Pointer(p) => p < t.len() && t.keys()[p as int] == proto,
            _ => false,
        }
    } else {
        t.keys()[h] == proto
    }
}

/// The record at `h` is the one of `node`: its key is the node's kind and
/// scalars together with the handles of the nodes it refers to.
pub open spec fn identifies(t: TypeTable, h: int, node: MetaNode, memo: Seq<Option<usize>>) -> bool {
    &&& 0 <= h < t.len()
    &&& match node {
        MetaNode::Basic { name, bit_size, encoding } => t.keys()[h] == KeyView::Basic(
            name@,
            bit_size,
            encoding,
        ),
        MetaNode::Composite(c) => opt_resolved(memo, c.scope) && list_resolved(memo, c.generic_args@)
            && t.keys()[h] == KeyView::Named(
            NamedKind::of_composite(c.kind),
            res_opt(memo, c.scope),
            c.name@,
            res_list(memo, c.generic_args@),
        ),
        MetaNode::Enum(e) => opt_resolved(memo, e.scope) && list_resolved(memo, e.generic_args@)
            && t.keys()[h] == KeyView::Named(
            NamedKind::Enum,
            res_opt(memo, e.scope),
            e.name@,
            res_list(memo, e.generic_args@),
        ) && match enum_shape(e.repr, e.variants@) {
            Ok(EnumShape::Data) => scoped_name(t.types()[h]) is None,
            Ok(EnumShape::Plain { .. }) => scoped_name(t.types()[h]) is Some,
            Err(_) => false,
        },
        MetaNode::Pointer { pointee } => memo[pointee as int] is Some && t.keys()[h]
            == KeyView::Pointer(memo[pointee as int]->0),
        MetaNode::Array { element, count } => memo[element as int] is Some && t.keys()[h]
            == KeyView::Array(memo[element as int]->0, count),
        MetaNode::Subroutine { ret, params, is_pointer } => is_proto(t, h, ret, params@, is_pointer, memo),
        MetaNode::Namespace { name, parent } => opt_resolved(memo, parent) && t.keys()[h]
            == KeyView::Namespace(name@, res_opt(memo, parent)),
        MetaNode::Unsupported => false,
    }
}

proof fn lemma_res_list_stable(m1: Seq<Option<usize>>, m2: Seq<Option<usize>>, s: Seq<usize>)
    requires
        list_resolved(m1, s),
        refs_ok(s, m1.len() as int),
        forall|i: int| 0 <= i < m1.len() && (#[trigger] m1[i]) is Some ==> m2[i] == m1[i],
    ensures
        list_resolved(m2, s),
        res_list(m2, s) == res_list(m1, s),
{
    assert forall|k: int| 0 <= k < s.len() implies (#[trigger] m2[s[k] as int]) is Some by {
        assert(m1[s[k] as int] is Some);
    }
    assert forall|k: int| 0 <= k < s.len() implies res_list(m2, s)[k] == res_list(m1, s)[k] by {
        assert(m1[s[k] as int] is Some);
    }
    assert(res_list(m2, s) =~= res_list(m1, s));
}

/// What identifies a node stays true as the pass goes on.
proof fn lemma_identifies_stable(
    t1: TypeTable,
    m1: Seq<Option<usize>>,
    t2: TypeTable,
    m2: Seq<Option<usize>>,
    h: int,
    node: MetaNode,
)
    requires
        identifies(t1, h, node, m1),
        node_refs_ok(node, m1.len() as int),
        t1.len() <= t2.len(),
        forall|i: int| 0 <= i < t1.len() ==> #[trigger] t2.keys()[i] == t1.keys()[i],
        forall|i: int| 0 <= i < t1.len() ==> #[trigger] scoped_name(t2.types()[i]) == scoped_name(t1.types()[i]),
        forall|i: int| 0 <= i < m1.len() && (#[trigger] m1[i]) is Some ==> m2[i] == m1[i],
    ensures
        identifies(t2, h, node, m2),
{
    match node {
        MetaNode::Composite(c) => {
            lemma_res_list_stable(m1, m2, c.generic_args@);
            if let Some(i) = c.scope {
                assert(m1[i as int] is Some);
            }
        },
        MetaNode::Enum(e) => {
            lemma_res_list_stable(m1, m2, e.generic_args@);
            if let Some(i) = e.scope {
                assert(m1[i as int] is Some);
            }
        },
        MetaNode::Pointer { pointee } => {
            assert(m1[pointee as int] is Some);
        },
        MetaNode::Array { element, .. } => {
            assert(m1[element as int] is Some);
        },
        MetaNode::Subroutine { ret, params, is_pointer } => {
            lemma_res_list_stable(m1, m2, params@);
            if let Some(i) = ret {
                assert(m1[i as int] is Some);
            }
            if is_pointer {
                if let KeyView::Pointer(p) = t1.keys()[h] {
                    assert(t2.keys()[p as int] == t1.keys()[p as int]);
                }
            }
        },
        MetaNode::Namespace { parent, .. } => {
            if let Some(i) = parent {
                assert(m1[i as int] is Some);
            }
        },
        _ => {},
    }
}

/// The enumeration record lists the variants of `e`, in order: each with its
/// sanitized name and its discriminant, with the width and signedness that
/// the classification of `e` gives.
pub open spec fn enum_fits(t: BtfType, e: EnumNode) -> bool {
    t matches BtfType::Enum { wide, signed, entries, .. } && enum_shape(e.repr, e.variants@) == Ok::<
        EnumShape,
        ErrorKind,
    >(EnumShape::Plain { wide, signed }) && entries@.len() == e.variants@.len() && forall|k: int|
        0 <= k < entries@.len() ==> (#[trigger] entries@[k]).name@ == sanitized_name(e.variants@[k].name@)
            && entries@[k].value as int == discriminant(e.variants@, k)
}

/// Node `c` of `g` is an enum whose enumeration record is `t`.
pub open spec fn enum_record_of(g: MetaGraph, c: int, t: BtfType) -> bool {
    g.nodes@[c] matches MetaNode::Enum(en) && enum_fits(t, en)
}

/// Node `c` has the handle `h`.
pub open spec fn has_handle(memo: Seq<Option<usize>>, c: int, h: int) -> bool {
    memo[c] is Some && memo[c]->0 == h
}

/// A key of a named struct or union.
pub open spec fn is_struct_key(k: KeyView) -> bool {
    k matches KeyView::Named(kind, _, _, _) && kind != NamedKind::Enum
}

/// The record lists the members of `c`, in order: each with its sanitized
/// name, its offset, and the handle of its type.
pub open spec fn members_fit(t: BtfType, c: CompositeNode, memo: Seq<Option<usize>>) -> bool {
    t matches BtfType::Struct { members, .. } && members@.len() == c.members@.len() && forall|k: int|
        0 <= k < members@.len() ==> (#[trigger] members@[k]).name@ == sanitized_name(c.members@[k].name@)
            && members@[k].offset_bits == c.members@[k].offset_bits && memo[c.members@[k].ty as int]
            == Some(members@[k].ty)
}

/// The state of one conversion pass: the table built so far, the handle of
/// each node that has one (a finished node, or a struct whose members are
/// still being lowered), and the nodes that are being lowered.
pub struct Lowerer {
    table: TypeTable,
    memo: Vec<Option<usize>>,
    active: Vec<bool>,
    filled: Ghost<Seq<bool>>,
    headless: Ghost<Seq<bool>>,
}

impl Lowerer {
    pub closed spec fn table(&self) -> TypeTable {
        self.table
    }

    /// The handle given to each node so far.
    pub closed spec fn memo(&self) -> Seq<Option<usize>> {
        self.memo@
    }

    /// The nodes being lowered.
    pub closed spec fn active(&self) -> Seq<bool> {
        self.active@
    }

    /// The structs and enums whose scope and generic arguments are being
    /// lowered: they have no handle yet.
    pub closed spec fn headless(&self) -> Seq<bool> {
        self.headless@
    }

    /// Which records are complete: all but the stubs of structs whose
    /// members are still being lowered.
    pub closed spec fn filled(&self) -> Seq<bool> {
        self.filled@
    }

    /// Every incomplete record is the stub of a node being lowered, and every
    /// complete struct or union record lists the members of a struct node
    /// that has its handle.
    pub open spec fn complete(&self, g: MetaGraph) -> bool {
        &&& self.filled().len() == self.table().len()
        &&& stubs_owned(*self)
        &&& forall|h: int| 0 <= h < self.table().len() && !#[trigger] self.filled()[h] ==> self.table().keys()[h] is Named
        &&& forall|h: int|
            0 <= h < self.table().len() && (#[trigger] self.table().keys()[h]) is Named ==> exists|c: int|
                0 <= c < self.memo().len() && #[trigger] has_handle(self.memo(), c, h)
        &&& forall|c: int|
            0 <= c < self.memo().len() && #[trigger] self.active()[c] && self.memo()[c] is None
                && is_named_node(g.nodes@[c]) ==> self.headless()[c]
        &&& forall|c: int| 0 <= c < self.headless().len() && #[trigger] self.headless()[c] ==> is_named_node(g.nodes@[c])
        &&& forall|h: int|
            0 <= h < self.table().len() && #[trigger] self.filled()[h] && is_struct_key(
                self.table().keys()[h],
            ) ==> exists|c: int|
                0 <= c < self.memo().len() && #[trigger] has_handle(self.memo(), c, h) && (
                g.nodes@[c] matches MetaNode::Composite(cn) && members_fit(
                    self.table().types()[h],
                    cn,
                    self.memo(),
                ))
        &&& forall|h: int|
            0 <= h < self.table().len() && #[trigger] self.filled()[h] && self.table().types()[h] is Enum
                ==> exists|c: int|
                0 <= c < g.nodes@.len() && #[trigger] has_handle(self.memo(), c, h) && enum_record_of(
                    g,
                    c,
                    self.table().types()[h],
                )
        &&& forall|h: int|
            0 <= h < self.table().len() && #[trigger] self.filled()[h] && self.table().types()[h] is Struct
                && self.table().keys()[h] is Named && self.table().keys()[h]->Named_0 == NamedKind::Enum
                ==> exists|c: int|
                0 <= c < g.nodes@.len() && #[trigger] has_handle(self.memo(), c, h) && (g.nodes@[c] matches MetaNode::Enum(en)
                && data_enum_fits(self.table(), self.table().types()[h], en))
    }

    /// Lowering node `n` with `budget` succeeds from this state: every node
    /// it reaches has a rule, headers are acyclic, names are distinct, each
    /// struct or enum whose header is being lowered reaches `n` from its
    /// header, and the budget covers the depth still possible.
    pub open spec fn lowerable(&self, g: MetaGraph, n: int, budget: int) -> bool {
        &&& headers_acyclic(g)
        &&& names_distinct(g)
        &&& forall|w: int| #[trigger] reaches(g, n, w) ==> supported(g.nodes@[w])
        &&& forall|c: int| 0 <= c < self.headless().len() && #[trigger] self.headless()[c] ==> header_reaches(g, c, n)
        &&& self.memo()[n] is Some || (self.active()[n] && is_named_node(g.nodes@[n])) || exists|rank: Seq<nat>|
            #[trigger] ranked(g, rank) && budget > rank[n] + g.nodes@.len() * idle_others(self.active(), n)
    }

    /// The state of a pass over a graph of `n` nodes.
    pub open spec fn wf(&self, n: nat) -> bool {
        &&& self.table().wf()
        &&& self.memo().len() == n
        &&& self.active().len() == n
        &&& self.headless().len() == n
        &&& forall|i: int|
            0 <= i < n && (#[trigger] self.memo()[i]) is Some ==> self.memo()[i]->0
                < self.table().len()
        &&& forall|i: int|
            0 <= i < n && #[trigger] self.headless()[i] ==> self.active()[i] && self.memo()[i] is None
    }

    /// `self` is a later state of the pass than `prev`: records are only
    /// added, keys and scoped names are kept, and a node's handle never changes.
    pub open spec fn extends(&self, prev: Lowerer) -> bool {
        &&& prev.table().len() <= self.table().len()
        &&& forall|i: int|
            0 <= i < prev.table().len() ==> #[trigger] self.table().keys()[i]
                == prev.table().keys()[i]
        &&& forall|i: int|
            0 <= i < prev.table().len() ==> #[trigger] scoped_name(self.table().types()[i])
                == scoped_name(prev.table().types()[i])
        &&& self.memo().len() == prev.memo().len()
        &&& forall|m: int|
            0 <= m < prev.memo().len() && (#[trigger] prev.memo()[m]) is Some ==> self.memo()[m]
                == prev.memo()[m]
        &&& forall|i: int|
            0 <= i < prev.table().len() && #[trigger] prev.filled()[i] ==> self.filled()[i]
                && self.table().types()[i] == prev.table().types()[i]
        &&& self.active().len() == prev.active().len()
        &&& forall|m: int|
            0 <= m < prev.active().len() && #[trigger] prev.active()[m] ==> self.active()[m]
        &&& self.headless().len() == prev.headless().len()
        &&& forall|m: int|
            0 <= m < prev.headless().len() && #[trigger] prev.headless()[m] ==> self.headless()[m]
    }

    /// Every node with a handle is identified by the record at that handle.
    pub open spec fn sound(&self, g: MetaGraph) -> bool {
        forall|m: int|
            0 <= m < self.memo().len() && (#[trigger] self.memo()[m]) is Some ==> identifies(
                self.table(),
                self.memo()[m]->0 as int,
                g.nodes@[m],
                self.memo(),
            )
    }

    /// A fresh pass over a graph of `node_count` nodes.
    pub fn new(node_count: usize) -> (r: Lowerer)
        ensures
            r.wf(node_count as nat),
            r.table().len() == 0,
            r.filled().len() == 0,
            forall|m: int| 0 <= m < node_count ==> (#[trigger] r.memo()[m]) is None,
            forall|m: int| 0 <= m < node_count ==> !#[trigger] r.active()[m],
            forall|m: int| 0 <= m < node_count ==> !#[trigger] r.headless()[m],
    {
        let mut memo: Vec<Option<usize>> = Vec::new();
        let mut active: Vec<bool> = Vec::new();
        let mut i: usize = 0;
        while i < node_count
            invariant
                i <= node_count,
                memo@.len() == i,
                active@.len() == i,
                forall|m: int| 0 <= m < i ==> (#[trigger] memo@[m]) is None,
                forall|m: int| 0 <= m < i ==> !#[trigger] active@[m],
            decreases node_count - i,
        {
            memo.push(None);
            active.push(false);
            i = i + 1;
        }
        Lowerer {
            table: TypeTable::new(),
            memo,
            active,
            filled: Ghost(Seq::empty()),
            headless: Ghost(Seq::new(node_count as nat, |i: int| false)),
        }
    }

    /// The table and each node's handle, at the end of the pass.
    pub fn finish(self) -> (r: (TypeTable, Vec<Option<usize>>))
        ensures
            r.0 == self.table(),
            r.1@ == self.memo(),
    {
        (self.table, self.memo)
    }

    /// Finds the record with key `k`, or appends `t` under it.
    fn intern(&mut self, t: BtfType, k: IdentityKey, g: &MetaGraph) -> (r: usize)
        requires
            old(self).wf(g.nodes@.len()),
            old(self).sound(*g),
            old(self).complete(*g),
            g.wf(),
            refs_below(t, old(self).table().len() as int),
            record_fits(t, k@),
            !is_struct_key(k@),
            !(k@ is Named),
            !(t is Enum),
            scoped_name(t) is None,
        ensures
            final(self).wf(g.nodes@.len()),
            final(self).sound(*g),
            final(self).complete(*g),
            final(self).extends(*old(self)),
            r < final(self).table().len(),
            final(self).table().keys()[r as int] == k@,
            final(self).active() == old(self).active(),
            final(self).headless() == old(self).headless(),
            final(self).memo() == old(self).memo(),
    {
        let r = match self.table.find(&k) {
            Some(h) => h,
            None => {
                let h = self.table.push(t, k);
                self.filled = Ghost(self.filled@.push(true));
                h
            },
        };
        proof {
            lemma_sound_grow(*self, *old(self), *g);
            lemma_stubs_kept(*self, *old(self));
            lemma_complete_grow(*self, *old(self), *g);
        }
        r
    }

    /// Lowers node `n` and returns its handle. A node that already has a
    /// handle gets it back with nothing emitted. A struct that is reached
    /// again while its members are being lowered gets the handle of its
    /// stub. `budget` bounds the depth of nesting.
    #[verifier::rlimit(100)]
    #[verifier::spinoff_prover]
    pub fn lower(&mut self, g: &MetaGraph, n: usize, budget: usize) -> (r: Result<usize, ConvError>)
        requires
            old(self).wf(g.nodes@.len()),
            old(self).sound(*g),
            old(self).complete(*g),
            g.wf(),
            n < g.nodes@.len(),
        ensures
            final(self).wf(g.nodes@.len()),
            final(self).sound(*g),
            final(self).complete(*g),
            final(self).extends(*old(self)),
            old(self).memo()[n as int] is Some ==> r == Ok::<usize, ConvError>(
                old(self).memo()[n as int]->0,
            ) && *final(self) == *old(self),
            r matches Ok(h) ==> h < final(self).table().len() && final(self).memo()[n as int]
                == Some(h) && final(self).active() == old(self).active() && final(self).headless() == old(self).headless(),
            r matches Ok(h) ==> identifies(final(self).table(), h as int, g.nodes@[n as int], final(self).memo()),
            old(self).memo()[n as int] is None && old(self).active()[n as int] && is_named_node(g.nodes@[n as int])
                ==> r == Err::<usize, ConvError>(
                ConvError { kind: ErrorKind::UnsupportedNodeKind, node: n },
            ),
            old(self).memo()[n as int] is None && !(old(self).active()[n as int] && is_named_node(g.nodes@[n as int]))
                && budget == 0 ==> r == Err::<
                usize,
                ConvError,
            >(ConvError { kind: ErrorKind::UnboundedRecursionDepth, node: n }),
            old(self).memo()[n as int] is None && !(old(self).active()[n as int] && is_named_node(g.nodes@[n as int]))
                && budget > 0 ==> {
                &&& g.nodes@[n as int] is Unsupported ==> r == Err::<usize, ConvError>(
                    ConvError { kind: ErrorKind::UnsupportedNodeKind, node: n },
                )
                &&& g.nodes@[n as int] is Basic ==> r is Ok
                &&& (g.nodes@[n as int] matches MetaNode::Enum(e) && enum_shape(e.repr, e.variants@) is Err)
                    ==> r is Err
            },
            old(self).lowerable(*g, n as int, budget as int) ==> r is Ok,
        decreases budget, 3int,
    {
        if let Some(h) = self.memo[n] {
            proof {
                assert(self.memo()[n as int] is Some);
            }
            return Ok(h);
        }
        let named = match &g.nodes[n] {
            MetaNode::Composite(_) => true,
            MetaNode::Enum(_) => true,
            _ => false,
        };
        // A struct or enum reached again before it has a stub refers to itself
        // through its scope or generic arguments. A pointer, array or
        // signature reached again is lowered again: the struct between the two
        // visits has a stub by now.
        let was_active = self.active[n];
        proof {
            assert(named == is_named_node(g.nodes@[n as int]));
        }
        if was_active && named {
            proof {
                lemma_no_reentry(*self, *g, n as int, budget as int);
            }
            return Err(ConvError { kind: ErrorKind::UnsupportedNodeKind, node: n });
        }
        if budget == 0 {
            proof {
                if self.lowerable(*g, n as int, budget as int) {
                    lemma_budget_positive(*self, *g, n as int, budget as int);
                }
            }
            return Err(ConvError { kind: ErrorKind::UnboundedRecursionDepth, node: n });
        }
        let ghost nn = g.nodes@.len();
        let ghost s0 = *self;
        proof {
            assert(node_refs_ok(g.nodes@[n as int], nn as int));
            assert(!s0.headless()[n as int]);
        }
        if !was_active {
            self.active.set(n, true);
        }
        if named {
            self.headless = Ghost(self.headless@.update(n as int, true));
        }
        let ghost s1 = *self;
        let ghost node = g.nodes@[n as int];
        proof {
            lemma_stubs_more_active(s1, s0);
            assert(s1.complete(*g));
            assert(s1.extends(s0));
            assert(s1.active()[n as int] && s1.memo()[n as int] is None);
            assert(named == is_named_node(node));
        }
        let ghost pre = s0.lowerable(*g, n as int, budget as int);
        proof {
            assert(s1.active() =~= s0.active().update(n as int, true));
            if pre {
                lemma_children_lowerable(s0, s1, *g, n as int, budget as int);
                lemma_reaches_self(*g, n as int);
                assert(supported(node));
            }
        }
        let r = match &g.nodes[n] {
            MetaNode::Basic { name, bit_size, encoding } => {
                let t = BtfType::Int { name: sanitize(name.as_str()), bits: *bit_size, encoding: *encoding };
                let k = IdentityKey::Basic { name: name.clone(), bits: *bit_size, encoding: *encoding };
                let h = self.intern(t, k, g);
                proof {
                    lemma_extends_trans(*self, s1, s0);
                }
                Ok(h)
            },
            MetaNode::Pointer { pointee } => match {
                proof {
                    if pre {
                        assert(refers_to(node, *pointee as int));
                    }
                }
                self.lower(g, *pointee, budget - 1)
            } {
                Ok(t) => {
                    let ghost s2 = *self;
                    let h = self.intern(BtfType::Pointer { target: t }, IdentityKey::Pointer { target: t }, g);
                    proof {
                        lemma_extends_trans(*self, s2, s1);
                        lemma_extends_trans(*self, s1, s0);
                    }
                    Ok(h)
                },
                Err(e) => Err(e),
            },
            MetaNode::Array { element, count } => match {
                proof {
                    if pre {
                        assert(refers_to(node, *element as int));
                    }
                }
                self.lower(g, *element, budget - 1)
            } {
                Ok(t) => {
                    let ghost s2 = *self;
                    let h = self.intern(
                        BtfType::Array { element: t, count: *count },
                        IdentityKey::Array { element: t, count: *count },
                        g,
                    );
                    proof {
                        lemma_extends_trans(*self, s2, s1);
                        lemma_extends_trans(*self, s1, s0);
                    }
                    Ok(h)
                },
                Err(e) => Err(e),
            },
            MetaNode::Subroutine { ret, params, is_pointer } => {
                proof {
                    if pre {
                        if let Some(i) = *ret {
                            assert(refers_to(node, i as int));
                        }
                        assert forall|k: int| 0 <= k < params@.len() implies #[trigger] s1.lowerable(
                            *g,
                            params@[k] as int,
                            budget - 1,
                        ) by {
                            assert(refers_to(node, params@[k] as int));
                        }
                    }
                }
                let r = self.lower_subroutine(g, *ret, params, *is_pointer, budget);
                proof {
                    lemma_extends_trans(*self, s1, s0);
                }
                r
            },
            MetaNode::Namespace { name, parent } => match {
                proof {
                    if pre {
                        if let Some(i) = *parent {
                            assert(refers_to(node, i as int));
                        }
                    }
                }
                self.lower_opt(g, *parent, budget)
            } {
                Ok(p) => {
                    let ghost s2 = *self;
                    let h = self.intern(
                        BtfType::Namespace { name: sanitize(name.as_str()), parent: p },
                        IdentityKey::Namespace { name: name.clone(), parent: p },
                        g,
                    );
                    proof {
                        lemma_extends_trans(*self, s2, s1);
                        lemma_extends_trans(*self, s1, s0);
                    }
                    Ok(h)
                },
                Err(e) => Err(e),
            },
            MetaNode::Composite(c) => {
                let kind = match c.kind {
                    CompositeKind::Struct => NamedKind::Struct,
                    CompositeKind::Union => NamedKind::Union,
                };
                proof {
                    if pre {
                        if let Some(i) = c.scope {
                            assert(header_ref(node, i as int) && refers_to(node, i as int));
                        }
                        assert forall|k: int| 0 <= k < c.generic_args@.len() implies #[trigger] s1.lowerable(
                            *g,
                            c.generic_args@[k] as int,
                            budget - 1,
                        ) by {
                            assert(header_ref(node, c.generic_args@[k] as int));
                            assert(refers_to(node, c.generic_args@[k] as int));
                        }
                    }
                }
                match self.lower_scope_and_args(g, c.scope, &c.generic_args, budget) {
                    Err(e) => Err(e),
                    Ok((scope, args)) => {
                        let key = IdentityKey::Named { kind, scope, name: c.name.clone(), args };
                        match self.table.find(&key) {
                            Some(h) => Ok(h),
                            None => {
                                let name = sanitize(c.name.as_str());
                                if !name.as_str().is_empty() && self.table.name_taken(scope, &name) {
                                    proof {
                                        if pre {
                                            assert(has_name(node));
                                            lemma_name_free(*self, *g, n as int);
                                        }
                                    }
                                    Err(ConvError { kind: ErrorKind::NameCollisionInvariantViolation, node: n })
                                } else {
                                    let ghost s2 = *self;
                                    let is_union = match c.kind {
                                        CompositeKind::Struct => false,
                                        CompositeKind::Union => true,
                                    };
                                    let stub = BtfType::Struct {
                                        name: name.clone(),
                                        scope,
                                        is_union,
                                        size_bits: c.size_bits,
                                        members: Vec::new(),
                                    };
                                    proof {
                                        lemma_extends_trans(s2, s1, s0);
                                    }
                                    let h = self.table.push(stub, key);
                                    self.filled = Ghost(self.filled@.push(false));
                                    let ghost s2b = *self;
                                    proof {
                                        lemma_sound_grow(s2b, s2, *g);
                                    }
                                    self.memo.set(n, Some(h));
                                    self.headless = Ghost(self.headless@.update(n as int, false));
                                    proof {
                                        assert(self.extends(s0));
                                        assert(identifies(s2b.table(), h as int, node, s2b.memo()));
                                        lemma_identifies_stable(s2b.table(), s2b.memo(), self.table(), self.memo(), h as int, node);
                                        lemma_sound_grow(*self, s2b, *g);
                                        lemma_stub_added(*self, s2, n as int, h);
                                        assert(has_handle(self.memo(), n as int, h as int));
                                        lemma_complete_grow(*self, s2, *g);
                                    }
                                    let ghost s3 = *self;
                                    proof {
                                        if pre {
                                            lemma_children_lowerable(s0, s3, *g, n as int, budget as int);
                                            assert forall|k: int| 0 <= k < c.members@.len() implies #[trigger] s3.lowerable(
                                                *g,
                                                c.members@[k].ty as int,
                                                budget - 1,
                                            ) by {
                                                assert(refers_to(node, c.members@[k].ty as int));
                                            }
                                        }
                                    }
                                    let r = self.lower_members(g, n, c, h, name, scope, is_union, budget);
                                    proof {
                                        lemma_extends_trans(*self, s3, s0);
                                        assert(s3.memo()[n as int] == Some(h));
                                        assert(self.memo()[n as int] == Some(h));
                                        assert(r is Ok ==> self.filled()[h as int]);
                                    }
                                    r
                                }
                            },
                        }
                    },
                }
            },
            MetaNode::Enum(e) => {
                let r = self.lower_enum_node(g, n, e, budget, Ghost(s0));
                r
            },
            MetaNode::Unsupported => Err(ConvError { kind: ErrorKind::UnsupportedNodeKind, node: n }),
        };
        proof {
            assert(self.extends(s0));
        }
        match r {
            Ok(h) => {
                let ghost s4 = *self;
                proof {
                    assert(s1.active()[n as int]);
                    assert(identifies(s4.table(), h as int, node, s4.memo()));
                    if s4.memo()[n as int] is Some && !named {
                        lemma_same_node_same_record(s4.table(), s4.memo(), node, s4.memo()[n as int]->0 as int, h as int);
                        assert(!(s4.table().keys()[h as int] is Named));
                    }
                    assert(s4.memo()[n as int] is None || (s4.memo()[n as int] == Some(h) && s4.filled()[h as int]));
                }
                self.memo.set(n, Some(h));
                if !was_active {
                    self.active.set(n, false);
                }
                self.headless = Ghost(self.headless@.update(n as int, false));
                proof {
                    assert(self.active() =~= s0.active());
                    assert(self.extends(s0));
                    lemma_identifies_stable(s4.table(), s4.memo(), self.table(), self.memo(), h as int, node);
                    lemma_sound_grow(*self, s4, *g);
                    lemma_stub_released(*self, s4, n as int, h, !was_active);
                    lemma_complete_grow(*self, s4, *g);
                }
                Ok(h)
            },
            Err(e) => Err(e),
        }
    }

    /// Lowers enum node `n`, which is marked as being lowered, its header
    /// pending: its scope and generic arguments, then its enumeration record,
    /// or the anonymous struct of a data-carrying enum.
    #[verifier::rlimit(100)]
    #[verifier::spinoff_prover]
    fn lower_enum_node(&mut self, g: &MetaGraph, n: usize, e: &EnumNode, budget: usize, Ghost(s0): Ghost<Lowerer>) -> (r:
        Result<usize, ConvError>)
        requires
            g.wf(),
            n < g.nodes@.len(),
            g.nodes@[n as int] == MetaNode::Enum(*e),
            budget > 0,
            s0.wf(g.nodes@.len()),
            s0.sound(*g),
            s0.complete(*g),
            s0.memo()[n as int] is None,
            !s0.active()[n as int],
            !s0.headless()[n as int],
            old(self).wf(g.nodes@.len()),
            old(self).sound(*g),
            old(self).complete(*g),
            old(self).extends(s0),
            old(self).table() == s0.table(),
            old(self).memo() == s0.memo(),
            old(self).filled() == s0.filled(),
            old(self).active() == s0.active().update(n as int, true),
            old(self).headless() == s0.headless().update(n as int, true),
        ensures
            final(self).wf(g.nodes@.len()),
            final(self).sound(*g),
            final(self).complete(*g),
            final(self).extends(s0),
            r matches Ok(h) ==> final(self).active() == old(self).active() && (forall|c: int|
                0 <= c < g.nodes@.len() && c != n ==> final(self).headless()[c] == old(self).headless()[c])
                && identifies(final(self).table(), h as int, g.nodes@[n as int], final(self).memo()) && (
                final(self).memo()[n as int] is None || (final(self).memo()[n as int] == Some(h)
                && final(self).filled()[h as int])),
            enum_shape(e.repr, e.variants@) is Err ==> r is Err,
            s0.lowerable(*g, n as int, budget as int) ==> r is Ok,
        decreases budget, 2int,
    {
        let ghost s1 = *self;
        let ghost node = g.nodes@[n as int];
        let ghost pre = s0.lowerable(*g, n as int, budget as int);
        proof {
            assert(s1.active()[n as int] && s1.memo()[n as int] is None && s1.headless()[n as int]);
            if pre {
                lemma_children_lowerable(s0, s1, *g, n as int, budget as int);
                lemma_reaches_self(*g, n as int);
                assert(supported(node));
            }
        }
        let r = match {
        proof {
            if pre {
                if let Some(i) = e.scope {
                    assert(header_ref(node, i as int) && refers_to(node, i as int));
                }
                assert forall|k: int| 0 <= k < e.generic_args@.len() implies #[trigger] s1.lowerable(
                    *g,
                    e.generic_args@[k] as int,
                    budget - 1,
                ) by {
                    assert(header_ref(node, e.generic_args@[k] as int));
                    assert(refers_to(node, e.generic_args@[k] as int));
                }
            }
        }
        self.lower_scope_and_args(g, e.scope, &e.generic_args, budget)
    } {
        Err(err) => {
            proof {
                assert(!pre);
            }
            Err(err)
        },
        Ok((scope, args)) => {
            let key = IdentityKey::Named { kind: NamedKind::Enum, scope, name: e.name.clone(), args };
            match classify(e) {
                Err(kind) => {
                    proof {
                        assert(!pre);
                    }
                    Err(ConvError { kind, node: n })
                },
                Ok(plan) => match self.table.find(&key) {
                    Some(h) => {
                        // The record found must have the shape this enum lowers to.
                        let data = match &plan {
                            EnumPlan::Data => true,
                            _ => false,
                        };
                        let anonymous = match self.table.get(h) {
                            BtfType::Struct { .. } => true,
                            _ => false,
                        };
                        proof {
                            if pre {
                                lemma_enum_hit_shape(*self, *g, n as int, h as int);
                            }
                        }
                        if anonymous == data {
                            Ok(h)
                        } else {
                            proof {
                                assert(!pre);
                            }
                            Err(ConvError { kind: ErrorKind::NameCollisionInvariantViolation, node: n })
                        }
                    },
                    None => match plan {
                    EnumPlan::Plain { wide, signed, values } => {
                        let name = sanitize(e.name.as_str());
                        if self.table.name_taken(scope, &name) {
                            proof {
                                if pre {
                                    lemma_name_free(*self, *g, n as int);
                                    assert(exists|i: int| 0 <= i < self.table().len() && #[trigger] scoped_name(self.table().types()[i]) == Some((scope, name@)));
                                }
                                assert(!pre);
                            }
                            Err(ConvError { kind: ErrorKind::NameCollisionInvariantViolation, node: n })
                        } else {
                            let ghost s2 = *self;
                            let t = plain_enum_record(e, name, scope, wide, signed, values);
                            proof {
                                lemma_extends_trans(s2, s1, s0);
                                assert(enum_record_of(*g, n as int, t));
                            }
                            let h = self.table.push(t, key);
                            self.filled = Ghost(self.filled@.push(true));
                            let ghost s2b = *self;
                            proof {
                                lemma_sound_grow(s2b, s2, *g);
                            }
                            self.memo.set(n, Some(h));
                            self.headless = Ghost(self.headless@.update(n as int, false));
                            proof {
                                assert(self.extends(s0));
                                assert(identifies(s2b.table(), h as int, node, s2b.memo()));
                                lemma_identifies_stable(s2b.table(), s2b.memo(), self.table(), self.memo(), h as int, node);
                                lemma_sound_grow(*self, s2b, *g);
                                lemma_stubs_memo_set(*self, s2, n as int, h);
                                assert(has_handle(self.memo(), n as int, h as int));
                                lemma_complete_grow(*self, s2, *g);
                            }
                            Ok(h)
                        }
                    },
                    EnumPlan::Data => {
                        let ghost s2 = *self;
                        let stub = BtfType::Struct {
                            name: String::new(),
                            scope,
                            is_union: false,
                            size_bits: e.size_bits,
                            members: Vec::new(),
                        };
                        proof {
                            lemma_extends_trans(s2, s1, s0);
                        }
                        let h = self.table.push(stub, key);
                        self.filled = Ghost(self.filled@.push(false));
                        let ghost s2b = *self;
                        proof {
                            lemma_sound_grow(s2b, s2, *g);
                        }
                        self.memo.set(n, Some(h));
                        self.headless = Ghost(self.headless@.update(n as int, false));
                        proof {
                            assert(self.extends(s0));
                            assert(identifies(s2b.table(), h as int, node, s2b.memo()));
                            lemma_identifies_stable(s2b.table(), s2b.memo(), self.table(), self.memo(), h as int, node);
                            lemma_sound_grow(*self, s2b, *g);
                            lemma_stub_added(*self, s2, n as int, h);
                            assert(has_handle(self.memo(), n as int, h as int));
                            lemma_complete_grow(*self, s2, *g);
                        }
                        let ghost s3 = *self;
                        proof {
                            if pre {
                                lemma_children_lowerable(s0, s3, *g, n as int, budget as int);
                                assert forall|k: int, f: int|
                                    0 <= k < e.variants@.len() && 0 <= f < e.variants@[k].fields@.len() implies #[trigger] s3.lowerable(
                                    *g,
                                    e.variants@[k].fields@[f].ty as int,
                                    budget - 1,
                                ) by {
                                    assert(refers_to(node, e.variants@[k].fields@[f].ty as int));
                                }
                            }
                        }
                        let r = self.lower_variants(g, n, e, h, scope, budget);
                        proof {
                            if r is Err {
                                assert(!pre);
                            }
                        }
                        proof {
                            lemma_extends_trans(*self, s3, s0);
                            assert(s3.memo()[n as int] == Some(h));
                            assert(self.memo()[n as int] == Some(h));
                            assert(r is Ok ==> self.filled()[h as int]);
                        }
                        r
                    },
                    },
                },
            }
        },
    };
        proof {
            if r is Ok {
                let h = r->Ok_0;
                assert(identifies(self.table(), h as int, node, self.memo()));
            }
        }
        r
    }

    /// Lowers an optional reference.
    fn lower_opt(&mut self, g: &MetaGraph, r: Option<usize>, budget: usize) -> (res: Result<
        Option<usize>,
        ConvError,
    >)
        requires
            old(self).wf(g.nodes@.len()),
            old(self).sound(*g),
            old(self).complete(*g),
            g.wf(),
            opt_ref_ok(r, g.nodes@.len() as int),
            budget > 0,
        ensures
            final(self).wf(g.nodes@.len()),
            final(self).sound(*g),
            final(self).complete(*g),
            final(self).extends(*old(self)),
            res matches Ok(o) ==> opt_below(o, final(self).table().len() as int)
                && final(self).active() == old(self).active() && final(self).headless() == old(self).headless() && opt_resolved(final(self).memo(), r)
                && o == res_opt(final(self).memo(), r),
            (r matches Some(i) ==> old(self).lowerable(*g, i as int, budget - 1)) ==> res is Ok,
        decreases budget, 0int,
    {
        match r {
            Some(i) => match self.lower(g, i, budget - 1) {
                Ok(h) => Ok(Some(h)),
                Err(e) => Err(e),
            },
            None => Ok(None),
        }
    }

    /// Lowers a list of references, in order.
    fn lower_list(&mut self, g: &MetaGraph, refs: &Vec<usize>, budget: usize) -> (res: Result<
        Vec<usize>,
        ConvError,
    >)
        requires
            old(self).wf(g.nodes@.len()),
            old(self).sound(*g),
            old(self).complete(*g),
            g.wf(),
            refs_ok(refs@, g.nodes@.len() as int),
            budget > 0,
        ensures
            final(self).wf(g.nodes@.len()),
            final(self).sound(*g),
            final(self).complete(*g),
            final(self).extends(*old(self)),
            res matches Ok(hs) ==> hs@.len() == refs@.len() && (forall|k: int|
                0 <= k < hs@.len() ==> #[trigger] hs@[k] < final(self).table().len())
                && final(self).active() == old(self).active() && final(self).headless() == old(self).headless() && list_resolved(final(self).memo(), refs@)
                && hs@ == res_list(final(self).memo(), refs@),
            (forall|k: int| 0 <= k < refs@.len() ==> #[trigger] old(self).lowerable(*g, refs@[k] as int, budget - 1))
                ==> res is Ok,
        decreases budget, 0int,
    {
        let ghost s0 = *self;
        let ghost ok_all = forall|k: int|
            0 <= k < refs@.len() ==> #[trigger] s0.lowerable(*g, refs@[k] as int, budget - 1);
        let mut hs: Vec<usize> = Vec::new();
        let mut i: usize = 0;
        while i < refs.len()
            invariant
                ok_all ==> forall|k: int|
                    0 <= k < refs@.len() ==> #[trigger] self.lowerable(*g, refs@[k] as int, budget - 1),
                ok_all == forall|k: int|
                    0 <= k < refs@.len() ==> #[trigger] s0.lowerable(*g, refs@[k] as int, budget - 1),
                self.wf(g.nodes@.len()),
                self.sound(*g),
                self.complete(*g),
                g.wf(),
                refs_ok(refs@, g.nodes@.len() as int),
                budget > 0,
                i <= refs@.len(),
                hs@.len() == i,
                forall|k: int| 0 <= k < i ==> #[trigger] hs@[k] < self.table().len(),
                forall|k: int| 0 <= k < i ==> self.memo()[refs@[k] as int] == Some(#[trigger] hs@[k]),
                s0 == *old(self),
                self.extends(s0),
                self.active() == s0.active(),
            decreases refs@.len() - i,
        {
            let ghost prev = *self;
            let r = self.lower(g, refs[i], budget - 1);
            proof {
                lemma_extends_trans(*self, prev, s0);
            }
            match r {
                Ok(h) => {
                    hs.push(h);
                },
                Err(e) => {
                    return Err(e);
                },
            }
            proof {
                if ok_all {
                    assert forall|k: int| 0 <= k < refs@.len() implies #[trigger] self.lowerable(
                        *g,
                        refs@[k] as int,
                        budget - 1,
                    ) by {
                        lemma_lowerable_kept(*self, prev, *g, refs@[k] as int, budget - 1);
                    }
                }
                assert forall|k: int| 0 <= k < i + 1 implies self.memo()[refs@[k] as int] == Some(
                    #[trigger] hs@[k],
                ) by {
                    if k < i {
                        assert(prev.memo()[refs@[k] as int] == Some(hs@[k]));
                        assert(refs@[k] < g.nodes@.len());
                    }
                }
            }
            i = i + 1;
        }
        proof {
            assert forall|k: int| 0 <= k < refs@.len() implies (#[trigger] self.memo()[refs@[k] as int]) is Some by {
                assert(self.memo()[refs@[k] as int] == Some(hs@[k]));
            }
            assert(hs@ =~= res_list(self.memo(), refs@));
        }
        Ok(hs)
    }

    /// Lowers the scope and the generic arguments of a named type.
    fn lower_scope_and_args(
        &mut self,
        g: &MetaGraph,
        scope: Option<usize>,
        args: &Vec<usize>,
        budget: usize,
    ) -> (res: Result<(Option<usize>, Vec<usize>), ConvError>)
        requires
            old(self).wf(g.nodes@.len()),
            old(self).sound(*g),
            old(self).complete(*g),
            g.wf(),
            opt_ref_ok(scope, g.nodes@.len() as int),
            refs_ok(args@, g.nodes@.len() as int),
            budget > 0,
        ensures
            final(self).wf(g.nodes@.len()),
            final(self).sound(*g),
            final(self).complete(*g),
            final(self).extends(*old(self)),
            res matches Ok(p) ==> opt_below(p.0, final(self).table().len() as int) && (forall|
                k: int,
            | 0 <= k < p.1@.len() ==> #[trigger] p.1@[k] < final(self).table().len())
                && final(self).active() == old(self).active() && final(self).headless() == old(self).headless() && opt_resolved(final(self).memo(), scope)
                && p.0 == res_opt(final(self).memo(), scope) && list_resolved(final(self).memo(), args@)
                && p.1@ == res_list(final(self).memo(), args@),
            (scope matches Some(i) ==> old(self).lowerable(*g, i as int, budget - 1)) && (forall|k: int|
                0 <= k < args@.len() ==> #[trigger] old(self).lowerable(*g, args@[k] as int, budget - 1))
                ==> res is Ok,
        decreases budget, 1int,
    {
        let ghost s0 = *self;
        let s = match self.lower_opt(g, scope, budget) {
            Ok(s) => s,
            Err(e) => return Err(e),
        };
        let ghost s1 = *self;
        proof {
            if forall|k: int| 0 <= k < args@.len() ==> #[trigger] s0.lowerable(*g, args@[k] as int, budget - 1) {
                assert forall|k: int| 0 <= k < args@.len() implies #[trigger] s1.lowerable(
                    *g,
                    args@[k] as int,
                    budget - 1,
                ) by {
                    assert(s0.lowerable(*g, args@[k] as int, budget - 1));
                    lemma_lowerable_kept(s1, s0, *g, args@[k] as int, budget - 1);
                }
            }
        }
        let r = self.lower_list(g, args, budget);
        proof {
            lemma_extends_trans(*self, s1, s0);
            if let Some(i) = scope {
                assert(s1.memo()[i as int] is Some);
            }
        }
        match r {
            Ok(a) => Ok((s, a)),
            Err(e) => Err(e),
        }
    }

    /// Lowers a function signature, wrapped in a pointer for a function
    /// pointer value.
    fn lower_subroutine(
        &mut self,
        g: &MetaGraph,
        ret: Option<usize>,
        params: &Vec<usize>,
        is_pointer: bool,
        budget: usize,
    ) -> (res: Result<usize, ConvError>)
        requires
            old(self).wf(g.nodes@.len()),
            old(self).sound(*g),
            old(self).complete(*g),
            g.wf(),
            opt_ref_ok(ret, g.nodes@.len() as int),
            refs_ok(params@, g.nodes@.len() as int),
            budget > 0,
        ensures
            final(self).wf(g.nodes@.len()),
            final(self).sound(*g),
            final(self).complete(*g),
            final(self).extends(*old(self)),
            res matches Ok(h) ==> h < final(self).table().len() && final(self).active() == old(
                self,
            ).active() && final(self).headless() == old(self).headless() && is_proto(final(self).table(), h as int, ret, params@, is_pointer, final(self).memo()),
            (ret matches Some(i) ==> old(self).lowerable(*g, i as int, budget - 1)) && (forall|k: int|
                0 <= k < params@.len() ==> #[trigger] old(self).lowerable(*g, params@[k] as int, budget - 1))
                ==> res is Ok,
        decreases budget, 2int,
    {
        let ghost s0 = *self;
        let (r, ps) = match self.lower_scope_and_args(g, ret, params, budget) {
            Ok(p) => p,
            Err(e) => return Err(e),
        };
        let ghost s2 = *self;
        let key = IdentityKey::FuncProto { ret: r, params: copy_handles(&ps) };
        let proto = self.intern(BtfType::FuncProto { ret: r, params: ps }, key, g);
        proof {
            lemma_extends_trans(*self, s2, s0);
        }
        if is_pointer {
            let ghost s3 = *self;
            let h = self.intern(
                BtfType::Pointer { target: proto },
                IdentityKey::Pointer { target: proto },
                g,
            );
            proof {
                lemma_extends_trans(*self, s3, s0);
                assert(self.table().keys()[proto as int] == s3.table().keys()[proto as int]);
            }
            Ok(h)
        } else {
            Ok(proto)
        }
    }

    /// Lowers the members of a struct whose stub is at `h`, then fills the stub.
    fn lower_members(
        &mut self,
        g: &MetaGraph,
        n: usize,
        c: &CompositeNode,
        h: usize,
        name: String,
        scope: Option<usize>,
        is_union: bool,
        budget: usize,
    ) -> (res: Result<usize, ConvError>)
        requires
            old(self).wf(g.nodes@.len()),
            old(self).sound(*g),
            old(self).complete(*g),
            g.wf(),
            node_refs_ok(MetaNode::Composite(*c), g.nodes@.len() as int),
            budget > 0,
            h < old(self).table().len(),
            n < g.nodes@.len(),
            g.nodes@[n as int] == MetaNode::Composite(*c),
            old(self).memo()[n as int] == Some(h),
            !old(self).filled()[h as int],
            opt_below(scope, old(self).table().len() as int),
            scoped_name(old(self).table().types()[h as int]) == (if name@.len() > 0 {
                Some((scope, name@))
            } else {
                None
            }),
            old(self).table().keys()[h as int] matches KeyView::Named(k, s, nm, _) && k != NamedKind::Enum
                && s == scope && name@ == sanitized_name(nm) && is_union == (k == NamedKind::Union),
        ensures
            final(self).wf(g.nodes@.len()),
            final(self).sound(*g),
            final(self).complete(*g),
            final(self).extends(*old(self)),
            res matches Ok(r) ==> r == h && final(self).active() == old(self).active() && final(self).headless() == old(self).headless() && final(self).filled()[h as int],
            res matches Ok(r) ==> (final(self).table().types()[h as int] matches BtfType::Struct {
                members,
                ..
            } && members@.len() == c.members@.len() && forall|k: int|
                0 <= k < members@.len() ==> (#[trigger] members@[k]).name@ == sanitized_name(
                    c.members@[k].name@,
                ) && members@[k].offset_bits == c.members@[k].offset_bits && final(self).memo()[c.members@[k].ty as int]
                    == Some(members@[k].ty)),
            (forall|k: int|
                0 <= k < c.members@.len() ==> #[trigger] old(self).lowerable(*g, c.members@[k].ty as int, budget - 1))
                ==> res is Ok,
        decreases budget, 0int,
    {
        let ghost nn = g.nodes@.len();
        let ghost s0 = *self;
        let ghost ok_all = forall|k: int|
            0 <= k < c.members@.len() ==> #[trigger] s0.lowerable(*g, c.members@[k].ty as int, budget - 1);
        let mut members: Vec<BtfMember> = Vec::new();
        let mut i: usize = 0;
        while i < c.members.len()
            invariant
                ok_all == forall|k: int|
                    0 <= k < c.members@.len() ==> #[trigger] s0.lowerable(*g, c.members@[k].ty as int, budget - 1),
                ok_all ==> forall|k: int|
                    0 <= k < c.members@.len() ==> #[trigger] self.lowerable(*g, c.members@[k].ty as int, budget - 1),
                self.wf(nn),
                self.sound(*g),
                self.complete(*g),
                nn == g.nodes@.len(),
                g.wf(),
                node_refs_ok(MetaNode::Composite(*c), nn as int),
                budget > 0,
                i <= c.members@.len(),
                members@.len() == i,
                forall|k: int| 0 <= k < i ==> #[trigger] members@[k].ty < self.table().len(),
                forall|k: int|
                    0 <= k < i ==> (#[trigger] members@[k]).name@ == sanitized_name(c.members@[k].name@)
                        && members@[k].offset_bits == c.members@[k].offset_bits && self.memo()[c.members@[k].ty as int]
                        == Some(members@[k].ty),
                s0 == *old(self),
                self.extends(s0),
                self.active() == s0.active(),
            decreases c.members@.len() - i,
        {
            let ghost prev = *self;
            let r = self.lower(g, c.members[i].ty, budget - 1);
            proof {
                lemma_extends_trans(*self, prev, s0);
            }
            let t = match r {
                Ok(t) => t,
                Err(e) => return Err(e),
            };
            members.push(
                BtfMember {
                    name: sanitize(c.members[i].name.as_str()),
                    ty: t,
                    offset_bits: c.members[i].offset_bits,
                },
            );
            proof {
                if ok_all {
                    assert forall|k: int| 0 <= k < c.members@.len() implies #[trigger] self.lowerable(
                        *g,
                        c.members@[k].ty as int,
                        budget - 1,
                    ) by {
                        lemma_lowerable_kept(*self, prev, *g, c.members@[k].ty as int, budget - 1);
                    }
                }
                assert forall|k: int| 0 <= k < i + 1 implies self.memo()[c.members@[k].ty as int] == Some(
                    (#[trigger] members@[k]).ty,
                ) by {
                    if k < i {
                        assert(prev.memo()[c.members@[k].ty as int] == Some(members@[k].ty));
                        assert(c.members@[k].ty < g.nodes@.len());
                    }
                }
            }
            i = i + 1;
        }
        let ghost s1 = *self;
        let full = BtfType::Struct { name, scope, is_union, size_bits: c.size_bits, members };
        self.table.replace(h, full);
        self.filled = Ghost(self.filled@.update(h as int, true));
        proof {
            assert(s1.memo()[n as int] == Some(h));
            lemma_sound_grow(*self, s1, *g);
            assert(self.extends(s0));
            lemma_stubs_kept(*self, s1);
            assert(members_fit(self.table().types()[h as int], *c, self.memo()));
            assert forall|hh: int|
                0 <= hh < self.table().len() && #[trigger] self.filled()[hh] && is_struct_key(
                    self.table().keys()[hh],
                ) && !(hh < s1.table().len() && s1.filled()[hh] && self.table().types()[hh]
                    == s1.table().types()[hh]) implies exists|cc: int|
                0 <= cc < self.memo().len() && #[trigger] has_handle(self.memo(), cc, hh) && (
                g.nodes@[cc] matches MetaNode::Composite(cn) && members_fit(
                    self.table().types()[hh],
                    cn,
                    self.memo(),
                )) by {
                assert(hh == h);
                assert(has_handle(self.memo(), n as int, hh));
            }
            lemma_complete_grow(*self, s1, *g);
        }
        Ok(h)
    }

    /// Lowers the variants of a data-carrying enum whose stub is at `h` into
    /// a `tag` member and a `payload` union with one struct per variant, then
    /// fills the stub with them.
    fn lower_variants(
        &mut self,
        g: &MetaGraph,
        n: usize,
        e: &EnumNode,
        h: usize,
        scope: Option<usize>,
        budget: usize,
    ) -> (res: Result<usize, ConvError>)
        requires
            opt_below(scope, old(self).table().len() as int),
            old(self).wf(g.nodes@.len()),
            old(self).sound(*g),
            old(self).complete(*g),
            g.wf(),
            node_refs_ok(MetaNode::Enum(*e), g.nodes@.len() as int),
            budget > 0,
            h < old(self).table().len(),
            scoped_name(old(self).table().types()[h as int]) is None,
            !old(self).filled()[h as int],
            n < g.nodes@.len(),
            g.nodes@[n as int] == MetaNode::Enum(*e),
            old(self).memo()[n as int] == Some(h),
            old(self).table().keys()[h as int] matches KeyView::Named(k, s, _, _) && k == NamedKind::Enum
                && s == scope,
        ensures
            final(self).wf(g.nodes@.len()),
            final(self).sound(*g),
            final(self).complete(*g),
            final(self).extends(*old(self)),
            res matches Ok(r) ==> r == h && final(self).active() == old(self).active() && final(self).headless() == old(self).headless() && final(self).filled()[h as int],
            res matches Ok(r) ==> data_enum_fits(final(self).table(), final(self).table().types()[h as int], *e),
            res matches Ok(r) ==> (final(self).table().types()[h as int] matches BtfType::Struct {
                name,
                is_union,
                members,
                ..
            } && name@.len() == 0 && !is_union && members@.len() == 2),
            (forall|k: int, f: int|
                0 <= k < e.variants@.len() && 0 <= f < e.variants@[k].fields@.len() ==> #[trigger] old(
                    self,
                ).lowerable(*g, e.variants@[k].fields@[f].ty as int, budget - 1)) ==> res is Ok,
        decreases budget, 0int,
    {
        let ghost nn = g.nodes@.len();
        let ghost s0 = *self;
        let (tag_name, tag_width, tag_encoding) = tag_type(e.repr);
        let tag_key = IdentityKey::Basic { name: tag_name.clone(), bits: tag_width, encoding: tag_encoding };
        let tag = self.intern(
            BtfType::Int { name: sanitize(tag_name.as_str()), bits: tag_width, encoding: tag_encoding },
            tag_key,
            g,
        );
        let ghost s1 = *self;
        let ghost ok_all = forall|k: int, f: int|
            0 <= k < e.variants@.len() && 0 <= f < e.variants@[k].fields@.len() ==> #[trigger] s0.lowerable(
                *g,
                e.variants@[k].fields@[f].ty as int,
                budget - 1,
            );
        proof {
            if ok_all {
                assert forall|k: int, f: int|
                    0 <= k < e.variants@.len() && 0 <= f < e.variants@[k].fields@.len() implies #[trigger] self.lowerable(
                    *g,
                    e.variants@[k].fields@[f].ty as int,
                    budget - 1,
                ) by {
                    assert(s0.lowerable(*g, e.variants@[k].fields@[f].ty as int, budget - 1));
                    lemma_lowerable_kept(*self, s0, *g, e.variants@[k].fields@[f].ty as int, budget - 1);
                }
            }
        }
        let mut payload: Vec<BtfMember> = Vec::new();
        let mut payload_bits: u64 = 0;
        let mut v: usize = 0;
        while v < e.variants.len()
            invariant
                payload@.len() == v,
                payload_bits == max_variant_bits(e.variants@.subrange(0, v as int)),
                forall|k: int|
                    0 <= k < v ==> (#[trigger] payload@[k]).name@ == sanitized_name(e.variants@[k].name@)
                        && payload@[k].offset_bits == 0,
                tag < self.table().len(),
                self.table().keys()[tag as int] == KeyView::Basic(tag_name@, tag_width, tag_encoding),
                tag_width == tag_bits(e.repr),
                tag_encoding == (if tag_signed(e.repr) {
                    Encoding::Signed
                } else {
                    Encoding::Unsigned
                }),
                ok_all == forall|k: int, f: int|
                    0 <= k < e.variants@.len() && 0 <= f < e.variants@[k].fields@.len() ==> #[trigger] s0.lowerable(
                        *g,
                        e.variants@[k].fields@[f].ty as int,
                        budget - 1,
                    ),
                ok_all ==> forall|k: int, f: int|
                    0 <= k < e.variants@.len() && 0 <= f < e.variants@[k].fields@.len() ==> #[trigger] self.lowerable(
                        *g,
                        e.variants@[k].fields@[f].ty as int,
                        budget - 1,
                    ),
                self.wf(nn),
                self.sound(*g),
                self.complete(*g),
                nn == g.nodes@.len(),
                g.wf(),
                node_refs_ok(MetaNode::Enum(*e), nn as int),
                budget > 0,
                v <= e.variants@.len(),
                forall|k: int| 0 <= k < payload@.len() ==> #[trigger] payload@[k].ty < self.table().len(),
                tag < s1.table().len(),
                s0 == *old(self),
                s1.extends(s0),
                self.extends(s1),
                h < s0.table().len(),
                s0.table().keys()[h as int] matches KeyView::Named(k, s, _, _) && k == NamedKind::Enum
                    && s == scope,
                opt_below(scope, s0.table().len() as int),
                self.active() == s0.active(),
            decreases e.variants@.len() - v,
        {
            let variant = &e.variants[v];
            let mut rec: Vec<BtfMember> = Vec::new();
            let mut key_members: Vec<BtfMember> = Vec::new();
            let mut f: usize = 0;
            while f < variant.fields.len()
                invariant
                ok_all == forall|k: int, f: int|
                    0 <= k < e.variants@.len() && 0 <= f < e.variants@[k].fields@.len() ==> #[trigger] s0.lowerable(
                        *g,
                        e.variants@[k].fields@[f].ty as int,
                        budget - 1,
                    ),
                ok_all ==> forall|k: int, f: int|
                    0 <= k < e.variants@.len() && 0 <= f < e.variants@[k].fields@.len() ==> #[trigger] self.lowerable(
                        *g,
                        e.variants@[k].fields@[f].ty as int,
                        budget - 1,
                    ),
                    self.wf(nn),
                    self.sound(*g),
                    self.complete(*g),
                    nn == g.nodes@.len(),
                    g.wf(),
                    node_refs_ok(MetaNode::Enum(*e), nn as int),
                    budget > 0,
                    v < e.variants@.len(),
                    *variant == e.variants@[v as int],
                    tag < s1.table().len(),
                    s0 == *old(self),
                    s1.extends(s0),
                    h < s0.table().len(),
                    f <= variant.fields@.len(),
                    rec@.len() == f,
                    key_members@.len() == f,
                    forall|k: int| 0 <= k < f ==> #[trigger] rec@[k].ty < self.table().len(),
                    forall|k: int|
                        0 <= k < f ==> (#[trigger] rec@[k]).name@ == key_members@[k].name@ && rec@[k].ty
                            == key_members@[k].ty && rec@[k].offset_bits == key_members@[k].offset_bits,
                    forall|k: int| 0 <= k < payload@.len() ==> #[trigger] payload@[k].ty < self.table().len(),
                    self.extends(s1),
                    self.active() == s0.active(),
                decreases variant.fields@.len() - f,
            {
                let ghost prev = *self;
                proof {
                    assert(variant.fields@[f as int].ty < nn);
                }
                let r = self.lower(g, variant.fields[f].ty, budget - 1);
                proof {
                    lemma_extends_trans(*self, prev, s1);
                    if ok_all && r is Ok {
                        assert forall|k: int, f: int|
                            0 <= k < e.variants@.len() && 0 <= f < e.variants@[k].fields@.len() implies #[trigger] self.lowerable(
                            *g,
                            e.variants@[k].fields@[f].ty as int,
                            budget - 1,
                        ) by {
                            lemma_lowerable_kept(*self, prev, *g, e.variants@[k].fields@[f].ty as int, budget - 1);
                        }
                    }
                    if ok_all {
                        assert(prev.lowerable(*g, e.variants@[v as int].fields@[f as int].ty as int, budget - 1));
                    }
                }
                let t = match r {
                    Ok(t) => t,
                    Err(err) => {
                        proof {
                            lemma_extends_trans(*self, s1, s0);
                        }
                        return Err(err);
                    },
                };
                let field_name = sanitize(variant.fields[f].name.as_str());
                key_members.push(
                    BtfMember { name: field_name.clone(), ty: t, offset_bits: variant.fields[f].offset_bits },
                );
                rec.push(BtfMember { name: field_name, ty: t, offset_bits: variant.fields[f].offset_bits });
                f = f + 1;
            }
            proof {
                assert(members_view(rec@) =~= members_view(key_members@));
            }
            let ghost prev = *self;
            let vh = self.intern(
                BtfType::Struct {
                    name: String::new(),
                    scope: None,
                    is_union: false,
                    size_bits: variant.size_bits,
                    members: rec,
                },
                IdentityKey::Anonymous { is_union: false, size_bits: variant.size_bits, members: key_members },
                g,
            );
            proof {
                lemma_extends_trans(*self, prev, s1);
                if ok_all {
                    assert forall|k: int, f: int|
                        0 <= k < e.variants@.len() && 0 <= f < e.variants@[k].fields@.len() implies #[trigger] self.lowerable(
                        *g,
                        e.variants@[k].fields@[f].ty as int,
                        budget - 1,
                    ) by {
                        lemma_lowerable_kept(*self, prev, *g, e.variants@[k].fields@[f].ty as int, budget - 1);
                    }
                }
            }
            payload.push(BtfMember { name: sanitize(variant.name.as_str()), ty: vh, offset_bits: 0 });
            if variant.size_bits > payload_bits {
                payload_bits = variant.size_bits;
            }
            proof {
                assert(e.variants@.subrange(0, v + 1).drop_last() =~= e.variants@.subrange(0, v as int));
                assert(self.table().keys()[tag as int] == prev.table().keys()[tag as int]);
            }
            v = v + 1;
        }
        let ghost s2 = *self;
        let mut payload_key: Vec<BtfMember> = Vec::new();
        let mut k: usize = 0;
        while k < payload.len()
            invariant
                k <= payload@.len(),
                payload_key@.len() == k,
                forall|j: int|
                    0 <= j < k ==> (#[trigger] payload@[j]).name@ == payload_key@[j].name@ && payload@[j].ty
                        == payload_key@[j].ty && payload@[j].offset_bits == payload_key@[j].offset_bits,
            decreases payload@.len() - k,
        {
            payload_key.push(
                BtfMember { name: payload[k].name.clone(), ty: payload[k].ty, offset_bits: payload[k].offset_bits },
            );
            k = k + 1;
        }
        let ghost pv = members_view(payload@);
        proof {
            assert(members_view(payload@) =~= members_view(payload_key@));
            assert(e.variants@.subrange(0, v as int) =~= e.variants@);
            assert(payload_bits == max_variant_bits(e.variants@));
            let tk = tag as int;
            assert(self.table().keys()[tk] == KeyView::Basic(tag_name@, tag_width, tag_encoding));
            assert forall|k: int| 0 <= k < pv.len() implies (#[trigger] pv[k]).0 == sanitized_name(
                e.variants@[k].name@,
            ) && pv[k].2 == 0 by {
                assert(pv[k] == (payload@[k].name@, payload@[k].ty, payload@[k].offset_bits));
            }
        }
        let payload_ty = self.intern(
            BtfType::Struct { name: String::new(), scope: None, is_union: true, size_bits: payload_bits, members: payload },
            IdentityKey::Anonymous { is_union: true, size_bits: payload_bits, members: payload_key },
            g,
        );
        proof {
            lemma_extends_trans(*self, s2, s1);
            lemma_extends_trans(*self, s1, s0);
        }
        let mut outer: Vec<BtfMember> = Vec::new();
        outer.push(BtfMember { name: String::from_str("tag"), ty: tag, offset_bits: 0 });
        outer.push(BtfMember { name: String::from_str("payload"), ty: payload_ty, offset_bits: tag_width as u64 });
        let ghost s3 = *self;
        self.table.replace(
            h,
            BtfType::Struct { name: String::new(), scope, is_union: false, size_bits: e.size_bits, members: outer },
        );
        self.filled = Ghost(self.filled@.update(h as int, true));
        proof {
            lemma_sound_grow(*self, s3, *g);
            assert(self.extends(s0));
            lemma_stubs_kept(*self, s3);
            assert(self.table().keys()[payload_ty as int] == s3.table().keys()[payload_ty as int]);
            assert(self.table().keys()[tag as int] == s3.table().keys()[tag as int]);
            assert(self.table().keys()[tag as int] == s2.table().keys()[tag as int]);
            assert(data_enum_fits(self.table(), self.table().types()[h as int], *e));
            assert(s0.memo()[n as int] == Some(h));
            assert(has_handle(self.memo(), n as int, h as int));
            lemma_complete_grow(*self, s3, *g);
        }
        Ok(h)
    }
}

/// The result of a conversion pass: the table, the handle of each root, and
/// the handle of every node that was lowered.
pub struct Conversion {
    pub table: TypeTable,
    pub handles: Vec<usize>,
    pub node_handles: Vec<Option<usize>>,
}

/// Lowers every root, in order, in one pass. The first failure ends the pass
/// and is returned alone. `max_depth` bounds the nesting of types.
///
/// The pass succeeds on every graph that is `convertible`. A struct, union or
/// enum is keyed by its kind, name, scope and generic arguments, not by its
/// members: where two such nodes share a key, the second shares the first's
/// record. Under distinct names, which `convertible` asks for, two nodes with
/// one key are the same description, and every node's record lists its own
/// members, variants or tag and payload.
pub fn convert(g: &MetaGraph, roots: &Vec<usize>, max_depth: usize) -> (r: Result<Conversion, ConvError>)
    requires
        g.wf(),
        forall|k: int| 0 <= k < roots@.len() ==> #[trigger] roots@[k] < g.nodes@.len(),
    ensures
        r matches Ok(c) ==> {
            &&& c.table.wf()
            &&& c.handles@.len() == roots@.len()
            &&& c.node_handles@.len() == g.nodes@.len()
            &&& forall|k: int|
                0 <= k < roots@.len() ==> #[trigger] c.handles@[k] < c.table.len()
                    && c.node_handles@[roots@[k] as int] == Some(c.handles@[k])
            &&& forall|i: int|
                0 <= i < c.node_handles@.len() && (#[trigger] c.node_handles@[i]) is Some
                    ==> c.node_handles@[i]->0 < c.table.len()
            &&& forall|i: int|
                0 <= i < c.node_handles@.len() && (#[trigger] c.node_handles@[i]) is Some
                    ==> identifies(c.table, c.node_handles@[i]->0 as int, g.nodes@[i], c.node_handles@)
            &&& forall|i: int, j: int|
                0 <= i < roots@.len() && 0 <= j < roots@.len() && g.nodes@[roots@[i] as int]
                    == g.nodes@[roots@[j] as int] ==> #[trigger] c.handles@[i] == #[trigger] c.handles@[j]
        },
        r matches Ok(c) ==> forall|h: int|
            0 <= h < c.table.len() && #[trigger] is_struct_key(c.table.keys()[h]) ==> exists|m: int|
                0 <= m < c.node_handles@.len() && #[trigger] has_handle(c.node_handles@, m, h) && (
                g.nodes@[m] matches MetaNode::Composite(cn) && members_fit(c.table.types()[h], cn, c.node_handles@)),
        r matches Ok(c) ==> forall|h: int|
            0 <= h < c.table.len() && (#[trigger] c.table.types()[h]) is Enum ==> exists|m: int|
                0 <= m < g.nodes@.len() && #[trigger] enum_record_of(*g, m, c.table.types()[h]),
        convertible(*g, roots@, max_depth as nat) ==> r is Ok,
        r matches Ok(c) ==> (names_distinct(*g) ==> forall|m: int|
            0 <= m < g.nodes@.len() && (#[trigger] c.node_handles@[m]) is Some ==> node_record_fits(
                *g,
                c.table,
                m,
                c.table.types()[c.node_handles@[m]->0 as int],
                c.node_handles@,
            )),
        roots@.len() == 0 ==> (r matches Ok(c) && c.table.len() == 0),
        roots@.len() > 0 && max_depth == 0 ==> r == Err::<Conversion, ConvError>(
            ConvError { kind: ErrorKind::UnboundedRecursionDepth, node: roots@[0] },
        ),
{
    let mut lw = Lowerer::new(g.nodes.len());
    let mut handles: Vec<usize> = Vec::new();
    let mut k: usize = 0;
    while k < roots.len()
        invariant
            g.wf(),
            forall|j: int| 0 <= j < roots@.len() ==> #[trigger] roots@[j] < g.nodes@.len(),
            lw.wf(g.nodes@.len()),
            lw.sound(*g),
            lw.complete(*g),
            k <= roots@.len(),
            handles@.len() == k,
            forall|j: int|
                0 <= j < k ==> #[trigger] handles@[j] < lw.table().len() && lw.memo()[roots@[j] as int]
                    == Some(handles@[j]),
            k == 0 ==> lw.table().len() == 0 && forall|m: int|
                0 <= m < g.nodes@.len() ==> (#[trigger] lw.memo()[m]) is None && !lw.active()[m],
            max_depth == 0 ==> k == 0,
            forall|m: int| 0 <= m < g.nodes@.len() ==> !#[trigger] lw.active()[m],
            forall|m: int| 0 <= m < g.nodes@.len() ==> !#[trigger] lw.headless()[m],
        decreases roots@.len() - k,
    {
        let ghost prev = lw;
        proof {
            if convertible(*g, roots@, max_depth as nat) {
                lemma_root_lowerable(lw, *g, roots@, max_depth as int, k as int);
            }
        }
        match lw.lower(g, roots[k], max_depth) {
            Ok(h) => {
                handles.push(h);
            },
            Err(e) => {
                return Err(e);
            },
        }
        proof {
            assert forall|j: int| 0 <= j < k + 1 implies #[trigger] handles@[j] < lw.table().len()
                && lw.memo()[roots@[j] as int] == Some(handles@[j]) by {
                if j < k {
                    assert(prev.memo()[roots@[j] as int] == Some(handles@[j]));
                }
            }
        }
        k = k + 1;
    }
    proof {
        assert forall|h: int|
            0 <= h < lw.table().len() && #[trigger] is_struct_key(lw.table().keys()[h]) implies exists|m: int|
                0 <= m < lw.memo().len() && #[trigger] has_handle(lw.memo(), m, h) && (
                g.nodes@[m] matches MetaNode::Composite(cn) && members_fit(lw.table().types()[h], cn, lw.memo())) by {
            if !lw.filled()[h] {
                let c = choose|c: int| 0 <= c < lw.active().len() && lw.active()[c] && #[trigger] has_handle(lw.memo(), c, h);
                assert(!lw.active()[c]);
            }
            assert(lw.filled()[h]);
        }
        assert forall|h: int| 0 <= h < lw.table().len() && (#[trigger] lw.table().types()[h]) is Enum implies exists|m: int|
            0 <= m < g.nodes@.len() && #[trigger] enum_record_of(*g, m, lw.table().types()[h]) by {
            if !lw.filled()[h] {
                let c = choose|c: int| 0 <= c < lw.active().len() && lw.active()[c] && #[trigger] has_handle(lw.memo(), c, h);
                assert(!lw.active()[c]);
            }
            assert(lw.filled()[h]);
            let c = choose|c: int|
                0 <= c < g.nodes@.len() && #[trigger] has_handle(lw.memo(), c, h) && enum_record_of(
                    *g,
                    c,
                    lw.table().types()[h],
                );
            assert(enum_record_of(*g, c, lw.table().types()[h]));
        }
    }
    proof {
        if names_distinct(*g) {
            assert forall|m: int| 0 <= m < g.nodes@.len() && (#[trigger] lw.memo()[m]) is Some implies node_record_fits(
                *g,
                lw.table(),
                m,
                lw.table().types()[lw.memo()[m]->0 as int],
                lw.memo(),
            ) by {
                lemma_record_of_node(lw, *g, m);
            }
        }
    }
    let (table, node_handles) = lw.finish();
    proof {
        assert forall|i: int, j: int|
            0 <= i < roots@.len() && 0 <= j < roots@.len() && g.nodes@[roots@[i] as int]
                == g.nodes@[roots@[j] as int] implies #[trigger] handles@[i] == #[trigger] handles@[j] by {
            let m = node_handles@;
            assert(m[roots@[i] as int] == Some(handles@[i]));
            assert(m[roots@[j] as int] == Some(handles@[j]));
            lemma_same_node_same_record(table, m, g.nodes@[roots@[i] as int], handles@[i] as int, handles@[j] as int);
        }
    }
    Ok(Conversion { table, handles, node_handles })
}

/// Deduplication: two places that reach the same type, whether through one
/// node or through two nodes that describe it alike (same kind and scalars,
/// and parts lowered to the same records), get the same record.
pub proof fn lemma_same_node_same_record(t: TypeTable, memo: Seq<Option<usize>>, node: MetaNode, ha: int, hb: int)
    requires
        t.wf(),
        identifies(t, ha, node, memo),
        identifies(t, hb, node, memo),
    ensures
        ha == hb,
{
    if let MetaNode::Subroutine { ret, params, is_pointer } = node {
        if is_pointer {
            if let KeyView::Pointer(p) = t.keys()[ha] {
                if let KeyView::Pointer(q) = t.keys()[hb] {
                    lemma_one_record_per_key(t, p as int, q as int);
                }
            }
        }
    }
    lemma_one_record_per_key(t, ha, hb);
}

/// Distinct instantiations: two structs or unions whose generic arguments were
/// lowered to different records are themselves different records.
pub proof fn lemma_instantiations_differ(
    t: TypeTable,
    memo: Seq<Option<usize>>,
    a: CompositeNode,
    b: CompositeNode,
    ha: int,
    hb: int,
)
    requires
        t.wf(),
        identifies(t, ha, MetaNode::Composite(a), memo),
        identifies(t, hb, MetaNode::Composite(b), memo),
        res_list(memo, a.generic_args@) != res_list(memo, b.generic_args@),
    ensures
        ha != hb,
{
}

/// Enum lowering: an enum with a data-carrying variant is lowered to an
/// anonymous struct, never to an enumeration record; a fieldless one is
/// lowered to an enumeration record.
pub proof fn lemma_enum_record_shape(t: TypeTable, memo: Seq<Option<usize>>, e: EnumNode, h: int)
    requires
        t.wf(),
        identifies(t, h, MetaNode::Enum(e), memo),
    ensures
        has_data_variant(e.variants@) ==> (t.types()[h] matches BtfType::Struct { name, is_union, .. }
            && name@.len() == 0 && !is_union),
        !has_data_variant(e.variants@) ==> t.types()[h] is Enum,
{
    assert(record_fits(t.types()[h], t.keys()[h]));
}

/// The enumeration record of a fieldless enum named `name` in `scope`.
fn plain_enum_record(
    e: &EnumNode,
    name: String,
    scope: Option<usize>,
    wide: bool,
    signed: bool,
    values: Vec<i128>,
) -> (t: BtfType)
    requires
        values@.len() == e.variants@.len(),
    ensures
        t matches BtfType::Enum { name: nm, scope: sc, wide: w, signed: sg, entries } && nm == name && sc
            == scope && w == wide && sg == signed && entries@.len() == values@.len() && forall|k: int|
            0 <= k < entries@.len() ==> (#[trigger] entries@[k]).value == values@[k] && entries@[k].name@
                == sanitized_name(e.variants@[k].name@),
{
    let mut entries: Vec<BtfEnumEntry> = Vec::new();
    let mut i: usize = 0;
    while i < e.variants.len()
        invariant
            i <= e.variants@.len(),
            values@.len() == e.variants@.len(),
            entries@.len() == i,
            forall|k: int|
                0 <= k < i ==> (#[trigger] entries@[k]).value == values@[k] && entries@[k].name@
                    == sanitized_name(e.variants@[k].name@),
        decreases e.variants@.len() - i,
    {
        entries.push(BtfEnumEntry { name: sanitize(e.variants[i].name.as_str()), value: values[i] });
        i = i + 1;
    }
    BtfType::Enum { name, scope, wide, signed, entries }
}

/// Recording a handle for a node that had none keeps every stub owned.
proof fn lemma_stubs_memo_set(a: Lowerer, b: Lowerer, n: int, h: usize)
    requires
        stubs_owned(b),
        0 <= n < b.memo().len(),
        b.active().len() == b.memo().len(),
        a.active() == b.active(),
        b.memo()[n] is None,
        a.memo() == b.memo().update(n, Some(h)),
        b.filled().len() == b.table().len(),
        b.table().len() <= a.table().len(),
        forall|j: int| 0 <= j < a.table().len() && !a.filled()[j] ==> j < b.table().len() && !b.filled()[j],
    ensures
        stubs_owned(a),
{
    assert forall|j: int| 0 <= j < a.table().len() && !#[trigger] a.filled()[j] implies exists|c: int|
        0 <= c < a.active().len() && a.active()[c] && #[trigger] has_handle(a.memo(), c, j) by {
        assert(!b.filled()[j]);
        let c = choose|c: int| 0 <= c < b.active().len() && b.active()[c] && #[trigger] has_handle(b.memo(), c, j);
        assert(c != n);
        assert(has_handle(a.memo(), c, j));
    }
}

fn copy_handles(v: &Vec<usize>) -> (r: Vec<usize>)
    ensures
        r@ == v@,
{
    let mut r: Vec<usize> = Vec::new();
    let mut i: usize = 0;
    while i < v.len()
        invariant
            i <= v@.len(),
            r@ == v@.subrange(0, i as int),
        decreases v@.len() - i,
    {
        r.push(v[i]);
        i = i + 1;
        proof {
            assert(r@ =~= v@.subrange(0, i as int));
        }
    }
    proof {
        assert(v@.subrange(0, i as int) =~= v@);
    }
    r
}

/// The width of a data-carrying enum's tag: the representation's, 64 bits
/// for a pointer-sized one, 32 without an integer representation.
pub open spec fn tag_bits(r: Repr) -> u32 {
    match r {
        Repr::Int { bits, .. } => bits,
        Repr::PointerSized { .. } => 64,
        _ => 32,
    }
}

pub open spec fn tag_signed(r: Repr) -> bool {
    match r {
        Repr::Int { signed, .. } => signed,
        Repr::PointerSized { signed } => signed,
        _ => false,
    }
}

/// The size of the largest variant.
pub open spec fn max_variant_bits(vs: Seq<Variant>) -> u64
    decreases vs.len(),
{
    if vs.len() == 0 {
        0
    } else {
        let m = max_variant_bits(vs.drop_last());
        if vs.last().size_bits > m {
            vs.last().size_bits
        } else {
            m
        }
    }
}

/// The layout of a data-carrying enum `e` in record `t`: a `tag` of the
/// representation's integer type at offset 0, then at the tag's width a
/// payload union as wide as the largest variant, with one member per
/// variant, named after it.
pub open spec fn data_enum_fits(tab: TypeTable, t: BtfType, e: EnumNode) -> bool {
    t matches BtfType::Struct { is_union, size_bits, members, .. } && !is_union && size_bits == e.size_bits
        && members@.len() == 2 && members@[0].offset_bits == 0 && members@[1].offset_bits
        == tag_bits(e.repr) && members@[0].ty < tab.len() && members@[1].ty < tab.len() && (tab.keys()[members@[0].ty as int] matches KeyView::Basic(
        _,
        b,
        enc,
    ) && b == tag_bits(e.repr) && enc == (if tag_signed(e.repr) {
        Encoding::Signed
    } else {
        Encoding::Unsigned
    })) && (tab.keys()[members@[1].ty as int] matches KeyView::Anonymous(u, z, ms) && u && z
        == max_variant_bits(e.variants@) && ms.len() == e.variants@.len() && forall|k: int|
        0 <= k < ms.len() ==> (#[trigger] ms[k]).0 == sanitized_name(e.variants@[k].name@) && ms[k].2 == 0)
}

/// The integer type of a data-carrying enum's tag: the representation's, and
/// `u32` without an integer representation.
fn tag_type(r: Repr) -> (res: (String, u32, Encoding))
    ensures
        res.1 == tag_bits(r),
        res.2 == (if tag_signed(r) {
            Encoding::Signed
        } else {
            Encoding::Unsigned
        }),
{
    let (signed, bits): (bool, u32) = match r {
        Repr::Int { signed, bits } => (signed, bits),
        Repr::PointerSized { signed } => (signed, 64),
        _ => (false, 32),
    };
    let encoding = if signed {
        Encoding::Signed
    } else {
        Encoding::Unsigned
    };
    let name = if signed {
        if bits == 8 {
            String::from_str("i8")
        } else if bits == 16 {
            String::from_str("i16")
        } else if bits == 32 {
            String::from_str("i32")
        } else {
            String::from_str("i64")
        }
    } else {
        if bits == 8 {
            String::from_str("u8")
        } else if bits == 16 {
            String::from_str("u16")
        } else if bits == 32 {
            String::from_str("u32")
        } else {
            String::from_str("u64")
        }
    };
    (name, bits, encoding)
}

/// Soundness carries over to a later state whose records keep their keys,
/// whose handles are kept, and whose new handles identify their nodes.
proof fn lemma_sound_grow(a: Lowerer, b: Lowerer, g: MetaGraph)
    requires
        g.wf(),
        b.sound(g),
        b.memo().len() == g.nodes@.len(),
        a.memo().len() == b.memo().len(),
        b.table().len() <= a.table().len(),
        forall|i: int| 0 <= i < b.table().len() ==> #[trigger] a.table().keys()[i] == b.table().keys()[i],
        forall|i: int|
            0 <= i < b.table().len() ==> #[trigger] scoped_name(a.table().types()[i]) == scoped_name(
                b.table().types()[i],
            ),
        forall|m: int| 0 <= m < b.memo().len() && (#[trigger] b.memo()[m]) is Some ==> a.memo()[m] == b.memo()[m],
        forall|m: int|
            0 <= m < a.memo().len() && (#[trigger] a.memo()[m]) is Some && b.memo()[m] is None
                ==> identifies(a.table(), a.memo()[m]->0 as int, g.nodes@[m], a.memo()),
    ensures
        a.sound(g),
{
    assert forall|m: int| 0 <= m < a.memo().len() && (#[trigger] a.memo()[m]) is Some implies identifies(
        a.table(),
        a.memo()[m]->0 as int,
        g.nodes@[m],
        a.memo(),
    ) by {
        if b.memo()[m] is Some {
            assert(node_refs_ok(g.nodes@[m], g.nodes@.len() as int));
            lemma_identifies_stable(b.table(), b.memo(), a.table(), a.memo(), b.memo()[m]->0 as int, g.nodes@[m]);
        }
    }
}

proof fn lemma_members_fit_stable(t: BtfType, c: CompositeNode, m1: Seq<Option<usize>>, m2: Seq<Option<usize>>)
    requires
        members_fit(t, c, m1),
        forall|k: int| 0 <= k < c.members@.len() ==> #[trigger] c.members@[k].ty < m1.len(),
        forall|i: int| 0 <= i < m1.len() && (#[trigger] m1[i]) is Some ==> m2[i] == m1[i],
    ensures
        members_fit(t, c, m2),
{
    if let BtfType::Struct { members, .. } = t {
        assert forall|k: int| 0 <= k < members@.len() implies m2[c.members@[k].ty as int] == Some(
            (#[trigger] members@[k]).ty,
        ) by {
            assert(m1[c.members@[k].ty as int] == Some(members@[k].ty));
        }
    }
}

/// Every incomplete record of `a` is the stub of a node being lowered.
pub open spec fn stubs_owned(a: Lowerer) -> bool {
    forall|h: int|
        0 <= h < a.table().len() && !#[trigger] a.filled()[h] ==> exists|c: int|
            0 <= c < a.active().len() && a.active()[c] && #[trigger] has_handle(a.memo(), c, h)
}

/// Stubs stay owned when the nodes being lowered and their handles are kept
/// and no record becomes incomplete.
proof fn lemma_stubs_kept(a: Lowerer, b: Lowerer)
    requires
        stubs_owned(b),
        a.active() == b.active(),
        a.memo() == b.memo(),
        b.table().len() <= a.table().len(),
        forall|h: int| 0 <= h < a.table().len() && !a.filled()[h] ==> h < b.table().len() && !b.filled()[h],
    ensures
        stubs_owned(a),
{
    assert forall|h: int| 0 <= h < a.table().len() && !#[trigger] a.filled()[h] implies exists|c: int|
        0 <= c < a.active().len() && a.active()[c] && #[trigger] has_handle(a.memo(), c, h) by {
        assert(!b.filled()[h]);
        let c = choose|c: int| 0 <= c < b.active().len() && b.active()[c] && #[trigger] has_handle(b.memo(), c, h);
        assert(has_handle(a.memo(), c, h));
    }
}

/// Completeness carries over to a later state whose complete records are
/// kept, whose handles are kept, whose stubs are owned, and whose newly
/// completed struct records list the members of a node with their handle.
proof fn lemma_complete_grow(a: Lowerer, b: Lowerer, g: MetaGraph)
    requires
        g.wf(),
        b.complete(g),
        b.memo().len() == g.nodes@.len(),
        a.memo().len() == b.memo().len(),
        a.filled().len() == a.table().len(),
        b.table().len() <= a.table().len(),
        forall|i: int| 0 <= i < b.table().len() ==> #[trigger] a.table().keys()[i] == b.table().keys()[i],
        forall|i: int| 0 <= i < b.table().len() && #[trigger] b.filled()[i] ==> a.filled()[i],
        forall|m: int| 0 <= m < b.memo().len() && (#[trigger] b.memo()[m]) is Some ==> a.memo()[m] == b.memo()[m],
        stubs_owned(a),
        forall|h: int|
            0 <= h < a.table().len() && #[trigger] a.filled()[h] && is_struct_key(a.table().keys()[h])
                && !(h < b.table().len() && b.filled()[h] && a.table().types()[h] == b.table().types()[h])
                ==> exists|c: int|
                0 <= c < a.memo().len() && #[trigger] has_handle(a.memo(), c, h) && (
                g.nodes@[c] matches MetaNode::Composite(cn) && members_fit(a.table().types()[h], cn, a.memo())),
        forall|h: int|
            0 <= h < a.table().len() && #[trigger] a.filled()[h] && a.table().types()[h] is Enum
                && !(h < b.table().len() && b.filled()[h] && a.table().types()[h] == b.table().types()[h])
                ==> exists|c: int|
                0 <= c < g.nodes@.len() && #[trigger] has_handle(a.memo(), c, h) && enum_record_of(
                    g,
                    c,
                    a.table().types()[h],
                ),
        forall|h: int|
            b.table().len() <= h < a.table().len() && !#[trigger] a.filled()[h] ==> a.table().keys()[h] is Named,
        forall|h: int|
            b.table().len() <= h < a.table().len() && (#[trigger] a.table().keys()[h]) is Named ==> exists|c: int|
                0 <= c < a.memo().len() && #[trigger] has_handle(a.memo(), c, h),
        a.active().len() == b.active().len(),
        a.headless().len() == b.headless().len(),
        b.active().len() == b.memo().len(),
        b.headless().len() == b.memo().len(),
        forall|c: int|
            0 <= c < a.memo().len() && #[trigger] a.active()[c] && a.memo()[c] is None && is_named_node(g.nodes@[c])
                ==> (b.active()[c] && b.memo()[c] is None) || a.headless()[c],
        forall|c: int|
            0 <= c < b.headless().len() && #[trigger] b.headless()[c] ==> a.headless()[c] || a.memo()[c] is Some
                || !a.active()[c],
        forall|c: int|
            0 <= c < a.headless().len() && #[trigger] a.headless()[c] ==> b.headless()[c] || is_named_node(g.nodes@[c]),
        forall|h: int|
            0 <= h < a.table().len() && #[trigger] a.filled()[h] && a.table().types()[h] is Struct
                && a.table().keys()[h] is Named && a.table().keys()[h]->Named_0 == NamedKind::Enum
                && !(h < b.table().len() && b.filled()[h] && a.table().types()[h] == b.table().types()[h])
                ==> exists|c: int|
                0 <= c < g.nodes@.len() && #[trigger] has_handle(a.memo(), c, h) && (g.nodes@[c] matches MetaNode::Enum(en)
                && data_enum_fits(a.table(), a.table().types()[h], en)),
    ensures
        a.complete(g),
{
    assert forall|h: int|
        0 <= h < a.table().len() && #[trigger] a.filled()[h] && a.table().types()[h] is Struct
            && a.table().keys()[h] is Named && a.table().keys()[h]->Named_0 == NamedKind::Enum implies exists|c: int|
        0 <= c < g.nodes@.len() && #[trigger] has_handle(a.memo(), c, h) && (g.nodes@[c] matches MetaNode::Enum(en)
        && data_enum_fits(a.table(), a.table().types()[h], en)) by {
        if h < b.table().len() && b.filled()[h] && a.table().types()[h] == b.table().types()[h] {
            assert(b.table().keys()[h] is Named);
            let c = choose|c: int|
                0 <= c < g.nodes@.len() && #[trigger] has_handle(b.memo(), c, h) && (g.nodes@[c] matches MetaNode::Enum(en)
                && data_enum_fits(b.table(), b.table().types()[h], en));
            assert(has_handle(a.memo(), c, h));
            if let BtfType::Struct { members, .. } = b.table().types()[h] {
                assert(a.table().keys()[members@[0].ty as int] == b.table().keys()[members@[0].ty as int]);
                assert(a.table().keys()[members@[1].ty as int] == b.table().keys()[members@[1].ty as int]);
            }
        }
    }
    assert forall|h: int|
        0 <= h < a.table().len() && (#[trigger] a.table().keys()[h]) is Named implies exists|c: int|
            0 <= c < a.memo().len() && #[trigger] has_handle(a.memo(), c, h) by {
        if h < b.table().len() {
            assert(b.table().keys()[h] is Named);
            let c = choose|c: int| 0 <= c < b.memo().len() && #[trigger] has_handle(b.memo(), c, h);
            assert(has_handle(a.memo(), c, h));
        }
    }
    assert forall|h: int| 0 <= h < a.table().len() && !#[trigger] a.filled()[h] implies a.table().keys()[h] is Named by {
        if h < b.table().len() {
            if b.filled()[h] {
                assert(a.filled()[h]);
            }
        }
    }
    assert forall|c: int|
        0 <= c < a.memo().len() && #[trigger] a.active()[c] && a.memo()[c] is None && is_named_node(g.nodes@[c])
            implies a.headless()[c] by {
        if b.active()[c] && b.memo()[c] is None {
            assert(b.headless()[c]);
            assert(a.headless()[c] || a.memo()[c] is Some || !a.active()[c]);
        }
    }
    assert forall|h: int|
        0 <= h < a.table().len() && #[trigger] a.filled()[h] && a.table().types()[h] is Enum implies exists|c: int|
        0 <= c < g.nodes@.len() && #[trigger] has_handle(a.memo(), c, h) && enum_record_of(
            g,
            c,
            a.table().types()[h],
        ) by {
        if h < b.table().len() && b.filled()[h] && a.table().types()[h] == b.table().types()[h] {
            let c = choose|c: int|
                0 <= c < g.nodes@.len() && #[trigger] has_handle(b.memo(), c, h) && enum_record_of(
                    g,
                    c,
                    b.table().types()[h],
                );
            assert(has_handle(a.memo(), c, h));
            assert(enum_record_of(g, c, a.table().types()[h]));
        }
    }
    assert forall|h: int|
        0 <= h < a.table().len() && #[trigger] a.filled()[h] && is_struct_key(a.table().keys()[h])
            implies exists|c: int|
            0 <= c < a.memo().len() && #[trigger] has_handle(a.memo(), c, h) && (
            g.nodes@[c] matches MetaNode::Composite(cn) && members_fit(a.table().types()[h], cn, a.memo())) by {
        if h < b.table().len() && b.filled()[h] && a.table().types()[h] == b.table().types()[h] {
            assert(is_struct_key(b.table().keys()[h]));
            let c = choose|c: int|
                0 <= c < b.memo().len() && #[trigger] has_handle(b.memo(), c, h) && (
                g.nodes@[c] matches MetaNode::Composite(cn) && members_fit(b.table().types()[h], cn, b.memo()));
            if let MetaNode::Composite(cn) = g.nodes@[c] {
                assert(node_refs_ok(g.nodes@[c], g.nodes@.len() as int));
                lemma_members_fit_stable(b.table().types()[h], cn, b.memo(), a.memo());
            }
            assert(has_handle(a.memo(), c, h));
        }
    }
}

/// A new stub owned by node `n`, which is being lowered and had no handle.
proof fn lemma_stub_added(a: Lowerer, b: Lowerer, n: int, h: usize)
    requires
        stubs_owned(b),
        0 <= n < b.memo().len(),
        b.active().len() == b.memo().len(),
        a.active() == b.active(),
        b.active()[n],
        b.memo()[n] is None,
        a.memo() == b.memo().update(n, Some(h)),
        b.filled().len() == b.table().len(),
        h == b.table().len(),
        a.table().len() == h + 1,
        a.filled() == b.filled().push(false),
    ensures
        stubs_owned(a),
{
    assert forall|j: int| 0 <= j < a.table().len() && !#[trigger] a.filled()[j] implies exists|c: int|
        0 <= c < a.active().len() && a.active()[c] && #[trigger] has_handle(a.memo(), c, j) by {
        if j == h {
            assert(has_handle(a.memo(), n, j));
        } else {
            assert(!b.filled()[j]);
            let c = choose|c: int| 0 <= c < b.active().len() && b.active()[c] && #[trigger] has_handle(b.memo(), c, j);
            assert(c != n);
            assert(has_handle(a.memo(), c, j));
        }
    }
}

/// Marking a node as being lowered keeps every stub owned.
proof fn lemma_stubs_more_active(a: Lowerer, b: Lowerer)
    requires
        stubs_owned(b),
        a.memo() == b.memo(),
        a.table().len() == b.table().len(),
        a.filled() == b.filled(),
        a.active().len() == b.active().len(),
        forall|c: int| 0 <= c < b.active().len() && #[trigger] b.active()[c] ==> a.active()[c],
    ensures
        stubs_owned(a),
{
    assert forall|j: int| 0 <= j < a.table().len() && !#[trigger] a.filled()[j] implies exists|c: int|
        0 <= c < a.active().len() && a.active()[c] && #[trigger] has_handle(a.memo(), c, j) by {
        let c = choose|c: int| 0 <= c < b.active().len() && b.active()[c] && #[trigger] has_handle(b.memo(), c, j);
        assert(a.active()[c] && has_handle(a.memo(), c, j));
    }
}

/// Finishing node `n` with handle `h` keeps every stub owned, provided the
/// stub `n` owned, if any, is complete.
proof fn lemma_stub_released(a: Lowerer, b: Lowerer, n: int, h: usize, released: bool)
    requires
        stubs_owned(b),
        0 <= n < b.memo().len(),
        b.active().len() == b.memo().len(),
        a.active() == if released {
            b.active().update(n, false)
        } else {
            b.active()
        },
        a.memo() == b.memo().update(n, Some(h)),
        a.filled() == b.filled(),
        a.table().len() == b.table().len(),
        b.filled().len() == b.table().len(),
        b.memo()[n] is None || (b.memo()[n] == Some(h) && h < b.table().len() && b.filled()[h as int]),
    ensures
        stubs_owned(a),
{
    assert forall|j: int| 0 <= j < a.table().len() && !#[trigger] a.filled()[j] implies exists|c: int|
        0 <= c < a.active().len() && a.active()[c] && #[trigger] has_handle(a.memo(), c, j) by {
        let c = choose|c: int| 0 <= c < b.active().len() && b.active()[c] && #[trigger] has_handle(b.memo(), c, j);
        if c == n {
            assert(b.memo()[n] == Some(h));
            assert(j == h as int);
            assert(b.filled()[j]);
        }
        assert(a.active()[c] && has_handle(a.memo(), c, j));
    }
}

/// At the start of a pass, and between roots, every root of a convertible
/// graph can be lowered.
proof fn lemma_root_lowerable(lw: Lowerer, g: MetaGraph, roots: Seq<usize>, max_depth: int, k: int)
    requires
        convertible(g, roots, max_depth as nat),
        max_depth >= 0,
        0 <= k < roots.len(),
        roots[k] < g.nodes@.len(),
        lw.active().len() == g.nodes@.len(),
        lw.headless().len() == g.nodes@.len(),
        forall|m: int| 0 <= m < g.nodes@.len() ==> !#[trigger] lw.active()[m],
        forall|m: int| 0 <= m < g.nodes@.len() ==> !#[trigger] lw.headless()[m],
    ensures
        lw.lowerable(g, roots[k] as int, max_depth),
{
    let r = roots[k] as int;
    let nn = g.nodes@.len() as int;
    assert forall|w: int| #[trigger] reaches(g, r, w) implies supported(g.nodes@[w]) by {
        assert(reaches(g, roots[k] as int, w));
    }
    let rank = choose|rank: Seq<nat>| #[trigger] ranked(g, rank);
    lemma_count_idle_all(lw.active());
    assert(idle_others(lw.active(), r) == nn - 1);
    assert(rank[r] < nn);
    let q = nn - 1;
    assert(nn * nn == nn * q + nn) by (nonlinear_arith)
        requires
            q == nn - 1,
    ;
    assert(max_depth > rank[r] + nn * idle_others(lw.active(), r));
}

/// The record `t` of node `m` in table `tab` carries that node's own
/// contents: the members of a named struct or union, the variants of a
/// fieldless enum, the tag and payload layout of a data-carrying enum.
pub open spec fn node_record_fits(g: MetaGraph, tab: TypeTable, m: int, t: BtfType, memo: Seq<Option<usize>>) -> bool {
    match g.nodes@[m] {
        MetaNode::Composite(cn) => has_name(g.nodes@[m]) ==> members_fit(t, cn, memo),
        MetaNode::Enum(e) => (enum_shape(e.repr, e.variants@) is Ok && !(enum_shape(e.repr, e.variants@)
            == Ok::<EnumShape, ErrorKind>(EnumShape::Data)) ==> enum_fits(t, e)) && (enum_shape(
            e.repr,
            e.variants@,
        ) == Ok::<EnumShape, ErrorKind>(EnumShape::Data) ==> data_enum_fits(tab, t, e)),
        _ => true,
    }
}

/// With distinct names and no pass in progress, a node's record was built
/// from that node.
proof fn lemma_record_of_node(s: Lowerer, g: MetaGraph, m: int)
    requires
        g.wf(),
        s.wf(g.nodes@.len()),
        s.sound(g),
        s.complete(g),
        names_distinct(g),
        forall|c: int| 0 <= c < g.nodes@.len() ==> !#[trigger] s.active()[c],
        0 <= m < g.nodes@.len(),
        s.memo()[m] is Some,
    ensures
        node_record_fits(g, s.table(), m, s.table().types()[s.memo()[m]->0 as int], s.memo()),
{
    let h = s.memo()[m]->0 as int;
    assert(identifies(s.table(), h, g.nodes@[m], s.memo()));
    assert(record_fits(s.table().types()[h], s.table().keys()[h]));
    if !s.filled()[h] {
        let c = choose|c: int| 0 <= c < s.active().len() && s.active()[c] && #[trigger] has_handle(s.memo(), c, h);
        assert(!s.active()[c]);
    }
    match g.nodes@[m] {
        MetaNode::Composite(cn) => {
            if has_name(g.nodes@[m]) {
                assert(is_struct_key(s.table().keys()[h]));
                let c = choose|c: int|
                    0 <= c < s.memo().len() && #[trigger] has_handle(s.memo(), c, h) && (
                    g.nodes@[c] matches MetaNode::Composite(cc) && members_fit(s.table().types()[h], cc, s.memo()));
                assert(identifies(s.table(), h, g.nodes@[c], s.memo()));
                assert(has_name(g.nodes@[c]));
                if g.nodes@[c] != g.nodes@[m] {
                    assert(scopes_differ(g, g.nodes@[c], g.nodes@[m]));
                    lemma_scopes_differ_handles(s, g, c, m);
                }
            }
        },
        MetaNode::Enum(e) => {
            if enum_shape(e.repr, e.variants@) is Ok && !(enum_shape(e.repr, e.variants@)
                == Ok::<EnumShape, ErrorKind>(EnumShape::Data)) {
                assert(s.table().types()[h] is Enum);
                let c = choose|c: int|
                    0 <= c < g.nodes@.len() && #[trigger] has_handle(s.memo(), c, h) && enum_record_of(
                        g,
                        c,
                        s.table().types()[h],
                    );
                assert(identifies(s.table(), h, g.nodes@[c], s.memo()));
                if g.nodes@[c] != g.nodes@[m] {
                    assert(has_name(g.nodes@[c]) && has_name(g.nodes@[m]));
                    assert(scopes_differ(g, g.nodes@[c], g.nodes@[m]));
                    lemma_scopes_differ_handles(s, g, c, m);
                }
            }
            if enum_shape(e.repr, e.variants@) == Ok::<EnumShape, ErrorKind>(EnumShape::Data) {
                assert(s.table().types()[h] is Struct);
                let c = choose|c: int|
                    0 <= c < g.nodes@.len() && #[trigger] has_handle(s.memo(), c, h) && (g.nodes@[c] matches MetaNode::Enum(en)
                    && data_enum_fits(s.table(), s.table().types()[h], en));
                assert(identifies(s.table(), h, g.nodes@[c], s.memo()));
                if g.nodes@[c] != g.nodes@[m] {
                    assert(has_name(g.nodes@[c]) && has_name(g.nodes@[m]));
                    assert(scopes_differ(g, g.nodes@[c], g.nodes@[m]));
                    lemma_scopes_differ_handles(s, g, c, m);
                }
            }
        },
        _ => {},
    }
}

/// The kind of the key of a struct, union or enum node.
pub open spec fn node_kind(node: MetaNode) -> NamedKind {
    match node {
        MetaNode::Composite(c) => NamedKind::of_composite(c.kind),
        _ => NamedKind::Enum,
    }
}

pub open spec fn node_args(node: MetaNode) -> Seq<usize> {
    match node {
        MetaNode::Composite(c) => c.generic_args@,
        MetaNode::Enum(e) => e.generic_args@,
        _ => Seq::empty(),
    }
}

/// The key of a struct, union or enum node, from the handles of its scope
/// and generic arguments.
pub open spec fn named_key(node: MetaNode, memo: Seq<Option<usize>>) -> KeyView {
    KeyView::Named(node_kind(node), res_opt(memo, node_scope(node)), node_name(node), res_list(memo, node_args(node)))
}

proof fn lemma_lowerable_kept(a: Lowerer, b: Lowerer, g: MetaGraph, v: int, budget: int)
    requires
        b.lowerable(g, v, budget),
        a.active() == b.active(),
        a.headless() == b.headless(),
        0 <= v < b.memo().len(),
        a.memo().len() == b.memo().len(),
        forall|m: int| 0 <= m < b.memo().len() && (#[trigger] b.memo()[m]) is Some ==> a.memo()[m] == b.memo()[m],
    ensures
        a.lowerable(g, v, budget),
{
    if b.memo()[v] is Some {
        assert(a.memo()[v] is Some);
    }
}

proof fn lemma_idle_nonneg(s: Seq<bool>, n: int)
    requires
        0 <= n < s.len(),
    ensures
        idle_others(s, n) >= 0,
{
    if !s[n] {
        lemma_count_idle_set(s, n);
    }
}

/// A node that `n` refers to can be lowered with one less budget, once `n`
/// is marked as being lowered.
proof fn lemma_child_lowerable(s0: Lowerer, a: Lowerer, g: MetaGraph, n: int, v: int, budget: int)
    requires
        g.wf(),
        0 <= n < g.nodes@.len(),
        0 <= v < g.nodes@.len(),
        s0.wf(g.nodes@.len()),
        s0.lowerable(g, n, budget),
        s0.memo()[n] is None,
        !(s0.active()[n] && is_named_node(g.nodes@[n])),
        !s0.headless()[n],
        refers_to(g.nodes@[n], v),
        a.active() == s0.active().update(n, true),
        a.headless().len() == g.nodes@.len(),
        a.memo().len() == g.nodes@.len(),
        forall|c: int|
            0 <= c < g.nodes@.len() && #[trigger] a.headless()[c] ==> s0.headless()[c] || (c == n && header_ref(
                g.nodes@[n],
                v,
            )),
    ensures
        budget > 0,
        a.lowerable(g, v, budget - 1),
{
    let nn = g.nodes@.len() as int;
    assert forall|w: int| #[trigger] reaches(g, v, w) implies supported(g.nodes@[w]) by {
        lemma_reaches_prepend(g, n, v, w);
    }
    assert forall|c: int| 0 <= c < a.headless().len() && #[trigger] a.headless()[c] implies header_reaches(g, c, v) by {
        if s0.headless()[c] {
            let h = choose|h: int| #[trigger] header_ref(g.nodes@[c], h) && reaches(g, h, n);
            lemma_reaches_step(g, h, n, v);
        } else {
            lemma_reaches_self(g, v);
        }
    }
    let rank = choose|rank: Seq<nat>| #[trigger] ranked(g, rank) && budget > rank[n] + nn * idle_others(s0.active(), n);
    let p = idle_others(s0.active(), n);
    lemma_idle_nonneg(s0.active(), n);
    assert(nn * p >= 0) by (nonlinear_arith)
        requires
            nn >= 0,
            p >= 0,
    ;
    if s0.active()[n] {
        assert(a.active() =~= s0.active());
    } else {
        lemma_count_idle_set(s0.active(), n);
    }
    assert(count_idle(a.active()) == p);
    if !(a.memo()[v] is Some) && !(a.active()[v] && is_named_node(g.nodes@[v])) {
        if a.active()[v] {
            assert(rank[v] < rank[n]);
            assert(budget - 1 > rank[v] + nn * idle_others(a.active(), v));
        } else {
            lemma_count_idle_set(a.active(), v);
            let q = p - 1;
            assert(nn * p == nn * q + nn) by (nonlinear_arith)
                requires
                    q == p - 1,
            ;
            assert(rank[v] < nn);
            assert(budget - 1 > rank[v] + nn * idle_others(a.active(), v));
        }
        assert(ranked(g, rank));
    }
}

proof fn lemma_budget_positive(s: Lowerer, g: MetaGraph, n: int, budget: int)
    requires
        s.lowerable(g, n, budget),
        0 <= n < g.nodes@.len(),
        s.active().len() == g.nodes@.len(),
        s.memo()[n] is None,
        !(s.active()[n] && is_named_node(g.nodes@[n])),
    ensures
        budget > 0,
{
    let nn = g.nodes@.len() as int;
    let rank = choose|rank: Seq<nat>| #[trigger] ranked(g, rank) && budget > rank[n] + nn * idle_others(s.active(), n);
    let p = idle_others(s.active(), n);
    lemma_idle_nonneg(s.active(), n);
    assert(nn * p >= 0) by (nonlinear_arith)
        requires
            nn >= 0,
            p >= 0,
    ;
}

/// Every node that `n` refers to can be lowered with one less budget from a
/// state where `n` is marked as being lowered; while `n`'s header is being
/// lowered, every node of its header can.
proof fn lemma_children_lowerable(s0: Lowerer, a: Lowerer, g: MetaGraph, n: int, budget: int)
    requires
        g.wf(),
        0 <= n < g.nodes@.len(),
        s0.wf(g.nodes@.len()),
        s0.lowerable(g, n, budget),
        s0.memo()[n] is None,
        !(s0.active()[n] && is_named_node(g.nodes@[n])),
        !s0.headless()[n],
        a.active() == s0.active().update(n, true),
        a.headless().len() == g.nodes@.len(),
        a.memo().len() == g.nodes@.len(),
        forall|c: int| 0 <= c < g.nodes@.len() && #[trigger] a.headless()[c] ==> s0.headless()[c] || c == n,
    ensures
        forall|v: int|
            0 <= v < g.nodes@.len() && #[trigger] refers_to(g.nodes@[n], v) && (a.headless()[n] ==> header_ref(
                g.nodes@[n],
                v,
            )) ==> a.lowerable(g, v, budget - 1),
{
    assert forall|v: int|
        0 <= v < g.nodes@.len() && #[trigger] refers_to(g.nodes@[n], v) && (a.headless()[n] ==> header_ref(
            g.nodes@[n],
            v,
        )) implies a.lowerable(g, v, budget - 1) by {
        lemma_child_lowerable(s0, a, g, n, v, budget);
    }
}

/// A struct or enum whose header is being lowered is not reached again.
proof fn lemma_no_reentry(s: Lowerer, g: MetaGraph, n: int, budget: int)
    requires
        s.complete(g),
        s.wf(g.nodes@.len()),
        0 <= n < g.nodes@.len(),
        s.active()[n],
        s.memo()[n] is None,
        is_named_node(g.nodes@[n]),
    ensures
        !s.lowerable(g, n, budget),
{
    if s.lowerable(g, n, budget) {
        assert(s.headless()[n]);
        assert(header_reaches(g, n, n));
        let h = choose|h: int| #[trigger] header_ref(g.nodes@[n], h) && reaches(g, h, n);
    }
}

/// Two named nodes whose scopes are namespaces of different names do not
/// share a scope handle.
proof fn lemma_scopes_differ_handles(s: Lowerer, g: MetaGraph, a: int, b: int)
    requires
        g.wf(),
        s.wf(g.nodes@.len()),
        s.sound(g),
        0 <= a < g.nodes@.len(),
        0 <= b < g.nodes@.len(),
        scopes_differ(g, g.nodes@[a], g.nodes@[b]),
        opt_resolved(s.memo(), node_scope(g.nodes@[a])),
        opt_resolved(s.memo(), node_scope(g.nodes@[b])),
    ensures
        res_opt(s.memo(), node_scope(g.nodes@[a])) != res_opt(s.memo(), node_scope(g.nodes@[b])),
{
    let sa = node_scope(g.nodes@[a])->0 as int;
    let sb = node_scope(g.nodes@[b])->0 as int;
    if s.memo()[sa] == s.memo()[sb] {
        let h = s.memo()[sa]->0 as int;
        assert(identifies(s.table(), h, g.nodes@[sa], s.memo()));
        assert(identifies(s.table(), h, g.nodes@[sb], s.memo()));
    }
}

/// The record at a named key belongs to a named node with that key.
proof fn lemma_named_owner(s: Lowerer, g: MetaGraph, i: int) -> (c: int)
    requires
        g.wf(),
        s.wf(g.nodes@.len()),
        s.sound(g),
        s.complete(g),
        0 <= i < s.table().len(),
        s.table().keys()[i] is Named,
    ensures
        0 <= c < g.nodes@.len(),
        is_named_node(g.nodes@[c]),
        identifies(s.table(), i, g.nodes@[c], s.memo()),
        s.table().keys()[i] == named_key(g.nodes@[c], s.memo()),
        opt_resolved(s.memo(), node_scope(g.nodes@[c])),
        list_resolved(s.memo(), node_args(g.nodes@[c])),
{
    let c = choose|c: int| 0 <= c < s.memo().len() && #[trigger] has_handle(s.memo(), c, i);
    assert(identifies(s.table(), s.memo()[c]->0 as int, g.nodes@[c], s.memo()));
    c
}

/// Under distinct names, no record of another key already has the scoped
/// name that a new named node would take.
proof fn lemma_name_free(s: Lowerer, g: MetaGraph, n: int)
    requires
        g.wf(),
        s.wf(g.nodes@.len()),
        s.sound(g),
        s.complete(g),
        names_distinct(g),
        0 <= n < g.nodes@.len(),
        has_name(g.nodes@[n]),
        opt_resolved(s.memo(), node_scope(g.nodes@[n])),
        list_resolved(s.memo(), node_args(g.nodes@[n])),
        forall|i: int| 0 <= i < s.table().len() ==> s.table().keys()[i] != named_key(g.nodes@[n], s.memo()),
    ensures
        forall|i: int|
            0 <= i < s.table().len() ==> #[trigger] scoped_name(s.table().types()[i]) != Some(
                (res_opt(s.memo(), node_scope(g.nodes@[n])), sanitized_name(node_name(g.nodes@[n]))),
            ),
{
    assert forall|i: int| 0 <= i < s.table().len() implies #[trigger] scoped_name(s.table().types()[i]) != Some(
        (res_opt(s.memo(), node_scope(g.nodes@[n])), sanitized_name(node_name(g.nodes@[n]))),
    ) by {
        if scoped_name(s.table().types()[i]) == Some(
            (res_opt(s.memo(), node_scope(g.nodes@[n])), sanitized_name(node_name(g.nodes@[n]))),
        ) {
            assert(record_fits(s.table().types()[i], s.table().keys()[i]));
            assert(s.table().keys()[i] is Named);
            let c = lemma_named_owner(s, g, i);
            assert(has_name(g.nodes@[c]));
            if g.nodes@[c] == g.nodes@[n] {
                assert(s.table().keys()[i] == named_key(g.nodes@[n], s.memo()));
            } else {
                assert(scopes_differ(g, g.nodes@[c], g.nodes@[n]));
                lemma_scopes_differ_handles(s, g, c, n);
            }
        }
    }
}

/// Under distinct names, the record found under an enum's key has the shape
/// that enum lowers to.
proof fn lemma_enum_hit_shape(s: Lowerer, g: MetaGraph, n: int, i: int)
    requires
        g.wf(),
        s.wf(g.nodes@.len()),
        s.sound(g),
        s.complete(g),
        names_distinct(g),
        0 <= n < g.nodes@.len(),
        g.nodes@[n] is Enum,
        opt_resolved(s.memo(), node_scope(g.nodes@[n])),
        0 <= i < s.table().len(),
        s.table().keys()[i] == named_key(g.nodes@[n], s.memo()),
    ensures
        (s.table().types()[i] is Struct) == (enum_shape(
            g.nodes@[n]->Enum_0.repr,
            g.nodes@[n]->Enum_0.variants@,
        ) == Ok::<EnumShape, ErrorKind>(EnumShape::Data)),
{
    let c = lemma_named_owner(s, g, i);
    assert(record_fits(s.table().types()[i], s.table().keys()[i]));
    assert(g.nodes@[c] is Enum);
    assert(has_name(g.nodes@[c]) && has_name(g.nodes@[n]));
    if g.nodes@[c] != g.nodes@[n] {
        assert(scopes_differ(g, g.nodes@[c], g.nodes@[n]));
        lemma_scopes_differ_handles(s, g, c, n);
    }
}

proof fn lemma_extends_trans(a: Lowerer, b: Lowerer, c: Lowerer)
    requires
        a.extends(b),
        b.extends(c),
    ensures
        a.extends(c),
{
    assert forall|i: int| 0 <= i < c.table().len() implies #[trigger] a.table().keys()[i]
        == c.table().keys()[i] by {
        assert(a.table().keys()[i] == b.table().keys()[i]);
    }
    assert forall|i: int| 0 <= i < c.table().len() implies #[trigger] scoped_name(
        a.table().types()[i],
    ) == scoped_name(c.table().types()[i]) by {
        assert(scoped_name(a.table().types()[i]) == scoped_name(b.table().types()[i]));
    }
    assert forall|m: int| 0 <= m < c.memo().len() && (#[trigger] c.memo()[m]) is Some implies a.memo()[m]
        == c.memo()[m] by {
        assert(b.memo()[m] == c.memo()[m]);
    }
    assert forall|i: int| 0 <= i < c.table().len() && #[trigger] c.filled()[i] implies a.filled()[i]
        && a.table().types()[i] == c.table().types()[i] by {
        assert(b.filled()[i]);
    }
    assert forall|m: int| 0 <= m < c.active().len() && #[trigger] c.active()[m] implies a.active()[m] by {
        assert(b.active()[m]);
    }
    assert forall|m: int| 0 <= m < c.headless().len() && #[trigger] c.headless()[m] implies a.headless()[m] by {
        assert(b.headless()[m]);
    }
}

} // verus!
