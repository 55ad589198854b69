//! The debug metadata graph that a conversion pass reads.
//!
//! Nodes live in an arena owned by the caller; a node refers to another by its
//! index in that arena.
use vstd::prelude::*;

verus! {

/// How a basic type's bits are read.
#[derive(Clone, Copy, Debug, PartialEq, Eq, Structural)]
pub enum Encoding {
    Boolean,
    Signed,
    Unsigned,
    Float,
}

/// Struct or union.
#[derive(Clone, Copy, Debug, PartialEq, Eq, Structural)]
pub enum CompositeKind {
    Struct,
    Union,
}

/// The representation attribute of an enum.
#[derive(Clone, Copy, Debug, PartialEq, Eq, Structural)]
pub enum Repr {
    /// No attribute.
    Unspecified,
    /// `repr(C)`.
    C,
    /// `repr(i8)` .. `repr(u64)`; `bits` is the integer's width.
    Int { signed: bool, bits: u32 },
    /// `repr(isize)` or `repr(usize)`.
    PointerSized { signed: bool },
}

/// A field of a struct or union.
#[derive(Clone, Debug)]
pub struct Member {
    pub name: String,
    pub ty: usize,
    pub offset_bits: u64,
}

/// A field of an enum variant; `positional` for a tuple-like field.
#[derive(Clone, Debug)]
pub struct Field {
    pub name: String,
    pub positional: bool,
    pub ty: usize,
    pub offset_bits: u64,
}

/// A variant of an enum; `discriminant` is the explicit value, if one is given.
#[derive(Clone, Debug)]
pub struct Variant {
    pub name: String,
    pub discriminant: Option<i128>,
    pub fields: Vec<Field>,
    pub size_bits: u64,
}

/// A struct or union node.
#[derive(Clone, Debug)]
pub struct CompositeNode {
    pub kind: CompositeKind,
    pub name: String,
    pub scope: Option<usize>,
    pub generic_args: Vec<usize>,
    pub members: Vec<Member>,
    pub size_bits: u64,
}

/// An enum node.
#[derive(Clone, Debug)]
pub struct EnumNode {
    pub name: String,
    pub scope: Option<usize>,
    pub generic_args: Vec<usize>,
    pub repr: Repr,
    pub variants: Vec<Variant>,
    pub size_bits: u64,
}

/// One node of the metadata graph.
#[derive(Clone, Debug)]
pub enum MetaNode {
    Basic { name: String, bit_size: u32, encoding: Encoding },
    Composite(CompositeNode),
    Enum(EnumNode),
    Pointer { pointee: usize },
    /// A function signature; `ret` is `None` for a function that returns nothing.
    /// `is_pointer` marks a function pointer value rather than a bare signature.
    Subroutine { ret: Option<usize>, params: Vec<usize>, is_pointer: bool },
    Array { element: usize, count: u64 },
    Namespace { name: String, parent: Option<usize> },
    /// A construct the conversion has no rule for.
    Unsupported,
}

/// The metadata graph: an arena of nodes.
#[derive(Clone, Debug)]
pub struct MetaGraph {
    pub nodes: Vec<MetaNode>,
}

pub open spec fn opt_ref_ok(r: Option<usize>, n: int) -> bool {
    match r {
        Some(i) => i < n,
        None => true,
    }
}

pub open spec fn refs_ok(s: Seq<usize>, n: int) -> bool {
    forall|k: int| 0 <= k < s.len() ==> #[trigger] s[k] < n
}

/// Every reference held by the node is a valid index into an arena of `n` nodes.
pub open spec fn node_refs_ok(node: MetaNode, n: int) -> bool {
    match node {
        MetaNode::Composite(c) => opt_ref_ok(c.scope, n) && refs_ok(c.generic_args@, n)
            && forall|k: int| 0 <= k < c.members@.len() ==> #[trigger] c.members@[k].ty < n,
        MetaNode::Enum(e) => opt_ref_ok(e.scope, n) && refs_ok(e.generic_args@, n)
            && forall|k: int, f: int|
            0 <= k < e.variants@.len() && 0 <= f < e.variants@[k].fields@.len()
                ==> #[trigger] e.variants@[k].fields@[f].ty < n,
        MetaNode::Pointer { pointee } => pointee < n,
        MetaNode::Subroutine { ret, params, .. } => opt_ref_ok(ret, n) && refs_ok(params@, n),
        MetaNode::Array { element, .. } => element < n,
        MetaNode::Namespace { parent, .. } => opt_ref_ok(parent, n),
        _ => true,
    }
}

impl MetaGraph {
    /// Every reference in the graph points at a node of the graph.
    pub open spec fn wf(&self) -> bool {
        forall|i: int| 0 <= i < self.nodes@.len() ==> node_refs_ok(#[trigger] self.nodes@[i], self.nodes@.len() as int)
    }

    /// Whether every reference in the graph points at a node of the graph.
    pub fn is_well_formed(&self) -> (r: bool)
        ensures
            r == self.wf(),
    {
        let n = self.nodes.len();
        let mut i: usize = 0;
        while i < n
            invariant
                n == self.nodes@.len(),
                i <= n,
                forall|k: int| 0 <= k < i ==> node_refs_ok(#[trigger] self.nodes@[k], n as int),
            decreases n - i,
        {
            if !node_ok(&self.nodes[i], n) {
                return false;
            }
            i = i + 1;
        }
        true
    }
}

fn opt_ok(r: Option<usize>, n: usize) -> (b: bool)
    ensures
        b == opt_ref_ok(r, n as int),
{
    match r {
        Some(i) => i < n,
        None => true,
    }
}

fn all_below(s: &Vec<usize>, n: usize) -> (b: bool)
    ensures
        b == refs_ok(s@, n as int),
{
    let mut i: usize = 0;
    while i < s.len()
        invariant
            i <= s@.len(),
            forall|k: int| 0 <= k < i ==> #[trigger] s@[k] < n,
        decreases s@.len() - i,
    {
        if s[i] >= n {
            return false;
        }
        i = i + 1;
    }
    true
}

fn node_ok(node: &MetaNode, n: usize) -> (b: bool)
    ensures
        b == node_refs_ok(*node, n as int),
{
    match node {
        MetaNode::Composite(c) => {
            if !opt_ok(c.scope, n) || !all_below(&c.generic_args, n) {
                return false;
            }
            let mut i: usize = 0;
            while i < c.members.len()
                invariant
                    *node == MetaNode::Composite(*c),
                    i <= c.members@.len(),
                    forall|k: int| 0 <= k < i ==> #[trigger] c.members@[k].ty < n,
                decreases c.members@.len() - i,
            {
                if c.members[i].ty >= n {
                    assert(!(c.members@[i as int].ty < n));
                    return false;
                }
                i = i + 1;
            }
            true
        },
        MetaNode::Enum(e) => {
            if !opt_ok(e.scope, n) || !all_below(&e.generic_args, n) {
                return false;
            }
            let mut v: usize = 0;
            while v < e.variants.len()
                invariant
                    *node == MetaNode::Enum(*e),
                    v <= e.variants@.len(),
                    forall|k: int, f: int|
                        0 <= k < v && 0 <= f < e.variants@[k].fields@.len()
                            ==> #[trigger] e.variants@[k].fields@[f].ty < n,
                decreases e.variants@.len() - v,
            {
                let fields = &e.variants[v].fields;
                let mut f: usize = 0;
                while f < fields.len()
                    invariant
                        *node == MetaNode::Enum(*e),
                        v < e.variants@.len(),
                        *fields == e.variants@[v as int].fields,
                        f <= fields@.len(),
                        forall|j: int| 0 <= j < f ==> #[trigger] fields@[j].ty < n,
                    decreases fields@.len() - f,
                {
                    if fields[f].ty >= n {
                        assert(!(e.variants@[v as int].fields@[f as int].ty < n));
                        return false;
                    }
                    f = f + 1;
                }
                v = v + 1;
            }
            true
        },
        MetaNode::Pointer { pointee } => *pointee < n,
        MetaNode::Subroutine { ret, params, .. } => opt_ok(*ret, n) && all_below(params, n),
        MetaNode::Array { element, .. } => *element < n,
        MetaNode::Namespace { parent, .. } => opt_ok(*parent, n),
        _ => true,
    }
}

} // verus!
