//! The output type table: one record per canonical type, each with the
//! identity key it was deduplicated by.
use vstd::prelude::*;
use crate::meta::{CompositeKind, Encoding};
use crate::sanitize::sanitized;
use vstd::utf8::encode_utf8;

verus! {

/// A field of a struct or union record.
#[derive(Clone, Debug)]
pub struct BtfMember {
    pub name: String,
    pub ty: usize,
    pub offset_bits: u64,
}

/// An entry of an enumeration record.
#[derive(Clone, Debug)]
pub struct BtfEnumEntry {
    pub name: String,
    pub value: i128,
}

/// A type record. Handles (`usize`) are indices into the table; names are
/// sanitized, and an empty struct name marks an anonymous struct.
#[derive(Clone, Debug)]
pub enum BtfType {
    Int { name: String, bits: u32, encoding: Encoding },
    Pointer { target: usize },
    Array { element: usize, count: u64 },
    Struct { name: String, scope: Option<usize>, is_union: bool, size_bits: u64, members: Vec<BtfMember> },
    /// An enumeration; `wide` marks the 64-bit record.
    Enum { name: String, scope: Option<usize>, wide: bool, signed: bool, entries: Vec<BtfEnumEntry> },
    /// A function signature; `ret` is `None` for one that returns nothing.
    FuncProto { ret: Option<usize>, params: Vec<usize> },
    Namespace { name: String, parent: Option<usize> },
}

/// The kind of a named composite.
#[derive(Clone, Copy, Debug, PartialEq, Eq, Structural)]
pub enum NamedKind {
    Struct,
    Union,
    Enum,
}

impl NamedKind {
    pub open spec fn of_composite(k: CompositeKind) -> NamedKind {
        match k {
            CompositeKind::Struct => NamedKind::Struct,
            CompositeKind::Union => NamedKind::Union,
        }
    }
}

/// What a record is deduplicated by: its kind, its scalars, and the handles of
/// the types it refers to. A named composite is keyed by its source name, its
/// scope and its generic arguments, never by its sanitized name; an anonymous
/// struct by its whole layout.
#[derive(Clone, Debug)]
pub enum IdentityKey {
    Basic { name: String, bits: u32, encoding: Encoding },
    Named { kind: NamedKind, scope: Option<usize>, name: String, args: Vec<usize> },
    Anonymous { is_union: bool, size_bits: u64, members: Vec<BtfMember> },
    Pointer { target: usize },
    Array { element: usize, count: u64 },
    FuncProto { ret: Option<usize>, params: Vec<usize> },
    Namespace { name: String, parent: Option<usize> },
}

/// The mathematical value of an identity key.
pub enum KeyView {
    Basic(Seq<char>, u32, Encoding),
    Named(NamedKind, Option<usize>, Seq<char>, Seq<usize>),
    Anonymous(bool, u64, Seq<(Seq<char>, usize, u64)>),
    Pointer(usize),
    Array(usize, u64),
    FuncProto(Option<usize>, Seq<usize>),
    Namespace(Seq<char>, Option<usize>),
}

pub open spec fn members_view(ms: Seq<BtfMember>) -> Seq<(Seq<char>, usize, u64)> {
    ms.map_values(|m: BtfMember| (m.name@, m.ty, m.offset_bits))
}

impl View for IdentityKey {
    type V = KeyView;

    open spec fn view(&self) -> KeyView {
        match self {
            IdentityKey::Basic { name, bits, encoding } => KeyView::Basic(name@, *bits, *encoding),
            IdentityKey::Named { kind, scope, name, args } => KeyView::Named(*kind, *scope, name@, args@),
            IdentityKey::Anonymous { is_union, size_bits, members } => KeyView::Anonymous(
                *is_union,
                *size_bits,
                members_view(members@),
            ),
            IdentityKey::Pointer { target } => KeyView::Pointer(*target),
            IdentityKey::Array { element, count } => KeyView::Array(*element, *count),
            IdentityKey::FuncProto { ret, params } => KeyView::FuncProto(*ret, params@),
            IdentityKey::Namespace { name, parent } => KeyView::Namespace(name@, *parent),
        }
    }
}

pub open spec fn opt_below(r: Option<usize>, n: int) -> bool {
    match r {
        Some(i) => i < n,
        None => true,
    }
}

/// Every handle that the record refers to is below `n`.
pub open spec fn refs_below(t: BtfType, n: int) -> bool {
    match t {
        BtfType::Pointer { target } => target < n,
        BtfType::Array { element, .. } => element < n,
        BtfType::Struct { scope, members, .. } => opt_below(scope, n) && forall|k: int|
            0 <= k < members@.len() ==> #[trigger] members@[k].ty < n,
        BtfType::Enum { scope, .. } => opt_below(scope, n),
        BtfType::FuncProto { ret, params } => opt_below(ret, n) && forall|k: int|
            0 <= k < params@.len() ==> #[trigger] params@[k] < n,
        BtfType::Namespace { parent, .. } => opt_below(parent, n),
        BtfType::Int { .. } => true,
    }
}

/// The scope and sanitized name of a named struct, union or enumeration.
pub open spec fn scoped_name(t: BtfType) -> Option<(Option<usize>, Seq<char>)> {
    match t {
        BtfType::Struct { name, scope, .. } => if name@.len() > 0 {
            Some((scope, name@))
        } else {
            None
        },
        BtfType::Enum { name, scope, .. } => Some((scope, name@)),
        _ => None,
    }
}

/// The sanitized form of a source name.
pub open spec fn sanitized_name(name: Seq<char>) -> Seq<char> {
    sanitized(encode_utf8(name))
}

/// The record agrees with its key: same kind, sanitized names of the key's
/// source names, and the same handles and scalars. A named enum is either an
/// enumeration or the anonymous struct of a data-carrying enum; struct members
/// are not part of a named key.
pub open spec fn record_fits(t: BtfType, k: KeyView) -> bool {
    match k {
        KeyView::Basic(n, b, e) => t matches BtfType::Int { name, bits, encoding } && name@
            == sanitized_name(n) && bits == b && encoding == e,
        KeyView::Named(kind, s, n, _) => match t {
            BtfType::Struct { name, scope, is_union, .. } => scope == s && if kind == NamedKind::Enum {
                name@.len() == 0 && !is_union
            } else {
                name@ == sanitized_name(n) && is_union == (kind == NamedKind::Union)
            },
            BtfType::Enum { name, scope, .. } => kind == NamedKind::Enum && scope == s && name@
                == sanitized_name(n),
            _ => false,
        },
        KeyView::Anonymous(u, z, ms) => t matches BtfType::Struct { name, scope, is_union, size_bits, members }
            && name@.len() == 0 && scope is None && is_union == u && size_bits == z && members_view(
            members@,
        ) == ms,
        KeyView::Pointer(p) => t matches BtfType::Pointer { target } && target == p,
        KeyView::Array(e, c) => t matches BtfType::Array { element, count } && element == e && count
            == c,
        KeyView::FuncProto(r, ps) => t matches BtfType::FuncProto { ret, params } && ret == r
            && params@ == ps,
        KeyView::Namespace(n, p) => t matches BtfType::Namespace { name, parent } && name@
            == sanitized_name(n) && parent == p,
    }
}

/// The canonical type table.
pub struct TypeTable {
    types: Vec<BtfType>,
    keys: Vec<IdentityKey>,
}

impl TypeTable {
    pub closed spec fn types(&self) -> Seq<BtfType> {
        self.types@
    }

    /// The identity key of each record, as values.
    pub closed spec fn keys(&self) -> Seq<KeyView> {
        self.keys@.map_values(|k: IdentityKey| k@)
    }

    pub open spec fn len(&self) -> nat {
        self.types().len()
    }

    /// Each record refers only to records of the table; no two records share
    /// an identity key; no two named composites of one scope share a name.
    pub open spec fn wf(&self) -> bool {
        &&& self.keys().len() == self.types().len()
        &&& forall|i: int| 0 <= i < self.len() ==> record_fits(#[trigger] self.types()[i], self.keys()[i])
        &&& forall|i: int| 0 <= i < self.len() ==> refs_below(#[trigger] self.types()[i], self.len() as int)
        &&& forall|i: int, j: int|
            0 <= i < self.len() && 0 <= j < self.len() && i != j ==> #[trigger] self.keys()[i]
                != #[trigger] self.keys()[j]
        &&& forall|i: int, j: int|
            0 <= i < self.len() && 0 <= j < self.len() && i != j && (#[trigger] scoped_name(
                self.types()[i],
            )) is Some ==> scoped_name(self.types()[i]) != #[trigger] scoped_name(self.types()[j])
    }

    pub fn new() -> (r: TypeTable)
        ensures
            r.wf(),
            r.len() == 0,
    {
        TypeTable { types: Vec::new(), keys: Vec::new() }
    }

    /// The number of records.
    pub fn count(&self) -> (r: usize)
        requires
            self.wf(),
        ensures
            r == self.len(),
    {
        self.types.len()
    }

    /// The record at handle `i`.
    pub fn get(&self, i: usize) -> (r: &BtfType)
        requires
            i < self.len(),
        ensures
            *r == self.types()[i as int],
    {
        &self.types[i]
    }

    /// The identity key of the record at handle `i`.
    pub fn key(&self, i: usize) -> (r: &IdentityKey)
        requires
            self.wf(),
            i < self.len(),
        ensures
            r@ == self.keys()[i as int],
    {
        &self.keys[i]
    }

    /// The handle of the record with key `k`, if there is one.
    pub fn find(&self, k: &IdentityKey) -> (r: Option<usize>)
        requires
            self.wf(),
        ensures
            match r {
                Some(i) => i < self.len() && self.keys()[i as int] == k@,
                None => forall|i: int| 0 <= i < self.len() ==> self.keys()[i] != k@,
            },
    {
        let mut i: usize = 0;
        while i < self.keys.len()
            invariant
                self.wf(),
                i <= self.len(),
                forall|j: int| 0 <= j < i ==> self.keys()[j] != k@,
            decreases self.len() - i,
        {
            if key_eq(&self.keys[i], k) {
                return Some(i);
            }
            i = i + 1;
        }
        None
    }

    /// Whether a named composite of scope `scope` already has the name `name`.
    pub fn name_taken(&self, scope: Option<usize>, name: &String) -> (r: bool)
        requires
            self.wf(),
        ensures
            r == exists|i: int| 0 <= i < self.len() && #[trigger] scoped_name(self.types()[i]) == Some((scope, name@)),
    {
        let mut i: usize = 0;
        while i < self.types.len()
            invariant
                self.wf(),
                i <= self.len(),
                forall|j: int| 0 <= j < i ==> #[trigger] scoped_name(self.types()[j]) != Some((scope, name@)),
            decreases self.len() - i,
        {
            let same = match &self.types[i] {
                BtfType::Struct { name: n, scope: s, .. } => !n.as_str().is_empty() && opt_eq(*s, scope) && *n == *name,
                BtfType::Enum { name: n, scope: s, .. } => opt_eq(*s, scope) && *n == *name,
                _ => false,
            };
            if same {
                assert(scoped_name(self.types()[i as int]) == Some((scope, name@)));
                return true;
            }
            i = i + 1;
        }
        false
    }
}

/// A table holds at most one record for each identity key: whatever reaches
/// a type again, from any place, finds the one record it already has.
pub proof fn lemma_one_record_per_key(t: TypeTable, i: int, j: int)
    requires
        t.wf(),
        0 <= i < t.len(),
        0 <= j < t.len(),
        t.keys()[i] == t.keys()[j],
    ensures
        i == j,
{
}

/// Two different named structs, unions or enumerations of one scope have
/// different sanitized names.
pub proof fn lemma_distinct_names_in_scope(t: TypeTable, i: int, j: int)
    requires
        t.wf(),
        0 <= i < t.len(),
        0 <= j < t.len(),
        i != j,
        scoped_name(t.types()[i]) is Some,
        scoped_name(t.types()[j]) is Some,
        scoped_name(t.types()[i]).unwrap().0 == scoped_name(t.types()[j]).unwrap().0,
    ensures
        scoped_name(t.types()[i]).unwrap().1 != scoped_name(t.types()[j]).unwrap().1,
{
    assert(scoped_name(t.types()[i]) != scoped_name(t.types()[j]));
}

proof fn lemma_refs_below_grow(t: BtfType, a: int, b: int)
    requires
        refs_below(t, a),
        a <= b,
    ensures
        refs_below(t, b),
{
}

impl TypeTable {
    /// Appends a record under a key that no record has yet; returns its handle.
    pub(crate) fn push(&mut self, t: BtfType, k: IdentityKey) -> (r: usize)
        requires
            old(self).wf(),
            forall|i: int| 0 <= i < old(self).len() ==> old(self).keys()[i] != k@,
            refs_below(t, old(self).len() as int),
            record_fits(t, k@),
            scoped_name(t) is Some ==> forall|i: int|
                0 <= i < old(self).len() ==> #[trigger] scoped_name(old(self).types()[i]) != scoped_name(t),
        ensures
            final(self).wf(),
            r == old(self).len(),
            final(self).types() == old(self).types().push(t),
            final(self).keys() == old(self).keys().push(k@),
    {
        let r = self.types.len();
        let ghost old_keys = self.keys();
        self.types.push(t);
        self.keys.push(k);
        proof {
            assert(self.keys() =~= old_keys.push(k@));
            assert forall|i: int| 0 <= i < self.len() implies refs_below(
                #[trigger] self.types()[i],
                self.len() as int,
            ) by {
                if i < r {
                    lemma_refs_below_grow(self.types()[i], r as int, self.len() as int);
                } else {
                    lemma_refs_below_grow(t, r as int, self.len() as int);
                }
            }
            assert forall|i: int, j: int|
                0 <= i < self.len() && 0 <= j < self.len() && i != j && (#[trigger] scoped_name(
                    self.types()[i],
                )) is Some implies scoped_name(self.types()[i]) != #[trigger] scoped_name(
                self.types()[j],
            ) by {
                if i == r {
                    assert(scoped_name(old(self).types()[j]) != scoped_name(t));
                } else if j == r {
                    assert(scoped_name(old(self).types()[i]) != scoped_name(t));
                }
            }
        }
        r
    }

    /// Replaces the record at handle `h` by one with the same scoped name.
    pub(crate) fn replace(&mut self, h: usize, t: BtfType)
        requires
            old(self).wf(),
            h < old(self).len(),
            refs_below(t, old(self).len() as int),
            record_fits(t, old(self).keys()[h as int]),
            scoped_name(t) == scoped_name(old(self).types()[h as int]),
        ensures
            final(self).wf(),
            final(self).types() == old(self).types().update(h as int, t),
            final(self).keys() == old(self).keys(),
    {
        self.types[h] = t;
        proof {
            assert forall|i: int, j: int|
                0 <= i < self.len() && 0 <= j < self.len() && i != j && (#[trigger] scoped_name(
                    self.types()[i],
                )) is Some implies scoped_name(self.types()[i]) != #[trigger] scoped_name(
                self.types()[j],
            ) by {
                assert(scoped_name(self.types()[i]) == scoped_name(old(self).types()[i]));
                assert(scoped_name(self.types()[j]) == scoped_name(old(self).types()[j]));
            }
        }
    }
}

fn opt_eq(a: Option<usize>, b: Option<usize>) -> (r: bool)
    ensures
        r == (a == b),
{
    match (a, b) {
        (Some(x), Some(y)) => x == y,
        (None, None) => true,
        _ => false,
    }
}

fn handles_eq(a: &Vec<usize>, b: &Vec<usize>) -> (r: bool)
    ensures
        r == (a@ == b@),
{
    if a.len() != b.len() {
        return false;
    }
    let mut i: usize = 0;
    while i < a.len()
        invariant
            a@.len() == b@.len(),
            i <= a@.len(),
            forall|j: int| 0 <= j < i ==> a@[j] == b@[j],
        decreases a@.len() - i,
    {
        if a[i] != b[i] {
            return false;
        }
        i = i + 1;
    }
    assert(a@ =~= b@);
    true
}

fn members_eq(a: &Vec<BtfMember>, b: &Vec<BtfMember>) -> (r: bool)
    ensures
        r == (members_view(a@) == members_view(b@)),
{
    if a.len() != b.len() {
        assert(members_view(a@).len() != members_view(b@).len());
        return false;
    }
    let mut i: usize = 0;
    while i < a.len()
        invariant
            a@.len() == b@.len(),
            i <= a@.len(),
            forall|j: int| 0 <= j < i ==> members_view(a@)[j] == members_view(b@)[j],
        decreases a@.len() - i,
    {
        if !(a[i].name == b[i].name && a[i].ty == b[i].ty && a[i].offset_bits == b[i].offset_bits) {
            assert(members_view(a@)[i as int] != members_view(b@)[i as int]);
            return false;
        }
        assert(members_view(a@)[i as int] == members_view(b@)[i as int]);
        i = i + 1;
    }
    assert(members_view(a@) =~= members_view(b@));
    true
}

/// Whether two identity keys are equal as values.
pub fn key_eq(a: &IdentityKey, b: &IdentityKey) -> (r: bool)
    ensures
        r == (a@ == b@),
{
    match (a, b) {
        (
            IdentityKey::Basic { name: n1, bits: b1, encoding: e1 },
            IdentityKey::Basic { name: n2, bits: b2, encoding: e2 },
        ) => *n1 == *n2 && *b1 == *b2 && *e1 == *e2,
        (
            IdentityKey::Named { kind: k1, scope: s1, name: n1, args: a1 },
            IdentityKey::Named { kind: k2, scope: s2, name: n2, args: a2 },
        ) => *k1 == *k2 && opt_eq(*s1, *s2) && *n1 == *n2 && handles_eq(a1, a2),
        (
            IdentityKey::Anonymous { is_union: u1, size_bits: z1, members: m1 },
            IdentityKey::Anonymous { is_union: u2, size_bits: z2, members: m2 },
        ) => *u1 == *u2 && *z1 == *z2 && members_eq(m1, m2),
        (IdentityKey::Pointer { target: t1 }, IdentityKey::Pointer { target: t2 }) => *t1 == *t2,
        (
            IdentityKey::Array { element: e1, count: c1 },
            IdentityKey::Array { element: e2, count: c2 },
        ) => *e1 == *e2 && *c1 == *c2,
        (
            IdentityKey::FuncProto { ret: r1, params: p1 },
            IdentityKey::FuncProto { ret: r2, params: p2 },
        ) => opt_eq(*r1, *r2) && handles_eq(p1, p2),
        (
            IdentityKey::Namespace { name: n1, parent: p1 },
            IdentityKey::Namespace { name: n2, parent: p2 },
        ) => *n1 == *n2 && opt_eq(*p1, *p2),
        _ => false,
    }
}

} // verus!
