//! Deciding how an enum is lowered: as a plain enumeration, or as a struct
//! that holds a tag and a payload.
use vstd::prelude::*;
use crate::error::ErrorKind;
use crate::meta::{EnumNode, Repr, Variant};

verus! {

/// What an enum lowers to, without the values.
#[derive(Clone, Copy, Debug, PartialEq, Eq, Structural)]
pub enum EnumShape {
    Plain { wide: bool, signed: bool },
    Data,
}

/// The classifier's decision. For a plain enumeration, `wide` selects the
/// 64-bit record and `values` holds each variant's discriminant, in order.
#[derive(Clone, Debug)]
pub enum EnumPlan {
    Plain { wide: bool, signed: bool, values: Vec<i128> },
    Data,
}

/// The discriminant of variant `k`: its explicit value, or one more than the
/// previous variant's, starting from 0.
pub open spec fn discriminant(vs: Seq<Variant>, k: int) -> int
    decreases k,
{
    match vs[k].discriminant {
        Some(v) => v as int,
        None => if k <= 0 {
            0
        } else {
            discriminant(vs, k - 1) + 1
        },
    }
}

pub open spec fn lowest(signed: bool, bits: u32) -> int {
    if !signed {
        0
    } else if bits == 8 {
        -0x80
    } else if bits == 16 {
        -0x8000
    } else if bits == 32 {
        -0x8000_0000
    } else {
        -0x8000_0000_0000_0000
    }
}

pub open spec fn highest(signed: bool, bits: u32) -> int {
    if signed {
        if bits == 8 {
            0x7f
        } else if bits == 16 {
            0x7fff
        } else if bits == 32 {
            0x7fff_ffff
        } else {
            0x7fff_ffff_ffff_ffff
        }
    } else {
        if bits == 8 {
            0xff
        } else if bits == 16 {
            0xffff
        } else if bits == 32 {
            0xffff_ffff
        } else {
            0xffff_ffff_ffff_ffff
        }
    }
}

pub open spec fn repr_recognized(r: Repr) -> bool {
    match r {
        Repr::Int { bits, .. } => bits == 8 || bits == 16 || bits == 32 || bits == 64,
        _ => true,
    }
}

pub open spec fn is_mixed(v: Variant) -> bool {
    exists|i: int, j: int|
        0 <= i < v.fields@.len() && 0 <= j < v.fields@.len() && (#[trigger] v.fields@[i]).positional
            && !(#[trigger] v.fields@[j]).positional
}

pub open spec fn has_mixed_variant(vs: Seq<Variant>) -> bool {
    exists|k: int| 0 <= k < vs.len() && is_mixed(#[trigger] vs[k])
}

pub open spec fn has_data_variant(vs: Seq<Variant>) -> bool {
    exists|k: int| 0 <= k < vs.len() && (#[trigger] vs[k]).fields@.len() > 0
}

pub open spec fn has_negative(vs: Seq<Variant>) -> bool {
    exists|k: int| 0 <= k < vs.len() && #[trigger] discriminant(vs, k) < 0
}

pub open spec fn all_fit(vs: Seq<Variant>, signed: bool, bits: u32) -> bool {
    forall|k: int|
        0 <= k < vs.len() ==> lowest(signed, bits) <= #[trigger] discriminant(vs, k) <= highest(
            signed,
            bits,
        )
}

/// Signedness of a plain enumeration: the attribute's, and without an integer
/// attribute, signed exactly when some value is negative.
pub open spec fn plain_signed(r: Repr, vs: Seq<Variant>) -> bool {
    match r {
        Repr::Int { signed, .. } => signed,
        Repr::PointerSized { signed } => signed,
        _ => has_negative(vs),
    }
}

/// The integer width that holds the values: the attribute's, and without an
/// integer attribute, 32 bits when every value fits them, else 64.
pub open spec fn storage_bits(r: Repr, vs: Seq<Variant>) -> u32 {
    match r {
        Repr::Int { bits, .. } => bits,
        Repr::PointerSized { .. } => 64,
        _ => if all_fit(vs, plain_signed(r, vs), 32) {
            32
        } else {
            64
        },
    }
}

/// The classification of an enum with representation `r` and variants `vs`.
/// Narrow representations still give a 32-bit enumeration record.
pub open spec fn enum_shape(r: Repr, vs: Seq<Variant>) -> Result<EnumShape, ErrorKind> {
    if !repr_recognized(r) || has_mixed_variant(vs) {
        Err(ErrorKind::InconsistentEnumRepresentation)
    } else if has_data_variant(vs) {
        Ok(EnumShape::Data)
    } else if !all_fit(vs, plain_signed(r, vs), storage_bits(r, vs)) {
        Err(ErrorKind::InconsistentEnumRepresentation)
    } else {
        Ok(EnumShape::Plain { wide: storage_bits(r, vs) == 64, signed: plain_signed(r, vs) })
    }
}

fn variant_is_mixed(v: &Variant) -> (r: bool)
    ensures
        r == is_mixed(*v),
{
    let mut named = false;
    let mut positional = false;
    let mut i: usize = 0;
    while i < v.fields.len()
        invariant
            i <= v.fields@.len(),
            positional == exists|a: int| 0 <= a < i && (#[trigger] v.fields@[a]).positional,
            named == exists|a: int| 0 <= a < i && !(#[trigger] v.fields@[a]).positional,
        decreases v.fields@.len() - i,
    {
        if v.fields[i].positional {
            positional = true;
        } else {
            named = true;
        }
        i = i + 1;
    }
    named && positional
}

fn int_bounds(signed: bool, bits: u32) -> (r: (i128, i128))
    requires
        bits == 8 || bits == 16 || bits == 32 || bits == 64,
    ensures
        r.0 as int == lowest(signed, bits),
        r.1 as int == highest(signed, bits),
{
    if signed {
        if bits == 8 {
            (-0x80, 0x7f)
        } else if bits == 16 {
            (-0x8000, 0x7fff)
        } else if bits == 32 {
            (-0x8000_0000, 0x7fff_ffff)
        } else {
            (-0x8000_0000_0000_0000, 0x7fff_ffff_ffff_ffff)
        }
    } else {
        if bits == 8 {
            (0, 0xff)
        } else if bits == 16 {
            (0, 0xffff)
        } else if bits == 32 {
            (0, 0xffff_ffff)
        } else {
            (0, 0xffff_ffff_ffff_ffff)
        }
    }
}

fn values_within(values: &Vec<i128>, lo: i128, hi: i128) -> (r: bool)
    ensures
        r == forall|k: int| 0 <= k < values@.len() ==> lo <= #[trigger] values@[k] <= hi,
{
    let mut i: usize = 0;
    while i < values.len()
        invariant
            i <= values@.len(),
            forall|k: int| 0 <= k < i ==> lo <= #[trigger] values@[k] <= hi,
        decreases values@.len() - i,
    {
        if values[i] < lo || values[i] > hi {
            return false;
        }
        i = i + 1;
    }
    true
}

/// Classifies an enum: a data-carrying variant makes it a struct, otherwise it
/// is a plain enumeration whose width and signedness come from its
/// representation attribute and whose values are the discriminants.
pub fn classify(e: &EnumNode) -> (r: Result<EnumPlan, ErrorKind>)
    ensures
        match r {
            Ok(EnumPlan::Data) => enum_shape(e.repr, e.variants@) == Ok::<EnumShape, ErrorKind>(
                EnumShape::Data,
            ),
            Ok(EnumPlan::Plain { wide, signed, values }) => enum_shape(e.repr, e.variants@) == Ok::<
                EnumShape,
                ErrorKind,
            >(EnumShape::Plain { wide, signed }) && values@.len() == e.variants@.len() && forall|
                k: int,
            | 0 <= k < values@.len() ==> #[trigger] values@[k] as int == discriminant(e.variants@, k),
            Err(kind) => enum_shape(e.repr, e.variants@) == Err::<EnumShape, ErrorKind>(kind),
        },
{
    let ghost vs = e.variants@;
    let recognized = match e.repr {
        Repr::Int { bits, .. } => bits == 8 || bits == 16 || bits == 32 || bits == 64,
        _ => true,
    };
    if !recognized {
        return Err(ErrorKind::InconsistentEnumRepresentation);
    }
    let mut mixed = false;
    let mut data = false;
    let mut i: usize = 0;
    while i < e.variants.len()
        invariant
            i <= vs.len(),
            vs == e.variants@,
            mixed == exists|k: int| 0 <= k < i && is_mixed(#[trigger] vs[k]),
            data == exists|k: int| 0 <= k < i && (#[trigger] vs[k]).fields@.len() > 0,
        decreases vs.len() - i,
    {
        if variant_is_mixed(&e.variants[i]) {
            mixed = true;
        }
        if e.variants[i].fields.len() > 0 {
            data = true;
        }
        i = i + 1;
    }
    if mixed {
        return Err(ErrorKind::InconsistentEnumRepresentation);
    }
    if data {
        return Ok(EnumPlan::Data);
    }
    // Discriminants, in order; a value past every width stops the scan.
    let mut values: Vec<i128> = Vec::new();
    let mut negative = false;
    let mut i: usize = 0;
    while i < e.variants.len()
        invariant
            i <= vs.len(),
            vs == e.variants@,
            values@.len() == i,
            forall|k: int| 0 <= k < i ==> #[trigger] values@[k] as int == discriminant(vs, k),
            negative == exists|k: int| 0 <= k < i && #[trigger] discriminant(vs, k) < 0,
            !has_mixed_variant(vs),
            !has_data_variant(vs),
            repr_recognized(e.repr),
        decreases vs.len() - i,
    {
        let v: i128 = match e.variants[i].discriminant {
            Some(d) => d,
            None => if i == 0 {
                0
            } else {
                let prev = values[i - 1];
                if prev == i128::MAX {
                    proof {
                        assert(discriminant(vs, i as int) > 0xffff_ffff_ffff_ffff);
                        assert(!all_fit(vs, plain_signed(e.repr, vs), storage_bits(e.repr, vs)));
                    }
                    return Err(ErrorKind::InconsistentEnumRepresentation);
                }
                prev + 1
            },
        };
        assert(v as int == discriminant(vs, i as int));
        if v < 0 {
            negative = true;
        }
        values.push(v);
        i = i + 1;
    }
    assert(negative == has_negative(vs));
    let (signed, bits): (bool, u32) = match e.repr {
        Repr::Int { signed, bits } => (signed, bits),
        Repr::PointerSized { signed } => (signed, 64),
        _ => {
            let (lo, hi) = int_bounds(negative, 32);
            let fits = values_within(&values, lo, hi);
            assert(fits == all_fit(vs, negative, 32)) by {
                if fits {
                    assert forall|k: int| 0 <= k < vs.len() implies lowest(negative, 32)
                        <= #[trigger] discriminant(vs, k) <= highest(negative, 32) by {
                        assert(values@[k] as int == discriminant(vs, k));
                    }
                } else {
                    let k = choose|k: int| 0 <= k < values@.len() && !(lo <= #[trigger] values@[k] <= hi);
                    assert(values@[k] as int == discriminant(vs, k));
                }
            }
            if fits {
                (negative, 32)
            } else {
                (negative, 64)
            }
        },
    };
    assert(signed == plain_signed(e.repr, vs) && bits == storage_bits(e.repr, vs));
    let (lo, hi) = int_bounds(signed, bits);
    let fits = values_within(&values, lo, hi);
    assert(fits == all_fit(vs, signed, bits)) by {
        if fits {
            assert forall|k: int| 0 <= k < vs.len() implies lowest(signed, bits)
                <= #[trigger] discriminant(vs, k) <= highest(signed, bits) by {
                assert(values@[k] as int == discriminant(vs, k));
            }
        } else {
            let k = choose|k: int| 0 <= k < values@.len() && !(lo <= #[trigger] values@[k] <= hi);
            assert(values@[k] as int == discriminant(vs, k));
        }
    }
    if !fits {
        return Err(ErrorKind::InconsistentEnumRepresentation);
    }
    Ok(EnumPlan::Plain { wide: bits == 64, signed, values })
}

} // verus!
