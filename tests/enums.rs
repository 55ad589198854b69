use bpf_linker::enums::{classify, EnumPlan};
use bpf_linker::error::ErrorKind;
use bpf_linker::meta::{EnumNode, Field, Repr, Variant};

fn unit(name: &str, discriminant: Option<i128>) -> Variant {
    Variant { name: name.to_string(), discriminant, fields: vec![], size_bits: 0 }
}

fn enum_of(repr: Repr, variants: Vec<Variant>) -> EnumNode {
    EnumNode {
        name: "E".to_string(),
        scope: None,
        generic_args: vec![],
        repr,
        variants,
        size_bits: 32,
    }
}

fn plain(r: Result<EnumPlan, ErrorKind>) -> (bool, bool, Vec<i128>) {
    match r {
        Ok(EnumPlan::Plain { wide, signed, values }) => (wide, signed, values),
        other => panic!("not a plain enumeration: {other:?}"),
    }
}

#[test]
fn fieldless_without_repr_is_32_bit_unsigned() {
    let e = enum_of(Repr::Unspecified, vec![unit("A", None), unit("B", None), unit("C", None)]);
    assert_eq!(plain(classify(&e)), (false, false, vec![0, 1, 2]));
    let e = enum_of(Repr::C, vec![unit("A", None), unit("B", None), unit("C", None)]);
    assert_eq!(plain(classify(&e)), (false, false, vec![0, 1, 2]));
}

#[test]
fn repr_i64_with_negative_start() {
    let e = enum_of(
        Repr::Int { signed: true, bits: 64 },
        vec![unit("X", Some(-42)), unit("Y", None), unit("Z", None)],
    );
    assert_eq!(plain(classify(&e)), (true, true, vec![-42, -41, -40]));
}

#[test]
fn narrow_reprs_give_32_bit_records() {
    let e = enum_of(Repr::Int { signed: false, bits: 8 }, vec![unit("X", None), unit("Y", None), unit("Z", None)]);
    assert_eq!(plain(classify(&e)), (false, false, vec![0, 1, 2]));
    let e = enum_of(Repr::Int { signed: true, bits: 16 }, vec![unit("X", None), unit("Y", None), unit("Z", None)]);
    assert_eq!(plain(classify(&e)), (false, true, vec![0, 1, 2]));
    let e = enum_of(
        Repr::Int { signed: true, bits: 32 },
        vec![unit("X", Some(-42)), unit("Y", None), unit("Z", None)],
    );
    assert_eq!(plain(classify(&e)), (false, true, vec![-42, -41, -40]));
}

#[test]
fn pointer_sized_reprs_are_64_bit() {
    let e = enum_of(Repr::PointerSized { signed: true }, vec![unit("X", Some(-42)), unit("Y", None), unit("Z", None)]);
    assert_eq!(plain(classify(&e)), (true, true, vec![-42, -41, -40]));
    let e = enum_of(Repr::PointerSized { signed: false }, vec![unit("X", None)]);
    assert_eq!(plain(classify(&e)), (true, false, vec![0]));
}

#[test]
fn unspecified_repr_follows_the_values() {
    let e = enum_of(Repr::Unspecified, vec![unit("X", Some(-1)), unit("Y", None)]);
    assert_eq!(plain(classify(&e)), (false, true, vec![-1, 0]));
    let e = enum_of(Repr::Unspecified, vec![unit("X", Some(0x1_0000_0000)), unit("Y", None)]);
    assert_eq!(plain(classify(&e)), (true, false, vec![0x1_0000_0000, 0x1_0000_0001]));
    let e = enum_of(Repr::Unspecified, vec![unit("X", Some(5)), unit("Y", None), unit("Z", Some(2)), unit("W", None)]);
    assert_eq!(plain(classify(&e)), (false, false, vec![5, 6, 2, 3]));
}

#[test]
fn data_variant_makes_a_data_enum() {
    let e = enum_of(
        Repr::C,
        vec![
            unit("A", None),
            Variant {
                name: "B".to_string(),
                discriminant: None,
                fields: vec![
                    Field { name: "__0".to_string(), positional: true, ty: 0, offset_bits: 0 },
                    Field { name: "__1".to_string(), positional: true, ty: 0, offset_bits: 8 },
                ],
                size_bits: 16,
            },
        ],
    );
    assert!(matches!(classify(&e), Ok(EnumPlan::Data)));
}

#[test]
fn mixed_fields_are_rejected() {
    let e = enum_of(
        Repr::C,
        vec![Variant {
            name: "B".to_string(),
            discriminant: None,
            fields: vec![
                Field { name: "__0".to_string(), positional: true, ty: 0, offset_bits: 0 },
                Field { name: "x".to_string(), positional: false, ty: 0, offset_bits: 8 },
            ],
            size_bits: 16,
        }],
    );
    assert!(matches!(classify(&e), Err(ErrorKind::InconsistentEnumRepresentation)));
}

#[test]
fn unknown_width_is_rejected() {
    let e = enum_of(Repr::Int { signed: false, bits: 128 }, vec![unit("X", None)]);
    assert!(matches!(classify(&e), Err(ErrorKind::InconsistentEnumRepresentation)));
}

#[test]
fn values_outside_the_repr_are_rejected() {
    let e = enum_of(Repr::Int { signed: false, bits: 8 }, vec![unit("X", Some(255)), unit("Y", None)]);
    assert!(matches!(classify(&e), Err(ErrorKind::InconsistentEnumRepresentation)));
    let e = enum_of(Repr::Int { signed: false, bits: 32 }, vec![unit("X", Some(-1))]);
    assert!(matches!(classify(&e), Err(ErrorKind::InconsistentEnumRepresentation)));
    let e = enum_of(Repr::Unspecified, vec![unit("X", Some(i128::MAX)), unit("Y", None)]);
    assert!(matches!(classify(&e), Err(ErrorKind::InconsistentEnumRepresentation)));
}
