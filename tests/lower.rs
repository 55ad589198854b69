use bpf_linker::btf::{BtfType, IdentityKey};
use bpf_linker::error::ErrorKind;
use bpf_linker::lower::{convert, Conversion, Lowerer};
use bpf_linker::meta::{
    CompositeKind, CompositeNode, Encoding, EnumNode, Field, Member, MetaGraph, MetaNode, Repr, Variant,
};

fn basic(name: &str, bits: u32, encoding: Encoding) -> MetaNode {
    MetaNode::Basic { name: name.to_string(), bit_size: bits, encoding }
}

fn namespace(name: &str, parent: Option<usize>) -> MetaNode {
    MetaNode::Namespace { name: name.to_string(), parent }
}

fn member(name: &str, ty: usize, offset_bits: u64) -> Member {
    Member { name: name.to_string(), ty, offset_bits }
}

fn structure(name: &str, scope: Option<usize>, args: Vec<usize>, members: Vec<Member>, size_bits: u64) -> MetaNode {
    MetaNode::Composite(CompositeNode {
        kind: CompositeKind::Struct,
        name: name.to_string(),
        scope,
        generic_args: args,
        members,
        size_bits,
    })
}

fn run(nodes: Vec<MetaNode>, roots: Vec<usize>) -> Conversion {
    convert(&MetaGraph { nodes }, &roots, 64).expect("conversion succeeds")
}

fn error_of(nodes: Vec<MetaNode>, roots: Vec<usize>, depth: usize) -> ErrorKind {
    match convert(&MetaGraph { nodes }, &roots, depth) {
        Err(e) => e.kind,
        Ok(_) => panic!("conversion was expected to fail"),
    }
}

fn struct_name(c: &Conversion, h: usize) -> String {
    match c.table.get(h) {
        BtfType::Struct { name, .. } => name.clone(),
        other => panic!("not a struct: {other:?}"),
    }
}

#[test]
fn nested_array_of_u8() {
    // [[u8; 3]; 2]
    let nodes = vec![
        basic("u8", 8, Encoding::Unsigned),
        MetaNode::Array { element: 0, count: 3 },
        MetaNode::Array { element: 1, count: 2 },
    ];
    let c = run(nodes, vec![2]);
    assert_eq!(c.table.count(), 3);
    let outer = c.handles[0];
    let BtfType::Array { element: inner, count: 2 } = *c.table.get(outer) else { panic!("outer array") };
    let BtfType::Array { element: byte, count: 3 } = *c.table.get(inner) else { panic!("inner array") };
    match c.table.get(byte) {
        BtfType::Int { name, bits: 8, encoding: Encoding::Unsigned } => assert_eq!(name, "u8"),
        other => panic!("not u8: {other:?}"),
    }
    assert!(byte < inner && inner < outer);
}

#[test]
fn function_with_slice_and_option() {
    // fn f(&mut [i8], Option<u32>)
    let nodes = vec![
        basic("i8", 8, Encoding::Signed),       // 0
        MetaNode::Array { element: 0, count: 0 }, // 1
        MetaNode::Pointer { pointee: 1 },        // 2
        basic("u32", 32, Encoding::Unsigned),    // 3
        namespace("core", None),                 // 4
        namespace("option", Some(4)),            // 5
        MetaNode::Enum(EnumNode {                // 6
            name: "Option<u32>".to_string(),
            scope: Some(5),
            generic_args: vec![3],
            repr: Repr::Unspecified,
            variants: vec![
                Variant { name: "None".to_string(), discriminant: None, fields: vec![], size_bits: 0 },
                Variant {
                    name: "Some".to_string(),
                    discriminant: None,
                    fields: vec![Field { name: "__0".to_string(), positional: true, ty: 3, offset_bits: 0 }],
                    size_bits: 32,
                },
            ],
            size_bits: 64,
        }),
        MetaNode::Subroutine { ret: None, params: vec![2, 6], is_pointer: false }, // 7
    ];
    let c = run(nodes, vec![7]);
    let BtfType::FuncProto { ret: None, params } = c.table.get(c.handles[0]) else { panic!("proto") };
    assert_eq!(params.len(), 2);
    let BtfType::Pointer { target: arr } = *c.table.get(params[0]) else { panic!("pointer") };
    let BtfType::Array { element, .. } = *c.table.get(arr) else { panic!("array") };
    assert!(matches!(c.table.get(element), BtfType::Int { bits: 8, encoding: Encoding::Signed, .. }));
    let BtfType::Struct { scope: Some(option), .. } = c.table.get(params[1]) else { panic!("option struct") };
    let BtfType::Namespace { name, parent: Some(core) } = c.table.get(*option) else { panic!("option ns") };
    assert_eq!(name, "option");
    let BtfType::Namespace { name, parent: None } = c.table.get(*core) else { panic!("core ns") };
    assert_eq!(name, "core");
    assert_eq!(c.node_handles[2], Some(params[0]));
    assert_eq!(c.node_handles[6], Some(params[1]));
}

#[test]
fn same_instantiation_from_two_places() {
    // A global of type Bar<u8> and a function taking Bar<u8>, described by two nodes.
    let nodes = vec![
        basic("u8", 8, Encoding::Unsigned),                                           // 0
        namespace("module", None),                                                    // 1
        structure("Bar<u8>", Some(1), vec![0], vec![member("x", 0, 0)], 8),           // 2
        structure("Bar<u8>", Some(1), vec![0], vec![member("x", 0, 0)], 8),           // 3
        MetaNode::Subroutine { ret: None, params: vec![3], is_pointer: false },       // 4
    ];
    let c = run(nodes, vec![2, 4, 2]);
    let BtfType::FuncProto { params, .. } = c.table.get(c.handles[1]) else { panic!("proto") };
    assert_eq!(params[0], c.handles[0]);
    assert_eq!(c.handles[2], c.handles[0]);
    let named: Vec<usize> = (0..c.table.count())
        .filter(|&i| matches!(c.table.get(i), BtfType::Struct { name, .. } if name == "Bar_3C_u8_3E_"))
        .collect();
    assert_eq!(named, vec![c.handles[0]]);
}

#[test]
fn lowering_a_node_twice_emits_nothing_more() {
    let g = MetaGraph {
        nodes: vec![
            basic("u8", 8, Encoding::Unsigned),
            structure("Bar<u8>", None, vec![0], vec![member("x", 0, 0)], 8),
        ],
    };
    let mut lw = Lowerer::new(2);
    let first = lw.lower(&g, 1, 16).unwrap();
    let second = lw.lower(&g, 1, 16).unwrap();
    assert_eq!(first, second);
    let (table, memo) = lw.finish();
    assert_eq!(table.count(), 2);
    assert_eq!(memo, vec![Some(0), Some(1)]);
}

#[test]
fn distinct_instantiations() {
    let nodes = vec![
        basic("u8", 8, Encoding::Unsigned),                               // 0
        basic("u32", 32, Encoding::Unsigned),                             // 1
        structure("Bar<u8>", None, vec![0], vec![member("x", 0, 0)], 8),  // 2
        structure("Bar<u32>", None, vec![1], vec![member("x", 1, 0)], 32), // 3
    ];
    let c = run(nodes, vec![2, 3]);
    assert_ne!(c.handles[0], c.handles[1]);
    assert_eq!(struct_name(&c, c.handles[0]), "Bar_3C_u8_3E_");
    assert_eq!(struct_name(&c, c.handles[1]), "Bar_3C_u32_3E_");
    match c.table.key(c.handles[0]) {
        IdentityKey::Named { name, args, .. } => {
            assert_eq!(name, "Bar<u8>");
            assert_eq!(args.len(), 1);
        },
        other => panic!("not a named key: {other:?}"),
    }
}

#[test]
fn plain_enum_record() {
    let nodes = vec![MetaNode::Enum(EnumNode {
        name: "E3".to_string(),
        scope: None,
        generic_args: vec![],
        repr: Repr::C,
        variants: ["A", "B", "C"]
            .iter()
            .map(|n| Variant { name: n.to_string(), discriminant: None, fields: vec![], size_bits: 0 })
            .collect(),
        size_bits: 32,
    })];
    let c = run(nodes, vec![0]);
    match c.table.get(c.handles[0]) {
        BtfType::Enum { name, wide: false, signed: false, entries, .. } => {
            assert_eq!(name, "E3");
            let got: Vec<(String, i128)> = entries.iter().map(|e| (e.name.clone(), e.value)).collect();
            assert_eq!(got, vec![("A".to_string(), 0), ("B".to_string(), 1), ("C".to_string(), 2)]);
        },
        other => panic!("not an enumeration: {other:?}"),
    }
}

#[test]
fn wide_signed_enum_record() {
    let nodes = vec![MetaNode::Enum(EnumNode {
        name: "E7".to_string(),
        scope: None,
        generic_args: vec![],
        repr: Repr::Int { signed: true, bits: 64 },
        variants: vec![
            Variant { name: "X".to_string(), discriminant: Some(-42), fields: vec![], size_bits: 0 },
            Variant { name: "Y".to_string(), discriminant: None, fields: vec![], size_bits: 0 },
            Variant { name: "Z".to_string(), discriminant: None, fields: vec![], size_bits: 0 },
        ],
        size_bits: 64,
    })];
    let c = run(nodes, vec![0]);
    match c.table.get(c.handles[0]) {
        BtfType::Enum { wide: true, signed: true, entries, .. } => {
            let got: Vec<i128> = entries.iter().map(|e| e.value).collect();
            assert_eq!(got, vec![-42, -41, -40]);
        },
        other => panic!("not a 64-bit enumeration: {other:?}"),
    }
}

#[test]
fn data_enum_becomes_anonymous_struct() {
    // enum E1<i8, u8> { A, B(i8, i8, u8), C { x: i8, y: u8 } }
    let pos = |name: &str, ty: usize, off: u64| Field { name: name.to_string(), positional: true, ty, offset_bits: off };
    let named = |name: &str, ty: usize, off: u64| Field { name: name.to_string(), positional: false, ty, offset_bits: off };
    let nodes = vec![
        basic("i8", 8, Encoding::Signed),   // 0
        basic("u8", 8, Encoding::Unsigned), // 1
        MetaNode::Enum(EnumNode {
            name: "E1<i8, u8>".to_string(),
            scope: None,
            generic_args: vec![0, 1],
            repr: Repr::C,
            variants: vec![
                Variant { name: "A".to_string(), discriminant: None, fields: vec![], size_bits: 0 },
                Variant {
                    name: "B".to_string(),
                    discriminant: None,
                    fields: vec![pos("__0", 0, 0), pos("__1", 0, 8), pos("__2", 1, 16)],
                    size_bits: 24,
                },
                Variant {
                    name: "C".to_string(),
                    discriminant: None,
                    fields: vec![named("x", 0, 0), named("y", 1, 8)],
                    size_bits: 16,
                },
            ],
            size_bits: 64,
        }),
    ];
    let c = run(nodes, vec![2]);
    let h = c.handles[0];
    let BtfType::Struct { name, is_union: false, members, .. } = c.table.get(h) else { panic!("struct") };
    assert_eq!(name, "");
    assert_eq!(members.len(), 2);
    assert_eq!(members[0].name, "tag");
    assert_eq!(members[1].name, "payload");
    assert_eq!(members[1].offset_bits, 32);
    assert!(matches!(c.table.get(members[0].ty), BtfType::Int { bits: 32, encoding: Encoding::Unsigned, .. }));
    let BtfType::Struct { is_union: true, size_bits: 24, members: variants, .. } = c.table.get(members[1].ty) else {
        panic!("payload union")
    };
    let names: Vec<&str> = variants.iter().map(|m| m.name.as_str()).collect();
    assert_eq!(names, vec!["A", "B", "C"]);
    let BtfType::Struct { members: b_fields, .. } = c.table.get(variants[1].ty) else { panic!("variant B") };
    assert_eq!(b_fields.len(), 3);
    assert!(!(0..c.table.count()).any(|i| matches!(c.table.get(i), BtfType::Enum { .. })));
}

#[test]
fn self_referential_generic_struct() {
    // struct Node<u8> { value: u8, next: *const Node<u8> }
    let nodes = vec![
        basic("u8", 8, Encoding::Unsigned),                                                         // 0
        structure("Node<u8>", None, vec![0], vec![member("value", 0, 0), member("next", 2, 64)], 128), // 1
        MetaNode::Pointer { pointee: 1 },                                                           // 2
    ];
    let c = run(nodes, vec![1, 2]);
    let h = c.handles[0];
    let BtfType::Struct { members, .. } = c.table.get(h) else { panic!("struct") };
    assert_eq!(members.len(), 2);
    let BtfType::Pointer { target } = *c.table.get(members[1].ty) else { panic!("pointer") };
    assert_eq!(target, h);
    assert_eq!(c.handles[1], members[1].ty);
    let count = (0..c.table.count())
        .filter(|&i| matches!(c.table.get(i), BtfType::Struct { name, .. } if name == "Node_3C_u8_3E_"))
        .count();
    assert_eq!(count, 1);
}

#[test]
fn mutually_recursive_through_two_nodes_of_one_type() {
    // Two nodes describe List<u8>; the pointer inside refers to the second one.
    let nodes = vec![
        basic("u8", 8, Encoding::Unsigned),                                                        // 0
        structure("List<u8>", None, vec![0], vec![member("v", 0, 0), member("next", 3, 64)], 128), // 1
        structure("List<u8>", None, vec![0], vec![member("v", 0, 0), member("next", 3, 64)], 128), // 2
        MetaNode::Pointer { pointee: 2 },                                                          // 3
    ];
    let c = run(nodes, vec![1, 2]);
    assert_eq!(c.handles[0], c.handles[1]);
    assert_eq!(c.table.count(), 3);
}

#[test]
fn unsupported_node_fails() {
    let nodes = vec![MetaNode::Unsupported, MetaNode::Pointer { pointee: 0 }];
    assert_eq!(error_of(nodes, vec![1], 64), ErrorKind::UnsupportedNodeKind);
}

#[test]
fn pointer_cycle_without_struct_hits_the_depth_guard() {
    let nodes = vec![MetaNode::Pointer { pointee: 1 }, MetaNode::Pointer { pointee: 0 }];
    assert_eq!(error_of(nodes, vec![0], 64), ErrorKind::UnboundedRecursionDepth);
}

#[test]
fn depth_guard() {
    let nodes = vec![
        basic("u8", 8, Encoding::Unsigned),
        MetaNode::Pointer { pointee: 0 },
        MetaNode::Pointer { pointee: 1 },
        MetaNode::Pointer { pointee: 2 },
    ];
    assert_eq!(error_of(nodes.clone(), vec![3], 3), ErrorKind::UnboundedRecursionDepth);
    let c = convert(&MetaGraph { nodes }, &vec![3], 4).unwrap();
    assert_eq!(c.table.count(), 4);
}

#[test]
fn colliding_sanitized_names_fail() {
    let nodes = vec![
        basic("u8", 8, Encoding::Unsigned),
        structure("Bar<u8>", None, vec![], vec![member("x", 0, 0)], 8),
        structure("Bar_3C_u8_3E_", None, vec![], vec![member("x", 0, 0)], 8),
    ];
    assert_eq!(error_of(nodes, vec![1, 2], 64), ErrorKind::NameCollisionInvariantViolation);
}

#[test]
fn enum_errors_stop_the_pass() {
    let nodes = vec![MetaNode::Enum(EnumNode {
        name: "E".to_string(),
        scope: None,
        generic_args: vec![],
        repr: Repr::Int { signed: false, bits: 128 },
        variants: vec![Variant { name: "X".to_string(), discriminant: None, fields: vec![], size_bits: 0 }],
        size_bits: 128,
    })];
    assert_eq!(error_of(nodes, vec![0], 64), ErrorKind::InconsistentEnumRepresentation);
}

#[test]
fn function_pointer_wraps_the_prototype() {
    let nodes = vec![
        basic("u32", 32, Encoding::Unsigned),
        MetaNode::Subroutine { ret: Some(0), params: vec![0, 0], is_pointer: true },
        MetaNode::Subroutine { ret: Some(0), params: vec![0, 0], is_pointer: false },
    ];
    let c = run(nodes, vec![1, 2]);
    let BtfType::Pointer { target } = *c.table.get(c.handles[0]) else { panic!("pointer") };
    assert_eq!(target, c.handles[1]);
    let BtfType::FuncProto { ret: Some(r), params } = c.table.get(target) else { panic!("proto") };
    assert_eq!(params, &vec![*r, *r]);
}

#[test]
fn basic_types_are_shared() {
    let nodes = vec![
        basic("u8", 8, Encoding::Unsigned),
        basic("u8", 8, Encoding::Unsigned),
        basic("bool", 8, Encoding::Boolean),
        basic("()", 0, Encoding::Unsigned),
    ];
    let c = run(nodes, vec![0, 1, 2, 3]);
    assert_eq!(c.handles[0], c.handles[1]);
    assert_ne!(c.handles[0], c.handles[2]);
    assert_eq!(c.table.count(), 3);
    match c.table.get(c.handles[3]) {
        BtfType::Int { name, .. } => assert_eq!(name, "_28__29_"),
        other => panic!("{other:?}"),
    }
}

#[test]
fn graph_well_formedness() {
    let good = MetaGraph {
        nodes: vec![basic("u8", 8, Encoding::Unsigned), MetaNode::Pointer { pointee: 0 }],
    };
    assert!(good.is_well_formed());
    let dangling = MetaGraph { nodes: vec![MetaNode::Pointer { pointee: 5 }] };
    assert!(!dangling.is_well_formed());
    let bad_member = MetaGraph {
        nodes: vec![structure("S", None, vec![], vec![member("x", 1, 0)], 8)],
    };
    assert!(!bad_member.is_well_formed());
    let bad_field = MetaGraph {
        nodes: vec![MetaNode::Enum(EnumNode {
            name: "E".to_string(),
            scope: None,
            generic_args: vec![],
            repr: Repr::C,
            variants: vec![Variant {
                name: "A".to_string(),
                discriminant: None,
                fields: vec![Field { name: "__0".to_string(), positional: true, ty: 3, offset_bits: 0 }],
                size_bits: 8,
            }],
            size_bits: 32,
        })],
    };
    assert!(!bad_field.is_well_formed());
}

#[test]
fn same_enum_key_with_other_shape_fails() {
    let u8_ty = basic("u8", 8, Encoding::Unsigned);
    let plain = MetaNode::Enum(EnumNode {
        name: "E".to_string(),
        scope: None,
        generic_args: vec![],
        repr: Repr::C,
        variants: vec![Variant { name: "A".to_string(), discriminant: None, fields: vec![], size_bits: 0 }],
        size_bits: 32,
    });
    let data = MetaNode::Enum(EnumNode {
        name: "E".to_string(),
        scope: None,
        generic_args: vec![],
        repr: Repr::C,
        variants: vec![Variant {
            name: "A".to_string(),
            discriminant: None,
            fields: vec![Field { name: "__0".to_string(), positional: true, ty: 0, offset_bits: 0 }],
            size_bits: 8,
        }],
        size_bits: 64,
    });
    assert_eq!(
        error_of(vec![u8_ty.clone(), plain.clone(), data.clone()], vec![1, 2], 64),
        ErrorKind::NameCollisionInvariantViolation
    );
    // The same description twice is one record.
    let c = run(vec![u8_ty, data.clone(), data], vec![1, 2]);
    assert_eq!(c.handles[0], c.handles[1]);
}

#[test]
fn self_referential_struct_entered_at_its_pointer() {
    // struct S<u8> { v: u8, next: *const S<u8> }, lowered from the pointer alone.
    let nodes = vec![
        basic("u8", 8, Encoding::Unsigned),                                                    // 0
        structure("S<u8>", None, vec![0], vec![member("v", 0, 0), member("next", 2, 64)], 128), // 1
        MetaNode::Pointer { pointee: 1 },                                                      // 2
    ];
    let c = run(nodes, vec![2]);
    let BtfType::Pointer { target } = *c.table.get(c.handles[0]) else { panic!("pointer") };
    let BtfType::Struct { name, members, .. } = c.table.get(target) else { panic!("struct") };
    assert_eq!(name, "S_3C_u8_3E_");
    assert_eq!(members[1].ty, c.handles[0]);
    assert_eq!(c.node_handles[1], Some(target));
    assert_eq!(c.table.count(), 3);
}

#[test]
fn double_pointer_cycle_entered_at_the_outer_pointer() {
    // struct S { next: *const *const S }, lowered from the outer pointer.
    let nodes = vec![
        structure("S", None, vec![], vec![member("next", 1, 0)], 64), // 0
        MetaNode::Pointer { pointee: 2 },                            // 1
        MetaNode::Pointer { pointee: 0 },                            // 2
    ];
    let c = run(nodes, vec![1]);
    assert_eq!(c.table.count(), 3);
    assert_eq!(c.node_handles[1], Some(c.handles[0]));
}

#[test]
fn struct_in_its_own_generic_argument_fails() {
    // C<D> where D holds a pointer to C<D>: C is reached again before it has a stub.
    let nodes = vec![
        structure("C<D>", None, vec![1], vec![], 64),               // 0
        structure("D", None, vec![], vec![member("c", 2, 0)], 64),  // 1
        MetaNode::Pointer { pointee: 0 },                           // 2
    ];
    assert_eq!(error_of(nodes, vec![0], 64), ErrorKind::UnsupportedNodeKind);
}

#[test]
fn same_name_in_two_namespaces() {
    let nodes = vec![
        basic("u8", 8, Encoding::Unsigned),                              // 0
        namespace("a", None),                                            // 1
        namespace("b", None),                                            // 2
        structure("Foo", Some(1), vec![], vec![member("x", 0, 0)], 8),   // 3
        structure("Foo", Some(2), vec![], vec![member("y", 0, 0)], 8),   // 4
    ];
    let c = run(nodes, vec![3, 4]);
    assert_ne!(c.handles[0], c.handles[1]);
    assert_eq!(struct_name(&c, c.handles[0]), "Foo");
    assert_eq!(struct_name(&c, c.handles[1]), "Foo");
}
