use bpf_linker::sanitize::{sanitize, sanitize_bytes};

#[test]
fn escape_table() {
    assert_eq!(sanitize("<"), "_3C_");
    assert_eq!(sanitize(">"), "_3E_");
    assert_eq!(sanitize(" "), "_20_");
    assert_eq!(sanitize(","), "_2C_");
    assert_eq!(sanitize("::"), "_3A__3A_");
    assert_eq!(sanitize("("), "_28_");
    assert_eq!(sanitize(")"), "_29_");
    assert_eq!(sanitize("["), "_5B_");
    assert_eq!(sanitize("]"), "_5D_");
    assert_eq!(sanitize(";"), "_3B_");
}

#[test]
fn word_characters_are_kept() {
    assert_eq!(sanitize("abc_XYZ_019"), "abc_XYZ_019");
    assert_eq!(sanitize(""), "");
}

#[test]
fn qualified_generic_names() {
    assert_eq!(sanitize("pkg::Bar<u8>"), "pkg_3A__3A_Bar_3C_u8_3E_");
    assert_eq!(sanitize("Bar<u8>"), "Bar_3C_u8_3E_");
    assert_eq!(sanitize("Bar<u32>"), "Bar_3C_u32_3E_");
    assert_eq!(sanitize("Bar<[u8; 64]>"), "Bar_3C__5B_u8_3B__20_64_5D__3E_");
    assert_eq!(
        sanitize("Bar<([u8; 2], (u8, usize))>"),
        "Bar_3C__28__5B_u8_3B__20_2_5D__2C__20__28_u8_2C__20_usize_29__29__3E_"
    );
    assert_eq!(
        sanitize("([u8; 2], (u8, usize))"),
        "_28__5B_u8_3B__20_2_5D__2C__20__28_u8_2C__20_usize_29__29_"
    );
}

#[test]
fn non_ascii_is_escaped_per_byte() {
    assert_eq!(sanitize("é"), "_C3__A9_");
    assert_eq!(sanitize_bytes(&[0xff, b'a', 0x00]), "_FF_a_00_");
}

#[test]
fn output_is_an_identifier() {
    let inputs = ["a b", "x::y<z, w>", "~!@#$%^&*()", "\t\n", "ü€"];
    for input in inputs {
        let out = sanitize(input);
        assert!(out.chars().all(|c| c.is_ascii_alphanumeric() || c == '_'), "{out}");
    }
    let all: Vec<u8> = (0..=255u8).collect();
    let out = sanitize_bytes(&all);
    assert!(out.chars().all(|c| c.is_ascii_alphanumeric() || c == '_'));
}

#[test]
fn distinct_printable_names_stay_distinct() {
    assert_ne!(sanitize("a<b"), sanitize("a>b"));
    assert_ne!(sanitize("Bar<u8>"), sanitize("Bar<u32>"));
    assert_ne!(sanitize("a b"), sanitize("a,b"));
    assert_ne!(sanitize("a_b"), sanitize("a b"));
}

#[test]
fn kept_underscore_hex_can_match_an_escape() {
    // A literal `_3C_` reads the same as the escape of `<`.
    assert_eq!(sanitize("_3C_"), sanitize("<"));
}

#[test]
fn lookalike_before_an_escape_collides() {
    assert_eq!(sanitize("_3C<"), sanitize("<3C_"));
    assert_eq!(sanitize("_3C<"), "_3C_3C_");
}

#[test]
fn lookalike_of_a_kept_byte_does_not_collide() {
    // `_41_` spells `A`, which is kept rather than escaped.
    assert_eq!(sanitize("_41_"), "_41_");
    assert_ne!(sanitize("_41_"), sanitize("A"));
    assert_ne!(sanitize("_3Cx"), sanitize("<x"));
}
