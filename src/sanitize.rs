//! Rewriting of source type names into identifiers that the type format accepts.
//!
//! Every byte that is an ASCII letter, digit or underscore is kept; every other
//! byte becomes `_XX_`, where `XX` is its value in upper-case hexadecimal.
use vstd::prelude::*;
use vstd::string::StringSliceAdditionalSpecFns;

verus! {

/// Relies on std's `String::push`: the character is appended at the end.
pub assume_specification[ String::push ](s: &mut String, ch: char)
    ensures
        final(s)@ == old(s)@.push(ch),
;

/// A byte that is copied unchanged: `[A-Za-z0-9_]`.
pub open spec fn is_word_byte(b: u8) -> bool {
    (0x30 <= b <= 0x39) || (0x41 <= b <= 0x5a) || (0x61 <= b <= 0x7a) || b == 0x5f
}

/// A character of the identifier alphabet `[A-Za-z0-9_]`.
pub open spec fn is_word_char(c: char) -> bool {
    ('0' <= c <= '9') || ('A' <= c <= 'Z') || ('a' <= c <= 'z') || c == '_'
}

/// An upper-case hexadecimal digit `[0-9A-F]`.
pub open spec fn is_hex_char(c: char) -> bool {
    ('0' <= c <= '9') || ('A' <= c <= 'F')
}

/// The upper-case hexadecimal digit of a value below 16.
pub open spec fn hex_digit(n: u8) -> char {
    if n < 10 {
        (0x30 + n) as char
    } else {
        (0x37 + n) as char
    }
}

/// The value of an upper-case hexadecimal digit.
pub open spec fn hex_value(c: char) -> u8 {
    if c <= '9' {
        (c as u32 - 0x30) as u8
    } else {
        (c as u32 - 0x37) as u8
    }
}

/// `_XX_` for the byte `b`.
pub open spec fn escape_of(b: u8) -> Seq<char> {
    seq!['_', hex_digit(b / 16), hex_digit(b % 16), '_']
}

/// What one input byte becomes.
pub open spec fn encode_byte(b: u8) -> Seq<char> {
    if is_word_byte(b) {
        seq![b as char]
    } else {
        escape_of(b)
    }
}

/// The sanitized form of a byte string: the encodings of its bytes, in order.
pub open spec fn sanitized(s: Seq<u8>) -> Seq<char>
    decreases s.len(),
{
    if s.len() == 0 {
        Seq::empty()
    } else {
        encode_byte(s[0]) + sanitized(s.drop_first())
    }
}

/// The byte that the group `_XY_` stands for.
pub open spec fn escaped_value(x: char, y: char) -> u8 {
    (hex_value(x) * 16 + hex_value(y)) as u8
}

/// `t` starts with an escape: `_`, two upper-case hexadecimal digits of a byte
/// that is never kept, and `_`.
pub open spec fn starts_with_escape(t: Seq<char>) -> bool {
    &&& t.len() >= 4
    &&& t[0] == '_'
    &&& is_hex_char(t[1])
    &&& is_hex_char(t[2])
    &&& t[3] == '_'
    &&& !is_word_byte(escaped_value(t[1], t[2]))
}

/// At `i`, `s` holds a kept `_` and two upper-case hexadecimal digits that
/// spell a byte that is never kept, and the next byte's encoding starts with
/// `_`: the output there reads like an escape.
pub open spec fn is_lookalike_at(s: Seq<u8>, i: int) -> bool {
    &&& s[i] == 0x5f
    &&& is_hex_char(s[i + 1] as char)
    &&& is_hex_char(s[i + 2] as char)
    &&& !is_word_byte(escaped_value(s[i + 1] as char, s[i + 2] as char))
    &&& (s[i + 3] == 0x5f || !is_word_byte(s[i + 3]))
}

/// Whether some place of `s` reads like an escape once sanitized. Exactly
/// these inputs share their sanitized form with another input: `_3C_` with
/// `<`, and `_3C<` with `<3C_`.
pub open spec fn has_escape_lookalike(s: Seq<u8>) -> bool {
    exists|i: int| 0 <= i && i + 3 < s.len() && #[trigger] is_lookalike_at(s, i)
}

/// Reads a sanitized string back: an escape is one byte, any other character
/// is a kept byte.
pub open spec fn unsanitized(t: Seq<char>) -> Seq<u8>
    decreases t.len(),
{
    if t.len() == 0 {
        Seq::empty()
    } else if starts_with_escape(t) {
        seq![escaped_value(t[1], t[2])] + unsanitized(t.subrange(4, t.len() as int))
    } else {
        seq![t[0] as u32 as u8] + unsanitized(t.drop_first())
    }
}

proof fn lemma_hex_digit(n: u8)
    requires
        n < 16,
    ensures
        is_hex_char(hex_digit(n)),
        is_word_char(hex_digit(n)),
        hex_value(hex_digit(n)) == n,
{
}

proof fn lemma_encode_byte_words(b: u8)
    ensures
        forall|k: int| 0 <= k < encode_byte(b).len() ==> is_word_char(#[trigger] encode_byte(b)[k]),
        encode_byte(b).len() >= 1,
        encode_byte(b)[0] == '_' <==> !is_word_byte(b) || b == 0x5f,
        is_hex_char(encode_byte(b)[0]) <==> is_word_byte(b) && is_hex_char(b as char),
{
    lemma_hex_digit(b / 16);
    lemma_hex_digit(b % 16);
}

proof fn lemma_sanitized_push(s: Seq<u8>, b: u8)
    ensures
        sanitized(s.push(b)) == sanitized(s) + encode_byte(b),
    decreases s.len(),
{
    if s.len() == 0 {
        assert(s.push(b).drop_first() =~= Seq::<u8>::empty());
        assert(s.push(b)[0] == b);
        assert(sanitized(s.push(b).drop_first()) =~= Seq::<char>::empty());
        assert(sanitized(s) =~= Seq::<char>::empty());
        assert(sanitized(s.push(b)) =~= sanitized(s) + encode_byte(b));
    } else {
        assert(s.push(b).drop_first() =~= s.drop_first().push(b));
        lemma_sanitized_push(s.drop_first(), b);
        assert(s.push(b)[0] == s[0]);
        assert(sanitized(s.push(b)) == encode_byte(s[0]) + sanitized(s.drop_first().push(b)));
        assert(sanitized(s.push(b)) =~= sanitized(s) + encode_byte(b));
    }
}

/// Every character of a sanitized string is in `[A-Za-z0-9_]`.
pub proof fn lemma_sanitized_is_identifier(s: Seq<u8>)
    ensures
        forall|k: int| 0 <= k < sanitized(s).len() ==> is_word_char(#[trigger] sanitized(s)[k]),
    decreases s.len(),
{
    if s.len() > 0 {
        lemma_sanitized_is_identifier(s.drop_first());
        lemma_encode_byte_words(s[0]);
        let e = encode_byte(s[0]);
        let r = sanitized(s.drop_first());
        assert forall|k: int| 0 <= k < sanitized(s).len() implies is_word_char(
            #[trigger] sanitized(s)[k],
        ) by {
            if k < e.len() {
                assert(sanitized(s)[k] == e[k]);
            } else {
                assert(sanitized(s)[k] == r[k - e.len()]);
            }
        }
    }
}

proof fn lemma_first_of_sanitized(s: Seq<u8>)
    requires
        s.len() > 0,
    ensures
        sanitized(s).len() >= 1,
        sanitized(s)[0] == encode_byte(s[0])[0],
        sanitized(s)[0] == '_' <==> !is_word_byte(s[0]) || s[0] == 0x5f,
        is_hex_char(sanitized(s)[0]) <==> is_word_byte(s[0]) && is_hex_char(s[0] as char),
{
    lemma_encode_byte_words(s[0]);
}

/// Reading a sanitized string back gives the input, for every input with no
/// place that reads like an escape.
pub proof fn lemma_unsanitize_sanitized(s: Seq<u8>)
    requires
        !has_escape_lookalike(s),
    ensures
        unsanitized(sanitized(s)) == s,
    decreases s.len(),
{
    if s.len() > 0 {
        let b = s[0];
        let rest = s.drop_first();
        let e = encode_byte(b);
        let r = sanitized(rest);
        let t = sanitized(s);
        assert(t == e + r);
        assert(!has_escape_lookalike(rest)) by {
            if has_escape_lookalike(rest) {
                let i = choose|i: int| 0 <= i && i + 3 < rest.len() && #[trigger] is_lookalike_at(rest, i);
                assert(is_lookalike_at(s, i + 1));
            }
        }
        lemma_unsanitize_sanitized(rest);
        lemma_hex_digit(b / 16);
        lemma_hex_digit(b % 16);
        if !is_word_byte(b) {
            assert(escaped_value(t[1], t[2]) == b);
            assert(starts_with_escape(t));
            assert(t.subrange(4, t.len() as int) =~= r);
            assert(unsanitized(t) =~= s);
        } else {
            assert(t.drop_first() =~= r);
            assert(t[0] == b as char);
            assert(t[0] as u32 as u8 == b);
            if b == 0x5f && starts_with_escape(t) {
                // The three characters after the kept `_` come from the next
                // three bytes, which would then read like an escape.
                assert(r.len() >= 3);
                lemma_first_of_sanitized(rest);
                let rest1 = rest.drop_first();
                let r1 = sanitized(rest1);
                assert(r == encode_byte(rest[0]) + r1);
                assert(r1.len() >= 2);
                assert(rest1.len() > 0);
                lemma_first_of_sanitized(rest1);
                let rest2 = rest1.drop_first();
                let r2 = sanitized(rest2);
                assert(r1 == encode_byte(rest1[0]) + r2);
                assert(r2.len() >= 1);
                assert(rest2.len() > 0);
                lemma_first_of_sanitized(rest2);
                assert(t[1] == rest[0] as char);
                assert(t[2] == rest1[0] as char);
                assert(t[3] == r2[0]);
                assert(s[1] == rest[0] && s[2] == rest1[0] && s[3] == rest2[0]);
                assert(is_lookalike_at(s, 0));
            }
            assert(!starts_with_escape(t));
            assert(unsanitized(t) =~= s);
        }
    }
}

/// Two different byte strings, neither with a place that reads like an
/// escape, never have the same sanitized form.
pub proof fn lemma_sanitized_injective(a: Seq<u8>, b: Seq<u8>)
    requires
        a != b,
        !has_escape_lookalike(a),
        !has_escape_lookalike(b),
    ensures
        sanitized(a) != sanitized(b),
{
    lemma_unsanitize_sanitized(a);
    lemma_unsanitize_sanitized(b);
}

proof fn lemma_sanitized_concat(a: Seq<u8>, b: Seq<u8>)
    ensures
        sanitized(a + b) == sanitized(a) + sanitized(b),
    decreases a.len(),
{
    if a.len() == 0 {
        assert(a + b =~= b);
        assert(sanitized(a) =~= Seq::<char>::empty());
        assert(sanitized(a) + sanitized(b) =~= sanitized(b));
    } else {
        assert((a + b).drop_first() =~= a.drop_first() + b);
        assert((a + b)[0] == a[0]);
        lemma_sanitized_concat(a.drop_first(), b);
        assert(sanitized(a + b) =~= sanitized(a) + sanitized(b));
    }
}

proof fn lemma_hex_round_trip(c: char)
    requires
        is_hex_char(c),
    ensures
        hex_value(c) < 16,
        hex_digit(hex_value(c)) == c,
{
}

proof fn lemma_sanitized_word_bytes(w: Seq<u8>)
    requires
        forall|k: int| 0 <= k < w.len() ==> is_word_byte(#[trigger] w[k]),
    ensures
        sanitized(w) == w.map_values(|b: u8| b as char),
    decreases w.len(),
{
    if w.len() > 0 {
        lemma_sanitized_word_bytes(w.drop_first());
        assert(sanitized(w) =~= w.map_values(|b: u8| b as char));
    }
}

/// Every input with a place that reads like an escape shares its sanitized
/// form with another input, so injectivity holds exactly off those inputs.
pub proof fn lemma_lookalike_collides(s: Seq<u8>) -> (other: Seq<u8>)
    requires
        has_escape_lookalike(s),
    ensures
        other != s,
        sanitized(other) == sanitized(s),
{
    let i = choose|i: int| 0 <= i && i + 3 < s.len() && #[trigger] is_lookalike_at(s, i);
    let x = s[i + 1] as char;
    let y = s[i + 2] as char;
    let v = escaped_value(x, y);
    lemma_hex_round_trip(x);
    lemma_hex_round_trip(y);
    assert(v / 16 == hex_value(x) && v % 16 == hex_value(y));
    assert(escape_of(v) == seq!['_', x, y, '_']);
    let prefix = s.subrange(0, i);
    let pair = s.subrange(i, i + 3);
    let tail = s.subrange(i + 3, s.len() as int);
    assert(s =~= prefix + (pair + tail));
    assert(pair[0] == 0x5f && pair[1] == s[i + 1] && pair[2] == s[i + 2]);
    assert(forall|k: int| 0 <= k < pair.len() ==> is_word_byte(#[trigger] pair[k])) by {
        assert(is_word_byte(pair[1]) && is_word_byte(pair[2]));
    }
    lemma_sanitized_word_bytes(pair);
    assert(sanitized(pair) =~= seq!['_', x, y]);
    lemma_sanitized_concat(prefix, pair + tail);
    lemma_sanitized_concat(pair, tail);
    let t0 = s[i + 3];
    let after = tail.drop_first();
    assert(tail =~= seq![t0] + after);
    lemma_sanitized_concat(seq![t0], after);
    assert(sanitized(seq![t0]) =~= encode_byte(t0)) by {
        assert(seq![t0].drop_first() =~= Seq::<u8>::empty());
        assert(sanitized(Seq::<u8>::empty()) =~= Seq::<char>::empty());
    }
    if t0 == 0x5f {
        // `_XY_` read as the escape of the byte it spells.
        let other = prefix + (seq![v] + after);
        assert(sanitized(seq![v]) =~= escape_of(v)) by {
            assert(seq![v].drop_first() =~= Seq::<u8>::empty());
            assert(sanitized(Seq::<u8>::empty()) =~= Seq::<char>::empty());
        }
        lemma_sanitized_concat(prefix, seq![v] + after);
        lemma_sanitized_concat(seq![v], after);
        assert(encode_byte(t0) =~= seq!['_']);
        assert(sanitized(other) =~= sanitized(s));
        assert(other.len() < s.len());
        other
    } else {
        // `_XY` and the `_` that opens the next escape read as the escape of
        // the byte `XY`, and the rest of that escape as kept bytes.
        lemma_hex_digit(t0 / 16);
        lemma_hex_digit(t0 % 16);
        let z = hex_digit(t0 / 16);
        let w = hex_digit(t0 % 16);
        let kept: Seq<u8> = seq![z as u32 as u8, w as u32 as u8, 0x5f];
        assert(forall|k: int| 0 <= k < kept.len() ==> is_word_byte(#[trigger] kept[k]));
        lemma_sanitized_word_bytes(kept);
        assert(sanitized(kept) =~= seq![z, w, '_']);
        let other = prefix + (seq![v] + (kept + after));
        assert(sanitized(seq![v]) =~= escape_of(v)) by {
            assert(seq![v].drop_first() =~= Seq::<u8>::empty());
            assert(sanitized(Seq::<u8>::empty()) =~= Seq::<char>::empty());
        }
        lemma_sanitized_concat(prefix, seq![v] + (kept + after));
        lemma_sanitized_concat(seq![v], kept + after);
        lemma_sanitized_concat(kept, after);
        assert(encode_byte(t0) =~= seq!['_', z, w, '_']);
        assert(sanitized(other) =~= sanitized(s));
        assert(other[i] == v && s[i] == 0x5f);
        other
    }
}

fn hex_digit_exec(n: u8) -> (c: char)
    requires
        n < 16,
    ensures
        c == hex_digit(n),
{
    if n < 10 {
        (0x30 + n) as char
    } else {
        (0x37 + n) as char
    }
}

/// Sanitizes a byte string: word bytes are kept, every other byte is escaped
/// as `_XX_`.
pub fn sanitize_bytes(bytes: &[u8]) -> (r: String)
    ensures
        r@ == sanitized(bytes@),
        forall|k: int| 0 <= k < r@.len() ==> is_word_char(#[trigger] r@[k]),
{
    let mut out = String::new();
    let mut i: usize = 0;
    while i < bytes.len()
        invariant
            i <= bytes@.len(),
            out@ == sanitized(bytes@.subrange(0, i as int)),
        decreases bytes@.len() - i,
    {
        let b = bytes[i];
        if (0x30 <= b && b <= 0x39) || (0x41 <= b && b <= 0x5a) || (0x61 <= b && b <= 0x7a) || b
            == 0x5f {
            out.push(b as char);
        } else {
            out.push('_');
            out.push(hex_digit_exec(b / 16));
            out.push(hex_digit_exec(b % 16));
            out.push('_');
        }
        proof {
            assert(bytes@.subrange(0, i + 1) =~= bytes@.subrange(0, i as int).push(b));
            lemma_sanitized_push(bytes@.subrange(0, i as int), b);
            assert(out@ =~= sanitized(bytes@.subrange(0, i + 1)));
        }
        i = i + 1;
    }
    proof {
        assert(bytes@.subrange(0, i as int) =~= bytes@);
        lemma_sanitized_is_identifier(bytes@);
    }
    out
}

/// Sanitizes a display name, escaping each byte of its UTF-8 encoding that is
/// not an ASCII letter, digit or underscore.
pub fn sanitize(name: &str) -> (r: String)
    ensures
        r@ == sanitized(name.spec_bytes()),
        forall|k: int| 0 <= k < r@.len() ==> is_word_char(#[trigger] r@[k]),
{
    sanitize_bytes(name.as_bytes())
}

} // verus!
