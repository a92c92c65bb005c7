//! Typed scan patterns: the explicit byte representation of every pattern kind,
//! validation of a scan specification, and compilation into search patterns.

use vstd::prelude::*;
use vstd::utf8::encode_utf8;

use crate::error::{Error, Result};
use crate::text::{debug_quoted, str_chars};

verus! {

pub const SCAN_SPEC_SCHEMA: u32 = 2;
pub const MAX_PATTERNS: usize = 64;
pub const MAX_PATTERN_BYTES: usize = 4096;
pub const HARD_MAX_MATCHES: usize = 1_000_000;

/// The match quota a specification gets when it names none.
pub fn default_max_matches() -> (res: usize)
    ensures
        res == 100_000,
{
    100_000
}

/// The alignment a pattern gets when it names none.
pub fn default_alignment() -> (res: u64)
    ensures
        res == 1,
{
    1
}

#[derive(Debug, Clone, Copy, PartialEq, Eq)]
pub enum Endianness {
    Little,
    Big,
}

/// The outcome of reading a float pattern's number as the binary floating-point
/// value of the pattern's width.
#[derive(Debug, Clone, PartialEq, Eq)]
pub enum ParsedFloat {
    /// The number is not a valid float literal; the text says why.
    Invalid(String),
    /// The number is NaN, which has no single exact byte representation.
    NotANumber,
    /// The IEEE 754 bit pattern of the nearest representable value.
    Bits(u64),
}

/// Deterministic byte representations. Every kind serializes to exact bytes
/// before scanning; nothing is inferred, decoded, or transformed implicitly.
#[derive(Debug, Clone)]
pub enum PatternValue {
    Bytes { bytes_hex: String },
    Int { number: String, width: u32, signed: bool, endian: Endianness },
    Float { number: String, width: u32, endian: Endianness, parsed: ParsedFloat },
    Utf8 { text: String },
    Utf16le { text: String },
    Masked { bytes_hex: String, mask_hex: String },
}

#[derive(Debug, Clone)]
pub struct PatternSpec {
    pub tag: String,
    pub value: PatternValue,
    pub alignment: u64,
}

/// A validated pattern ready to search for.
#[derive(Debug)]
pub struct CompiledPattern {
    pub tag: String,
    /// Full pattern bytes. Masked patterns store zeros outside their mask.
    pub bytes: Vec<u8>,
    /// `None` for exact patterns.
    pub mask: Option<Vec<u8>>,
    /// Offset of the literal search anchor inside `bytes`.
    pub needle_offset: usize,
    pub needle_len: usize,
    pub alignment: u64,
}

// ---------------------------------------------------------------------------
// Hexadecimal text
// ---------------------------------------------------------------------------

/// The value of one ASCII hexadecimal digit byte, either case.
pub open spec fn hex_nibble(c: u8) -> Option<u8> {
    if 48 <= c <= 57 {
        Some((c - 48) as u8)
    } else if 97 <= c <= 102 {
        Some((c - 87) as u8)
    } else if 65 <= c <= 70 {
        Some((c - 55) as u8)
    } else {
        None
    }
}

/// The bytes that hexadecimal text (given as its UTF-8 bytes) denotes: two digits
/// per byte, high nibble first; `None` for odd length or any non-digit byte.
pub open spec fn hex_decoded(text: Seq<u8>) -> Option<Seq<u8>> {
    if text.len() % 2 == 0 && forall|i: int| 0 <= i < text.len() ==> (#[trigger] hex_nibble(text[i])) is Some {
        Some(Seq::new(
            text.len() / 2,
            |i: int| (hex_nibble(text[2 * i]).unwrap() * 16 + hex_nibble(text[2 * i + 1]).unwrap()) as u8,
        ))
    } else {
        None
    }
}

/// Decodes hexadecimal text with `hex::decode`.
/// The crate accepts exactly an even number of ASCII hexadecimal digits in either
/// case, two per byte, high nibble first; the error text is its `Display` rendering.
#[verifier::external_body]
fn hex_decode(text: &str) -> (res: core::result::Result<Vec<u8>, String>)
    ensures
        res is Ok <==> hex_decoded(encode_utf8(text@)) is Some,
        res matches Ok(bytes) ==> bytes@ == hex_decoded(encode_utf8(text@)).unwrap(),
{
    hex::decode(text).map_err(|error| error.to_string())
}

// ---------------------------------------------------------------------------
// Integer literals
// ---------------------------------------------------------------------------

/// `char::to_digit(radix)` for radix 10 or 16.
pub open spec fn digit_value(c: char, radix: nat) -> Option<nat> {
    let v = c as u32;
    let d: int = if 48 <= v <= 57 {
        v - 48
    } else if 97 <= v <= 122 {
        v - 87
    } else if 65 <= v <= 90 {
        v - 55
    } else {
        99
    };
    if d < radix {
        Some(d as nat)
    } else {
        None
    }
}

/// Whether every character of `s` is a digit of `radix`.
pub open spec fn all_digits(s: Seq<char>, radix: nat) -> bool {
    forall|i: int| 0 <= i < s.len() ==> (#[trigger] digit_value(s[i], radix)) is Some
}

/// The value of a digit string, most significant digit first.
pub open spec fn digits_value(s: Seq<char>, radix: nat) -> nat
    decreases s.len(),
{
    if s.len() == 0 {
        0
    } else {
        digits_value(s.drop_last(), radix) * radix + digit_value(s.last(), radix).unwrap_or(0)
    }
}

/// `u64::from_str_radix` (and, for radix 10, `str::parse::<u64>`): an optional
/// leading `+`, then at least one digit, with a value that fits in 64 bits.
pub open spec fn parsed_unsigned(s: Seq<char>, radix: nat) -> Option<u64> {
    let body = if s.len() > 0 && s[0] == '+' {
        s.drop_first()
    } else {
        s
    };
    if body.len() > 0 && all_digits(body, radix) && digits_value(body, radix) <= u64::MAX {
        Some(digits_value(body, radix) as u64)
    } else {
        None
    }
}

/// Whether `s` starts with `0x` or `0X`.
pub open spec fn has_hex_prefix(s: Seq<char>) -> bool {
    s.len() >= 2 && s[0] == '0' && (s[1] == 'x' || s[1] == 'X')
}

/// An unsigned literal: `0x`/`0X` hexadecimal, otherwise decimal.
pub open spec fn parsed_u64_literal(s: Seq<char>) -> Option<u64> {
    if has_hex_prefix(s) {
        parsed_unsigned(s.subrange(2, s.len() as int), 16)
    } else {
        parsed_unsigned(s, 10)
    }
}

/// A possibly negative integer literal: an optional leading `-` and an unsigned
/// literal, as a sign and a magnitude.
pub open spec fn parsed_int_literal(s: Seq<char>) -> Option<(bool, u64)> {
    let negative = s.len() > 0 && s[0] == '-';
    let digits = if negative {
        s.drop_first()
    } else {
        s
    };
    match parsed_u64_literal(digits) {
        Some(m) => Some((negative, m)),
        None => None,
    }
}

proof fn lemma_digits_value_prefix_monotone(s: Seq<char>, radix: nat, i: int)
    requires
        radix >= 1,
        0 <= i <= s.len(),
    ensures
        digits_value(s.subrange(0, i), radix) <= digits_value(s, radix),
    decreases s.len() - i,
{
    if i < s.len() {
        lemma_digits_value_prefix_monotone(s, radix, i + 1);
        let p = s.subrange(0, i + 1);
        assert(p.drop_last() =~= s.subrange(0, i));
        let v = digits_value(s.subrange(0, i), radix);
        assert(v * radix >= v) by (nonlinear_arith)
            requires
                radix >= 1,
        ;
    } else {
        assert(s.subrange(0, i) =~= s);
    }
}

fn char_digit(c: char, radix: u64) -> (res: Option<u64>)
    requires
        radix == 10 || radix == 16,
    ensures
        res is Some <==> digit_value(c, radix as nat) is Some,
        res matches Some(d) ==> d == digit_value(c, radix as nat).unwrap() && d < radix,
{
    let v = c as u32;
    let d: u64 = if 48 <= v && v <= 57 {
        (v - 48) as u64
    } else if 97 <= v && v <= 122 {
        (v - 87) as u64
    } else if 65 <= v && v <= 90 {
        (v - 55) as u64
    } else {
        99
    };
    if d < radix {
        Some(d)
    } else {
        None
    }
}

/// Parses `s[start..]` as `u64::from_str_radix(_, radix)` does.
pub fn parse_unsigned(s: &Vec<char>, start: usize, radix: u64) -> (res: Option<u64>)
    requires
        start <= s.len(),
        radix == 10 || radix == 16,
    ensures
        res == parsed_unsigned(s@.subrange(start as int, s@.len() as int), radix as nat),
{
    let ghost whole = s@.subrange(start as int, s@.len() as int);
    let mut i: usize = start;
    if i < s.len() && s[i] == '+' {
        i = i + 1;
    }
    let ghost body = s@.subrange(i as int, s@.len() as int);
    proof {
        if whole.len() > 0 && whole[0] == '+' {
            assert(body =~= whole.drop_first());
        } else {
            assert(body =~= whole);
        }
    }
    if i == s.len() {
        return None;
    }
    let body_start = i;
    let mut value: u64 = 0;
    while i < s.len()
        invariant
            body_start <= i <= s.len(),
            radix == 10 || radix == 16,
            body == s@.subrange(body_start as int, s@.len() as int),
            whole == s@.subrange(start as int, s@.len() as int),
            body == (if whole.len() > 0 && whole[0] == '+' { whole.drop_first() } else { whole }),
            body.len() > 0,
            all_digits(s@.subrange(body_start as int, i as int), radix as nat),
            value == digits_value(s@.subrange(body_start as int, i as int), radix as nat),
        decreases s.len() - i,
    {
        let d = match char_digit(s[i], radix) {
            Some(d) => d,
            None => {
                proof {
                    assert(body[i - body_start] == s@[i as int]);
                    assert(digit_value(body[i - body_start], radix as nat) is None);
                    assert(!all_digits(body, radix as nat));
                }
                return None;
            },
        };
        let ghost prefix = s@.subrange(body_start as int, i as int + 1);
        proof {
            assert(prefix.drop_last() =~= s@.subrange(body_start as int, i as int));
            assert(prefix.last() == s@[i as int]);
            assert(all_digits(prefix, radix as nat)) by {
                assert forall|k: int| 0 <= k < prefix.len() implies (#[trigger] digit_value(prefix[k], radix as nat)) is Some by {
                    if k < prefix.len() - 1 {
                        assert(prefix[k] == s@.subrange(body_start as int, i as int)[k]);
                    }
                }
            }
            assert(body.subrange(0, prefix.len() as int) =~= prefix);
        }
        proof {
            assert(digits_value(prefix, radix as nat) == value * radix + d);
        }
        let next = match value.checked_mul(radix) {
            Some(m) => m.checked_add(d),
            None => {
                proof {
                    assert(value * radix + d > u64::MAX);
                }
                None
            },
        };
        match next {
            Some(n) => {
                value = n;
            },
            None => {
                proof {
                    assert(digits_value(prefix, radix as nat) > u64::MAX);
                    lemma_digits_value_prefix_monotone(body, radix as nat, prefix.len() as int);
                }
                return None;
            },
        }
        i = i + 1;
    }
    proof {
        assert(s@.subrange(body_start as int, i as int) =~= body);
    }
    Some(value)
}

/// Parses an unsigned `0x` hexadecimal or decimal literal.
pub fn parse_u64_literal(raw: &str) -> (res: Option<u64>)
    ensures
        res == parsed_u64_literal(raw@),
{
    let chars = str_chars(raw);
    proof {
        assert(chars@.subrange(0, chars@.len() as int) =~= raw@);
    }
    parse_u64_literal_chars(&chars, 0)
}

fn parse_u64_literal_chars(s: &Vec<char>, start: usize) -> (res: Option<u64>)
    requires
        start <= s.len(),
    ensures
        res == parsed_u64_literal(s@.subrange(start as int, s@.len() as int)),
{
    let ghost t = s@.subrange(start as int, s@.len() as int);
    if s.len() - start >= 2 && s[start] == '0' && (s[start + 1] == 'x' || s[start + 1] == 'X') {
        proof {
            assert(t.subrange(2, t.len() as int) =~= s@.subrange(start + 2, s@.len() as int));
        }
        parse_unsigned(s, start + 2, 16)
    } else {
        parse_unsigned(s, start, 10)
    }
}

/// Parses an optionally negative integer literal into its sign and magnitude.
pub fn parse_int_literal(raw: &str) -> (res: Option<(bool, u64)>)
    ensures
        res == parsed_int_literal(raw@),
{
    let chars = str_chars(raw);
    if chars.len() > 0 && chars[0] == '-' {
        proof {
            assert(chars@.subrange(1, chars@.len() as int) =~= raw@.drop_first());
        }
        match parse_u64_literal_chars(&chars, 1) {
            Some(m) => Some((true, m)),
            None => None,
        }
    } else {
        proof {
            assert(chars@.subrange(0, chars@.len() as int) =~= raw@);
        }
        match parse_u64_literal_chars(&chars, 0) {
            Some(m) => Some((false, m)),
            None => None,
        }
    }
}

// ---------------------------------------------------------------------------
// Byte encodings
// ---------------------------------------------------------------------------

/// The `width` low-order bytes of `v`, least significant first.
pub open spec fn le_bytes(v: nat, width: nat) -> Seq<u8>
    decreases width,
{
    if width == 0 {
        Seq::empty()
    } else {
        seq![(v % 256) as u8] + le_bytes(v / 256, (width - 1) as nat)
    }
}

/// Byte width of a supported integer bit width.
pub open spec fn int_byte_width(width: u32) -> Option<nat> {
    if width == 8 {
        Some(1)
    } else if width == 16 {
        Some(2)
    } else if width == 32 {
        Some(4)
    } else if width == 64 {
        Some(8)
    } else {
        None
    }
}

/// Two to the power `8 * bytes`.
pub open spec fn byte_modulus(bytes: nat) -> nat
    decreases bytes,
{
    if bytes == 0 {
        1
    } else {
        256 * byte_modulus((bytes - 1) as nat)
    }
}

/// The two's-complement value an integer pattern stores, or `None` when the
/// literal is invalid or does not fit the declared width and signedness.
pub open spec fn int_pattern_value(number: Seq<char>, width: u32, signed: bool) -> Option<nat> {
    match (int_byte_width(width), parsed_int_literal(number)) {
        (Some(w), Some((negative, m))) => {
            let modulus = byte_modulus(w);
            let limit = modulus / 2;
            if signed {
                if negative {
                    if m > limit {
                        None
                    } else if m == 0 {
                        Some(0)
                    } else {
                        Some((modulus - m) as nat)
                    }
                } else if m > limit - 1 {
                    None
                } else {
                    Some(m as nat)
                }
            } else if negative || m > modulus - 1 {
                None
            } else {
                Some(m as nat)
            }
        },
        _ => None,
    }
}

/// The bytes of an integer pattern in the declared byte order.
pub open spec fn int_pattern_bytes(number: Seq<char>, width: u32, signed: bool, endian: Endianness) -> Option<Seq<u8>> {
    match int_pattern_value(number, width, signed) {
        Some(v) => {
            let le = le_bytes(v, int_byte_width(width).unwrap());
            Some(
                match endian {
                    Endianness::Little => le,
                    Endianness::Big => le.reverse(),
                },
            )
        },
        None => None,
    }
}

/// The bytes of a float pattern: the bit pattern of the parsed value at the declared
/// width, in the declared byte order.
pub open spec fn float_pattern_bytes(width: u32, parsed: ParsedFloat, endian: Endianness) -> Option<Seq<u8>> {
    if width != 32 && width != 64 {
        None
    } else {
        match parsed {
            ParsedFloat::Bits(bits) => {
                let w: nat = if width == 32 {
                    4
                } else {
                    8
                };
                let le = le_bytes(bits as nat, w);
                Some(
                    match endian {
                        Endianness::Little => le,
                        Endianness::Big => le.reverse(),
                    },
                )
            },
            _ => None,
        }
    }
}

/// The UTF-16 code units of one character.
pub open spec fn utf16_units(c: char) -> Seq<nat> {
    let v = c as u32 as nat;
    if v < 0x10000 {
        seq![v]
    } else {
        seq![0xd800 + ((v - 0x10000) as nat) / 1024, 0xdc00 + ((v - 0x10000) as nat) % 1024]
    }
}

/// Little-endian bytes of a sequence of 16-bit units.
pub open spec fn units_le_bytes(units: Seq<nat>) -> Seq<u8>
    decreases units.len(),
{
    if units.len() == 0 {
        Seq::empty()
    } else {
        le_bytes(units[0], 2) + units_le_bytes(units.drop_first())
    }
}

/// The UTF-16LE encoding of `text`.
pub open spec fn utf16le_bytes(text: Seq<char>) -> Seq<u8>
    decreases text.len(),
{
    if text.len() == 0 {
        Seq::empty()
    } else {
        utf16le_bytes(text.drop_last()) + units_le_bytes(utf16_units(text.last()))
    }
}

/// Whether any value bit lies outside its mask byte.
pub open spec fn value_outside_mask(bytes: Seq<u8>, mask: Seq<u8>) -> bool {
    exists|i: int| 0 <= i < bytes.len() && #[trigger] (bytes[i] & !mask[i]) != 0
}

/// The exact bytes (and mask, for masked patterns) a pattern value denotes, or
/// `None` when the value is rejected.
pub open spec fn encoded_value(value: PatternValue) -> Option<(Seq<u8>, Option<Seq<u8>>)> {
    match value {
        PatternValue::Bytes { bytes_hex } => match hex_decoded(encode_utf8(bytes_hex@)) {
            Some(b) => Some((b, None)),
            None => None,
        },
        PatternValue::Int { number, width, signed, endian } => match int_pattern_bytes(number@, width, signed, endian) {
            Some(b) => Some((b, None)),
            None => None,
        },
        PatternValue::Float { number, width, endian, parsed } => match float_pattern_bytes(width, parsed, endian) {
            Some(b) => Some((b, None)),
            None => None,
        },
        PatternValue::Utf8 { text } => if text@.len() == 0 {
            None
        } else {
            Some((encode_utf8(text@), None))
        },
        PatternValue::Utf16le { text } => if text@.len() == 0 {
            None
        } else {
            Some((utf16le_bytes(text@), None))
        },
        PatternValue::Masked { bytes_hex, mask_hex } => match (hex_decoded(encode_utf8(bytes_hex@)), hex_decoded(encode_utf8(mask_hex@))) {
            (Some(b), Some(m)) => if b.len() != m.len() || value_outside_mask(b, m) || !m.contains(0xffu8) {
                None
            } else {
                Some((b, Some(m)))
            },
            _ => None,
        },
    }
}


// ---------------------------------------------------------------------------
// Exec encoders
// ---------------------------------------------------------------------------

/// Builds an `InvalidSpec` error from message pieces.
fn invalid_spec(pieces: &[&str]) -> (res: Error)
    ensures
        res matches Error::InvalidSpec(m) && m@ == crate::text::concat_all(pieces@),
{
    Error::InvalidSpec(crate::text::joined(pieces))
}

proof fn lemma_byte_modulus_values()
    ensures
        byte_modulus(1) == 0x100,
        byte_modulus(2) == 0x1_0000,
        byte_modulus(4) == 0x1_0000_0000,
        byte_modulus(8) == 0x1_0000_0000_0000_0000,
{
    reveal_with_fuel(byte_modulus, 9);
}

/// The `width` low-order bytes of `v`, least significant first.
pub fn le_bytes_of(v: u64, width: usize) -> (res: Vec<u8>)
    ensures
        res@ == le_bytes(v as nat, width as nat),
{
    let mut out: Vec<u8> = Vec::new();
    let mut rest: u64 = v;
    let mut i: usize = 0;
    while i < width
        invariant
            0 <= i <= width,
            out@ + le_bytes(rest as nat, (width - i) as nat) == le_bytes(v as nat, width as nat),
        decreases width - i,
    {
        let ghost before = rest;
        out.push((rest % 256) as u8);
        rest = rest / 256;
        i = i + 1;
        proof {
            assert(le_bytes(before as nat, (width - i + 1) as nat) == seq![(before % 256) as u8] + le_bytes(rest as nat, (width - i) as nat));
            assert(out@ + le_bytes(rest as nat, (width - i) as nat) =~= (out@.drop_last() + seq![(before % 256) as u8]) + le_bytes(rest as nat, (width - i) as nat));
        }
    }
    proof {
        assert(le_bytes(rest as nat, 0) =~= Seq::<u8>::empty());
        assert(out@ =~= le_bytes(v as nat, width as nat));
    }
    out
}

/// Reverses a byte vector.
fn reversed(bytes: Vec<u8>) -> (res: Vec<u8>)
    ensures
        res@ == bytes@.reverse(),
{
    let mut out: Vec<u8> = Vec::new();
    let mut i: usize = bytes.len();
    while i > 0
        invariant
            0 <= i <= bytes.len(),
            out@ == bytes@.subrange(i as int, bytes@.len() as int).reverse(),
        decreases i,
    {
        i = i - 1;
        out.push(bytes[i]);
        proof {
            assert(bytes@.subrange(i as int, bytes@.len() as int).reverse() =~= bytes@.subrange(i as int + 1, bytes@.len() as int).reverse().push(bytes@[i as int]));
        }
    }
    proof {
        assert(bytes@.subrange(0, bytes@.len() as int) =~= bytes@);
    }
    out
}

/// Encodes an integer pattern at its declared width, signedness, and byte order.
pub fn encode_int(tag: &str, number: &str, width: u32, signed: bool, endian: Endianness) -> (res: Result<Vec<u8>>)
    ensures
        res is Ok <==> int_pattern_bytes(number@, width, signed, endian) is Some,
        res matches Ok(bytes) ==> bytes@ == int_pattern_bytes(number@, width, signed, endian).unwrap(),
        res matches Err(e) ==> e is InvalidSpec,
{
    proof {
        lemma_byte_modulus_values();
    }
    let quoted = debug_quoted(tag);
    let (byte_width, span, limit): (usize, u64, u64) = if width == 8 {
        (1, 0xff, 0x80)
    } else if width == 16 {
        (2, 0xffff, 0x8000)
    } else if width == 32 {
        (4, 0xffff_ffff, 0x8000_0000)
    } else if width == 64 {
        (8, 0xffff_ffff_ffff_ffff, 0x8000_0000_0000_0000)
    } else {
        let digits = crate::text::decimal_string(width as u64);
        return Err(invalid_spec(&["integer pattern ", quoted.as_str(), " has width ", digits.as_str(), "; expected 8, 16, 32, or 64"]));
    };
    proof {
        assert(byte_modulus(byte_width as nat) == span + 1);
        assert(byte_modulus(byte_width as nat) / 2 == limit);
    }
    let (negative, magnitude) = match parse_int_literal(number) {
        Some(parsed) => parsed,
        None => {
            let quoted_number = debug_quoted(number);
            return Err(invalid_spec(&["integer pattern ", quoted.as_str(), " has invalid number ", quoted_number.as_str(), "; use decimal or 0x-prefixed hexadecimal digits"]));
        },
    };
    let width_text = crate::text::decimal_string(width as u64);
    let value: u64 = if signed {
        if negative {
            if magnitude > limit {
                return Err(invalid_spec(&["integer pattern ", quoted.as_str(), " value ", number, " does not fit a signed ", width_text.as_str(), "-bit integer"]));
            }
            if magnitude == 0 {
                0
            } else {
                span - magnitude + 1
            }
        } else {
            if magnitude > limit - 1 {
                return Err(invalid_spec(&["integer pattern ", quoted.as_str(), " value ", number, " does not fit a signed ", width_text.as_str(), "-bit integer"]));
            }
            magnitude
        }
    } else {
        if negative {
            return Err(invalid_spec(&["integer pattern ", quoted.as_str(), " is unsigned but value ", number, " is negative"]));
        }
        if magnitude > span {
            return Err(invalid_spec(&["integer pattern ", quoted.as_str(), " value ", number, " does not fit an unsigned ", width_text.as_str(), "-bit integer"]));
        }
        magnitude
    };
    let le = le_bytes_of(value, byte_width);
    match endian {
        Endianness::Little => Ok(le),
        Endianness::Big => Ok(reversed(le)),
    }
}

/// Encodes a float pattern from the bit pattern of its parsed value.
pub fn encode_float(tag: &str, number: &str, width: u32, endian: Endianness, parsed: &ParsedFloat) -> (res: Result<Vec<u8>>)
    ensures
        res is Ok <==> float_pattern_bytes(width, *parsed, endian) is Some,
        res matches Ok(bytes) ==> bytes@ == float_pattern_bytes(width, *parsed, endian).unwrap(),
        res matches Err(e) ==> e is InvalidSpec,
{
    let quoted = debug_quoted(tag);
    if width != 32 && width != 64 {
        let digits = crate::text::decimal_string(width as u64);
        return Err(invalid_spec(&["float pattern ", quoted.as_str(), " has width ", digits.as_str(), "; expected 32 or 64"]));
    }
    let bits = match parsed {
        ParsedFloat::Invalid(reason) => {
            let quoted_number = debug_quoted(number);
            return Err(invalid_spec(&["float pattern ", quoted.as_str(), " has invalid number ", quoted_number.as_str(), ": ", reason.as_str()]));
        },
        ParsedFloat::NotANumber => {
            return Err(invalid_spec(&["float pattern ", quoted.as_str(), " is NaN, which has no single exact byte representation; use an explicit bytes or masked pattern"]));
        },
        ParsedFloat::Bits(bits) => *bits,
    };
    let le = if width == 32 {
        le_bytes_of(bits, 4)
    } else {
        le_bytes_of(bits, 8)
    };
    match endian {
        Endianness::Little => Ok(le),
        Endianness::Big => Ok(reversed(le)),
    }
}

proof fn lemma_le2(v: nat)
    ensures
        le_bytes(v, 2) == seq![(v % 256) as u8, ((v / 256) % 256) as u8],
{
    reveal_with_fuel(le_bytes, 3);
    assert(le_bytes(v, 2) =~= seq![(v % 256) as u8, ((v / 256) % 256) as u8]);
}

/// The UTF-16LE encoding of `text`.
pub fn utf16le(text: &str) -> (res: Vec<u8>)
    ensures
        res@ == utf16le_bytes(text@),
{
    let chars = str_chars(text);
    let mut out: Vec<u8> = Vec::new();
    let mut i: usize = 0;
    while i < chars.len()
        invariant
            0 <= i <= chars.len(),
            chars@ == text@,
            out@ == utf16le_bytes(chars@.subrange(0, i as int)),
        decreases chars.len() - i,
    {
        let v = chars[i] as u32;
        proof {
            vstd::utf8::char_is_scalar(chars[i as int]);
        }
        let ghost before = out@;
        if v < 0x10000 {
            out.push((v % 256) as u8);
            out.push((v / 256) as u8);
            proof {
                let units = utf16_units(chars@[i as int]);
                assert(units =~= seq![v as nat]);
                assert(units.drop_first() =~= Seq::<nat>::empty());
                lemma_le2(v as nat);
                assert(units_le_bytes(units) =~= le_bytes(v as nat, 2) + units_le_bytes(units.drop_first()));
                assert(out@ =~= before + units_le_bytes(utf16_units(chars@[i as int])));
            }
        } else {
            let w = v - 0x10000;
            let high = 0xd800 + w / 1024;
            let low = 0xdc00 + w % 1024;
            out.push((high % 256) as u8);
            out.push((high / 256) as u8);
            out.push((low % 256) as u8);
            out.push((low / 256) as u8);
            proof {
                let units = utf16_units(chars@[i as int]);
                assert(units =~= seq![high as nat, low as nat]);
                assert(units.drop_first() =~= seq![low as nat]);
                assert(units.drop_first().drop_first() =~= Seq::<nat>::empty());
                lemma_le2(high as nat);
                lemma_le2(low as nat);
                assert(units_le_bytes(units.drop_first()) =~= le_bytes(low as nat, 2) + units_le_bytes(units.drop_first().drop_first()));
                assert(units_le_bytes(units) =~= le_bytes(high as nat, 2) + units_le_bytes(units.drop_first()));
                assert(out@ =~= before + units_le_bytes(units));
            }
        }
        i = i + 1;
        proof {
            let p = chars@.subrange(0, i as int);
            assert(p.drop_last() =~= chars@.subrange(0, i as int - 1));
        }
    }
    proof {
        assert(chars@.subrange(0, chars@.len() as int) =~= text@);
    }
    out
}

/// Whether a masked pattern sets value bits outside its mask.
fn any_outside_mask(bytes: &Vec<u8>, mask: &Vec<u8>) -> (res: bool)
    requires
        bytes.len() == mask.len(),
    ensures
        res == value_outside_mask(bytes@, mask@),
{
    let mut i: usize = 0;
    while i < bytes.len()
        invariant
            0 <= i <= bytes.len(),
            bytes.len() == mask.len(),
            forall|k: int| 0 <= k < i ==> #[trigger] (bytes@[k] & !mask@[k]) == 0,
        decreases bytes.len() - i,
    {
        if bytes[i] & !mask[i] != 0 {
            return true;
        }
        i = i + 1;
    }
    false
}

/// Whether `mask` holds a fully known (`0xff`) byte.
fn has_known_byte(mask: &Vec<u8>) -> (res: bool)
    ensures
        res == mask@.contains(0xffu8),
{
    let mut i: usize = 0;
    while i < mask.len()
        invariant
            0 <= i <= mask.len(),
            forall|k: int| 0 <= k < i ==> mask@[k] != 0xffu8,
        decreases mask.len() - i,
    {
        if mask[i] == 0xff {
            return true;
        }
        i = i + 1;
    }
    false
}

fn decode_hex_field(tag: &str, field: &str, raw: &str) -> (res: Result<Vec<u8>>)
    ensures
        res is Ok <==> hex_decoded(encode_utf8(raw@)) is Some,
        res matches Ok(bytes) ==> bytes@ == hex_decoded(encode_utf8(raw@)).unwrap(),
        res matches Err(e) ==> e is InvalidSpec,
{
    match hex_decode(raw) {
        Ok(bytes) => Ok(bytes),
        Err(reason) => {
            let quoted = debug_quoted(tag);
            Err(invalid_spec(&["pattern ", quoted.as_str(), " has invalid ", field, ": ", reason.as_str()]))
        },
    }
}

/// Encodes one pattern value into its exact bytes and, for masked patterns, its mask.
pub fn encode(tag: &str, value: &PatternValue) -> (res: Result<(Vec<u8>, Option<Vec<u8>>)>)
    ensures
        res is Ok <==> encoded_value(*value) is Some,
        res matches Ok(out) ==> out.0@ == encoded_value(*value).unwrap().0 && match (out.1, encoded_value(*value).unwrap().1) {
            (Some(m), Some(sm)) => m@ == sm,
            (None, None) => true,
            _ => false,
        },
        res matches Err(e) ==> e is InvalidSpec,
        value matches PatternValue::Masked { bytes_hex, mask_hex }
            && hex_decoded(encode_utf8(bytes_hex@)) matches Some(b)
            && hex_decoded(encode_utf8(mask_hex@)) matches Some(m)
            && b.len() == m.len() && value_outside_mask(b, m)
            ==> (res matches Err(Error::InvalidSpec(msg)) && crate::text::mentions(msg@, "outside its mask"@)),
{
    match value {
        PatternValue::Bytes { bytes_hex } => {
            let bytes = decode_hex_field(tag, "bytes_hex", bytes_hex.as_str())?;
            Ok((bytes, None))
        },
        PatternValue::Int { number, width, signed, endian } => {
            let bytes = encode_int(tag, number.as_str(), *width, *signed, *endian)?;
            Ok((bytes, None))
        },
        PatternValue::Float { number, width, endian, parsed } => {
            let bytes = encode_float(tag, number.as_str(), *width, *endian, parsed)?;
            Ok((bytes, None))
        },
        PatternValue::Utf8 { text } => {
            if text.as_str().is_empty() {
                let quoted = debug_quoted(tag);
                return Err(invalid_spec(&["string pattern ", quoted.as_str(), " has empty text"]));
            }
            let bytes = vstd::slice::slice_to_vec(text.as_str().as_bytes());
            Ok((bytes, None))
        },
        PatternValue::Utf16le { text } => {
            if text.as_str().is_empty() {
                let quoted = debug_quoted(tag);
                return Err(invalid_spec(&["string pattern ", quoted.as_str(), " has empty text"]));
            }
            Ok((utf16le(text.as_str()), None))
        },
        PatternValue::Masked { bytes_hex, mask_hex } => {
            let bytes = decode_hex_field(tag, "bytes_hex", bytes_hex.as_str())?;
            let mask = decode_hex_field(tag, "mask_hex", mask_hex.as_str())?;
            let quoted = debug_quoted(tag);
            if bytes.len() != mask.len() {
                let value_count = crate::text::decimal_string(bytes.len() as u64);
                let mask_count = crate::text::decimal_string(mask.len() as u64);
                return Err(invalid_spec(&["masked pattern ", quoted.as_str(), " has ", value_count.as_str(), " value bytes and ", mask_count.as_str(), " mask bytes"]));
            }
            if any_outside_mask(&bytes, &mask) {
                let pieces = ["masked pattern ", quoted.as_str(), " sets value bits ", "outside its mask",
                    "; clear masked-out bits to keep the pattern unambiguous"];
                let error = invalid_spec(&pieces);
                proof {
                    crate::text::lemma_mentions_pieces(pieces@, 3, 4);
                    assert(pieces@.subrange(3, 4) =~= seq!["outside its mask"]);
                    crate::text::lemma_concat_all_one("outside its mask");
                }
                return Err(error);
            }
            if !has_known_byte(&mask) {
                return Err(invalid_spec(&["masked pattern ", quoted.as_str(), " needs at least one fully known byte (mask ff) to anchor a bounded search"]));
            }
            Ok((bytes, Some(mask)))
        },
    }
}

// ---------------------------------------------------------------------------
// Anchors
// ---------------------------------------------------------------------------

/// `mask[start..start + len]` is a nonempty run of fully known bytes.
pub open spec fn known_run(mask: Seq<u8>, start: int, len: int) -> bool {
    &&& len >= 1
    &&& 0 <= start
    &&& start + len <= mask.len()
    &&& forall|k: int| start <= k < start + len ==> #[trigger] mask[k] == 0xffu8
}

/// The search anchor of a mask: its longest run of fully known bytes, the earliest
/// one on a tie.
pub open spec fn is_anchor(mask: Seq<u8>, start: int, len: int) -> bool {
    &&& known_run(mask, start, len)
    &&& forall|s: int, l: int| #[trigger] known_run(mask, s, l) ==> l <= len && (l == len ==> s >= start)
}

/// Chooses the longest run of fully known bytes as the literal search anchor,
/// preferring the earliest run on a tie.
pub fn select_anchor(mask: &Vec<u8>) -> (res: (usize, usize))
    requires
        mask@.contains(0xffu8),
    ensures
        is_anchor(mask@, res.0 as int, res.1 as int),
{
    let mut best: (usize, usize) = (0, 0);
    let mut index: usize = 0;
    while index < mask.len()
        invariant
            0 <= index <= mask.len(),
            index == 0 || index == mask.len() || mask@[index - 1] != 0xffu8 || mask@[index as int] != 0xffu8,
            best.1 == 0 || (known_run(mask@, best.0 as int, best.1 as int) && best.0 < index),
            forall|s: int, l: int| #[trigger] known_run(mask@, s, l) && s < index ==> l <= best.1 && (l == best.1 ==> s >= best.0),
        decreases mask.len() - index,
    {
        if mask[index] != 0xff {
            index = index + 1;
            proof {
                assert forall|s: int, l: int| #[trigger] known_run(mask@, s, l) && s < index implies l <= best.1 && (l == best.1 ==> s >= best.0) by {
                    if s == index - 1 {
                        assert(mask@[s] == 0xffu8);
                    }
                }
            }
            continue;
        }
        let start = index;
        while index < mask.len() && mask[index] == 0xff
            invariant
                start <= index <= mask.len(),
                forall|k: int| start <= k < index ==> #[trigger] mask@[k] == 0xffu8,
            decreases mask.len() - index,
        {
            index = index + 1;
        }
        let ghost old_best = best;
        if index - start > best.1 {
            best = (start, index - start);
        }
        proof {
            assert(known_run(mask@, start as int, (index - start) as int));
            assert forall|s: int, l: int| #[trigger] known_run(mask@, s, l) && s < index implies l <= best.1 && (l == best.1 ==> s >= best.0) by {
                if s >= start {
                    if s + l > index {
                        assert(mask@[index as int] == 0xffu8);
                    }
                } else {
                    if s + l > start {
                        // a run reaching past `start` would continue the run before it
                        if start > 0 {
                            assert(mask@[start - 1] == 0xffu8);
                        }
                    }
                }
            }
        }
    }
    proof {
        let k = choose|k: int| 0 <= k < mask@.len() && mask@[k] == 0xffu8;
        assert(known_run(mask@, k, 1));
    }
    best
}


// ---------------------------------------------------------------------------
// Specification validation
// ---------------------------------------------------------------------------

/// `char::is_whitespace`: the Unicode `White_Space` property.
pub open spec fn is_unicode_whitespace(c: char) -> bool {
    let v = c as u32;
    ||| 9 <= v <= 13
    ||| v == 32
    ||| v == 0x85
    ||| v == 0xa0
    ||| v == 0x1680
    ||| 0x2000 <= v <= 0x200a
    ||| v == 0x2028
    ||| v == 0x2029
    ||| v == 0x202f
    ||| v == 0x205f
    ||| v == 0x3000
}

/// Whether `s` is empty once surrounding whitespace is trimmed.
pub open spec fn is_blank(s: Seq<char>) -> bool {
    forall|i: int| 0 <= i < s.len() ==> #[trigger] is_unicode_whitespace(s[i])
}

pub fn char_is_whitespace(c: char) -> (res: bool)
    ensures
        res == is_unicode_whitespace(c),
{
    let v = c as u32;
    (9 <= v && v <= 13) || v == 32 || v == 0x85 || v == 0xa0 || v == 0x1680 || (0x2000 <= v && v <= 0x200a)
        || v == 0x2028 || v == 0x2029 || v == 0x202f || v == 0x205f || v == 0x3000
}

/// Whether `s.trim().is_empty()`.
pub fn blank(s: &str) -> (res: bool)
    ensures
        res == is_blank(s@),
{
    let chars = str_chars(s);
    let mut i: usize = 0;
    while i < chars.len()
        invariant
            0 <= i <= chars.len(),
            chars@ == s@,
            forall|k: int| 0 <= k < i ==> #[trigger] is_unicode_whitespace(chars@[k]),
        decreases chars.len() - i,
    {
        if !char_is_whitespace(chars[i]) {
            return false;
        }
        i = i + 1;
    }
    true
}

/// A single pattern is acceptable: a nonblank tag, a nonzero alignment, and a value
/// that encodes to between one and `MAX_PATTERN_BYTES` bytes.
pub open spec fn pattern_accepted(p: PatternSpec) -> bool {
    &&& !is_blank(p.tag@)
    &&& p.alignment != 0
    &&& encoded_value(p.value) is Some
    &&& 1 <= encoded_value(p.value).unwrap().0.len() <= MAX_PATTERN_BYTES
}

/// A scan specification is acceptable: the current schema, between one and
/// `MAX_PATTERNS` acceptable patterns with distinct tags, and a match quota between
/// one and `HARD_MAX_MATCHES`.
pub open spec fn spec_accepted(spec: super::ScanSpec) -> bool {
    &&& spec.schema == SCAN_SPEC_SCHEMA
    &&& 1 <= spec.patterns@.len() <= MAX_PATTERNS
    &&& 1 <= spec.max_matches <= HARD_MAX_MATCHES
    &&& forall|i: int| 0 <= i < spec.patterns@.len() ==> #[trigger] pattern_accepted(spec.patterns@[i])
    &&& forall|i: int, j: int| 0 <= i < j < spec.patterns@.len() ==> #[trigger] spec.patterns@[i].tag@ != #[trigger] spec.patterns@[j].tag@
}

/// `c` is the compiled form of the acceptable pattern `p`.
pub open spec fn compiled_from(c: CompiledPattern, p: PatternSpec) -> bool {
    let (bytes, mask) = encoded_value(p.value).unwrap();
    &&& c.tag@ == p.tag@
    &&& c.bytes@ == bytes
    &&& c.alignment == p.alignment
    &&& match (c.mask, mask) {
        (None, None) => c.needle_offset == 0 && c.needle_len == bytes.len(),
        (Some(m), Some(sm)) => m@ == sm && is_anchor(sm, c.needle_offset as int, c.needle_len as int),
        _ => false,
    }
}

/// Validates a scan specification and compiles its patterns, in order.
pub fn compile(spec: &super::ScanSpec) -> (res: Result<Vec<CompiledPattern>>)
    ensures
        res is Ok <==> spec_accepted(*spec),
        res matches Ok(patterns) ==> patterns@.len() == spec.patterns@.len()
            && forall|i: int| 0 <= i < patterns@.len() ==> #[trigger] compiled_from(patterns@[i], spec.patterns@[i]),
        res matches Err(e) ==> e is InvalidSpec,
{
    if spec.schema != SCAN_SPEC_SCHEMA {
        let found = crate::text::decimal_string(spec.schema as u64);
        return Err(invalid_spec(&["unsupported schema ", found.as_str(), "; expected 2, where every pattern carries an explicit typed value object"]));
    }
    if spec.patterns.len() == 0 {
        return Err(invalid_spec(&["at least one pattern is required"]));
    }
    if spec.patterns.len() > MAX_PATTERNS {
        let count = crate::text::decimal_string(spec.patterns.len() as u64);
        return Err(invalid_spec(&["pattern count ", count.as_str(), " exceeds hard limit 64"]));
    }
    if spec.max_matches == 0 || spec.max_matches > HARD_MAX_MATCHES {
        return Err(invalid_spec(&["max_matches must be between 1 and 1000000"]));
    }
    let mut compiled: Vec<CompiledPattern> = Vec::new();
    let mut i: usize = 0;
    while i < spec.patterns.len()
        invariant
            0 <= i <= spec.patterns@.len(),
            compiled@.len() == i,
            forall|k: int| 0 <= k < i ==> #[trigger] pattern_accepted(spec.patterns@[k]),
            forall|k: int| 0 <= k < i ==> #[trigger] compiled_from(compiled@[k], spec.patterns@[k]),
            forall|a: int, b: int| 0 <= a < b < i ==> #[trigger] spec.patterns@[a].tag@ != #[trigger] spec.patterns@[b].tag@,
        decreases spec.patterns@.len() - i,
    {
        let pattern = &spec.patterns[i];
        let quoted = debug_quoted(pattern.tag.as_str());
        if blank(pattern.tag.as_str()) {
            proof {
                assert(!pattern_accepted(spec.patterns@[i as int]));
            }
            return Err(invalid_spec(&["pattern tag cannot be empty"]));
        }
        let mut k: usize = 0;
        while k < i
            invariant
                0 <= k <= i,
                i < spec.patterns@.len(),
                pattern == spec.patterns@[i as int],
                forall|a: int| 0 <= a < k ==> spec.patterns@[a].tag@ != spec.patterns@[i as int].tag@,
            decreases i - k,
        {
            if spec.patterns[k].tag == pattern.tag {
                return Err(invalid_spec(&["duplicate pattern tag ", quoted.as_str()]));
            }
            k = k + 1;
        }
        if pattern.alignment == 0 {
            proof {
                assert(!pattern_accepted(spec.patterns@[i as int]));
            }
            return Err(invalid_spec(&["pattern ", quoted.as_str(), " has zero alignment"]));
        }
        let (bytes, mask) = match encode(pattern.tag.as_str(), &pattern.value) {
            Ok(encoded) => encoded,
            Err(e) => {
                proof {
                    assert(!pattern_accepted(spec.patterns@[i as int]));
                }
                return Err(e);
            },
        };
        if bytes.len() == 0 {
            proof {
                assert(!pattern_accepted(spec.patterns@[i as int]));
            }
            return Err(invalid_spec(&["pattern ", quoted.as_str(), " is empty"]));
        }
        if bytes.len() > MAX_PATTERN_BYTES {
            let size = crate::text::decimal_string(bytes.len() as u64);
            proof {
                assert(!pattern_accepted(spec.patterns@[i as int]));
            }
            return Err(invalid_spec(&["pattern ", quoted.as_str(), " is ", size.as_str(), " bytes; hard limit is 4096"]));
        }
        let (needle_offset, needle_len) = match &mask {
            None => (0, bytes.len()),
            Some(m) => select_anchor(m),
        };
        compiled.push(CompiledPattern {
            tag: pattern.tag.clone(),
            bytes,
            mask,
            needle_offset,
            needle_len,
            alignment: pattern.alignment,
        });
        i = i + 1;
        proof {
            assert(compiled_from(compiled@[i - 1], spec.patterns@[i - 1]));
        }
    }
    Ok(compiled)
}

/// A float pattern is the value's IEEE 754 bit pattern, least significant byte
/// first for little-endian and most significant byte first for big-endian: the
/// big-endian bytes are exactly the little-endian bytes reversed.
pub proof fn float_bytes_follow_byte_order(width: u32, bits: u64)
    requires
        width == 32 || width == 64,
    ensures
        float_pattern_bytes(width, ParsedFloat::Bits(bits), Endianness::Big)
            == Some(float_pattern_bytes(width, ParsedFloat::Bits(bits), Endianness::Little).unwrap().reverse()),
        width == 32 ==> float_pattern_bytes(width, ParsedFloat::Bits(bits), Endianness::Little) == Some(seq![
            (bits % 0x100) as u8,
            ((bits / 0x100) % 0x100) as u8,
            ((bits / 0x1_0000) % 0x100) as u8,
            ((bits / 0x100_0000) % 0x100) as u8,
        ]),
        width == 64 ==> float_pattern_bytes(width, ParsedFloat::Bits(bits), Endianness::Little) == Some(seq![
            (bits % 0x100) as u8,
            ((bits / 0x100) % 0x100) as u8,
            ((bits / 0x1_0000) % 0x100) as u8,
            ((bits / 0x100_0000) % 0x100) as u8,
            ((bits / 0x1_0000_0000) % 0x100) as u8,
            ((bits / 0x100_0000_0000) % 0x100) as u8,
            ((bits / 0x1_0000_0000_0000) % 0x100) as u8,
            ((bits / 0x100_0000_0000_0000) % 0x100) as u8,
        ]),
{
    let v = bits as nat;
    assert(v / 0x100 / 0x100 == v / 0x1_0000) by (nonlinear_arith);
    assert(v / 0x1_0000 / 0x100 == v / 0x100_0000) by (nonlinear_arith);
    assert(v / 0x100_0000 / 0x100 == v / 0x1_0000_0000) by (nonlinear_arith);
    assert(v / 0x1_0000_0000 / 0x100 == v / 0x100_0000_0000) by (nonlinear_arith);
    assert(v / 0x100_0000_0000 / 0x100 == v / 0x1_0000_0000_0000) by (nonlinear_arith);
    assert(v / 0x1_0000_0000_0000 / 0x100 == v / 0x100_0000_0000_0000) by (nonlinear_arith);
    reveal_with_fuel(le_bytes, 9);
    if width == 32 {
        assert(le_bytes(v, 4) =~= seq![
            (bits % 0x100) as u8,
            ((bits / 0x100) % 0x100) as u8,
            ((bits / 0x1_0000) % 0x100) as u8,
            ((bits / 0x100_0000) % 0x100) as u8,
        ]);
    } else {
        assert(le_bytes(v, 8) =~= seq![
            (bits % 0x100) as u8,
            ((bits / 0x100) % 0x100) as u8,
            ((bits / 0x1_0000) % 0x100) as u8,
            ((bits / 0x100_0000) % 0x100) as u8,
            ((bits / 0x1_0000_0000) % 0x100) as u8,
            ((bits / 0x100_0000_0000) % 0x100) as u8,
            ((bits / 0x1_0000_0000_0000) % 0x100) as u8,
            ((bits / 0x100_0000_0000_0000) % 0x100) as u8,
        ]);
    }
}

/// The number little-endian bytes denote: the first byte counts one, the next
/// 256, and so on.
pub open spec fn le_value(bytes: Seq<u8>) -> nat
    decreases bytes.len(),
{
    if bytes.len() == 0 {
        0
    } else {
        bytes[0] as nat + 256 * le_value(bytes.drop_first())
    }
}

proof fn lemma_byte_modulus_positive(w: nat)
    ensures
        byte_modulus(w) > 0,
    decreases w,
{
    if w > 0 {
        lemma_byte_modulus_positive((w - 1) as nat);
    }
}

proof fn lemma_le_bytes_value(v: nat, w: nat)
    ensures
        le_bytes(v, w).len() == w,
        le_value(le_bytes(v, w)) == v % byte_modulus(w),
    decreases w,
{
    if w > 0 {
        lemma_le_bytes_value(v / 256, (w - 1) as nat);
        lemma_byte_modulus_positive((w - 1) as nat);
        let b = le_bytes(v, w);
        assert(b.drop_first() =~= le_bytes(v / 256, (w - 1) as nat));
        assert(b[0] == (v % 256) as u8);
        vstd::arithmetic::div_mod::lemma_breakdown(v as int, 256, byte_modulus((w - 1) as nat) as int);
    }
}

/// An integer pattern holds the number at its declared width: as many bytes as
/// the width, the little-endian bytes denoting the number itself when it is not
/// negative and its two's complement (the number added to them wraps to zero)
/// when it is, and the big-endian bytes the same bytes reversed.
pub proof fn int_bytes_encode_the_number(number: Seq<char>, width: u32, signed: bool)
    requires
        int_pattern_bytes(number, width, signed, Endianness::Little) is Some,
    ensures
        ({
            let bytes = int_pattern_bytes(number, width, signed, Endianness::Little).unwrap();
            let (negative, m) = parsed_int_literal(number).unwrap();
            &&& int_pattern_bytes(number, width, signed, Endianness::Big) == Some(bytes.reverse())
            &&& bytes.len() * 8 == width
            &&& !negative ==> le_value(bytes) == m
            &&& negative ==> (le_value(bytes) + m) % (byte_modulus(bytes.len()) as int) == 0
            &&& negative ==> signed
        }),
{
    let w = int_byte_width(width).unwrap();
    let v = int_pattern_value(number, width, signed).unwrap();
    lemma_le_bytes_value(v, w);
    lemma_byte_modulus_positive(w);
    lemma_byte_modulus_values();
    let modulus = byte_modulus(w);
    assert(v < modulus);
    assert(v % modulus == v) by {
        vstd::arithmetic::div_mod::lemma_small_mod(v, modulus);
    }
    let (negative, m) = parsed_int_literal(number).unwrap();
    if negative && m > 0 {
        assert((v + m) % (modulus as int) == 0) by {
            assert(v + m == modulus);
            vstd::arithmetic::div_mod::lemma_mod_self_0(modulus as int);
        }
    }
}

} // verus!
