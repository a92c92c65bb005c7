//! Character-level helpers shared by the rest of the library: conversions between
//! strings and character vectors, token joining, and hexadecimal and decimal
//! rendering of integers.

use vstd::prelude::*;

verus! {

/// Collects the characters of `s` into a vector, in order.
pub fn str_chars(s: &str) -> (res: Vec<char>)
    ensures
        res@ == s@,
{
    let mut out: Vec<char> = Vec::new();
    for c in it: s.chars()
        invariant
            it.seq() == s@,
            out@ == s@.subrange(0, it.index() as int),
    {
        out.push(c);
        proof {
            assert(out@ =~= s@.subrange(0, it.index() as int + 1));
        }
    }
    assert(out@ =~= s@);
    out
}

/// Builds a string from a sequence of characters, in order
/// (`String::from_iter` over `&char`).
#[verifier::external_body]
pub(crate) fn string_from_chars(chars: &[char]) -> (res: String)
    ensures
        res@ == chars@,
{
    String::from_iter(chars)
}

/// Renders `s` with `str`'s `Debug` formatting (`<str as Debug>::fmt`): the text
/// between double quotes, with quotes, backslashes, and control characters
/// escaped. Only the enclosing quotes are stated.
#[verifier::external_body]
pub(crate) fn debug_quoted(s: &str) -> (res: String)
    ensures
        res@.len() >= 2,
        res@[0] == '"',
        res@.last() == '"',
{
    format!("{s:?}")
}

/// Appends the characters of `s` to `out`.
pub fn push_str(out: &mut Vec<char>, s: &str)
    ensures
        final(out)@ == old(out)@ + s@,
{
    let chars = str_chars(s);
    let mut i: usize = 0;
    while i < chars.len()
        invariant
            chars@ == s@,
            0 <= i <= chars.len(),
            out@ == old(out)@ + s@.subrange(0, i as int),
        decreases chars.len() - i,
    {
        out.push(chars[i]);
        i = i + 1;
        proof {
            assert(s@.subrange(0, i as int) =~= s@.subrange(0, (i - 1) as int).push(chars@[i - 1]));
        }
    }
    proof {
        assert(s@.subrange(0, s@.len() as int) =~= s@);
    }
}

/// Appends the characters of `s` to `out`.
pub fn push_chars(out: &mut Vec<char>, s: &Vec<char>)
    ensures
        final(out)@ == old(out)@ + s@,
{
    let mut i: usize = 0;
    while i < s.len()
        invariant
            0 <= i <= s.len(),
            out@ == old(out)@ + s@.subrange(0, i as int),
        decreases s.len() - i,
    {
        out.push(s[i]);
        i = i + 1;
        proof {
            assert(s@.subrange(0, i as int) =~= s@.subrange(0, (i - 1) as int).push(s@[i - 1]));
        }
    }
    proof {
        assert(s@.subrange(0, s@.len() as int) =~= s@);
    }
}

/// The separator placed between rendered tokens.
pub open spec fn bar_separator() -> Seq<char> {
    seq![' ', '|', ' ']
}

/// `tokens` joined with `" | "`.
pub open spec fn join_bar(tokens: Seq<Seq<char>>) -> Seq<char>
    decreases tokens.len(),
{
    if tokens.len() == 0 {
        Seq::empty()
    } else if tokens.len() == 1 {
        tokens[0]
    } else {
        join_bar(tokens.drop_last()) + bar_separator() + tokens.last()
    }
}

/// Views of a vector of strings.
pub open spec fn string_views(tokens: Seq<String>) -> Seq<Seq<char>> {
    tokens.map_values(|t: String| t@)
}

/// Joins `tokens` with `" | "`.
pub fn join_with_bar(tokens: &Vec<String>) -> (res: String)
    ensures
        res@ == join_bar(string_views(tokens@)),
{
    let ghost views = string_views(tokens@);
    let mut out: Vec<char> = Vec::new();
    let mut i: usize = 0;
    while i < tokens.len()
        invariant
            0 <= i <= tokens.len(),
            views == string_views(tokens@),
            out@ == join_bar(views.subrange(0, i as int)),
        decreases tokens.len() - i,
    {
        if i != 0 {
            push_str(&mut out, " | ");
            proof {
                reveal_strlit(" | ");
            }
        }
        push_str(&mut out, tokens[i].as_str());
        i = i + 1;
        proof {
            let prefix = views.subrange(0, i as int);
            assert(prefix.drop_last() =~= views.subrange(0, (i - 1) as int));
            reveal_strlit(" | ");
            assert(" | "@ =~= bar_separator());
        }
    }
    proof {
        assert(views.subrange(0, tokens.len() as int) =~= views);
    }
    string_from_chars(out.as_slice())
}

/// Lowercase hexadecimal digit for `d < 16`.
pub open spec fn hex_char(d: nat) -> char {
    if d < 10 {
        (48 + d) as char
    } else {
        (87 + d) as char
    }
}

/// Minimal lowercase hexadecimal rendering of `v`, without prefix (`{:x}`).
pub open spec fn hex_lower(v: nat) -> Seq<char>
    decreases v,
{
    if v < 16 {
        seq![hex_char(v)]
    } else {
        hex_lower(v / 16).push(hex_char(v % 16))
    }
}

/// `digits` left-padded with `'0'` to at least `width` characters.
pub open spec fn zero_padded(digits: Seq<char>, width: nat) -> Seq<char> {
    if digits.len() >= width {
        digits
    } else {
        Seq::new((width - digits.len()) as nat, |i: int| '0') + digits
    }
}

fn hex_digit(d: u64) -> (c: char)
    requires
        d < 16,
    ensures
        c == hex_char(d as nat),
{
    if d < 10 {
        ((48 + d) as u8) as char
    } else {
        ((87 + d) as u8) as char
    }
}

/// Appends the minimal lowercase hexadecimal rendering of `v`.
pub fn push_hex(out: &mut Vec<char>, v: u64)
    ensures
        final(out)@ == old(out)@ + hex_lower(v as nat),
    decreases v,
{
    if v >= 16 {
        push_hex(out, v / 16);
    }
    let d = hex_digit(v % 16);
    out.push(d);
    proof {
        if v >= 16 {
            assert(hex_lower(v as nat) == hex_lower((v / 16) as nat).push(hex_char((v % 16) as nat)));
        }
    }
}

/// Appends `v` as lowercase hexadecimal, left-padded with zeros to `width` digits.
pub fn push_hex_padded(out: &mut Vec<char>, v: u64, width: usize)
    ensures
        final(out)@ == old(out)@ + zero_padded(hex_lower(v as nat), width as nat),
{
    let mut digits: Vec<char> = Vec::new();
    push_hex(&mut digits, v);
    assert(digits@ =~= hex_lower(v as nat));
    if digits.len() < width {
        let pad = width - digits.len();
        let mut i: usize = 0;
        while i < pad
            invariant
                0 <= i <= pad,
                out@ == old(out)@ + Seq::new(i as nat, |k: int| '0'),
            decreases pad - i,
        {
            out.push('0');
            i = i + 1;
            proof {
                assert(Seq::new(i as nat, |k: int| '0') =~= Seq::new((i - 1) as nat, |k: int| '0').push('0'));
            }
        }
    }
    push_chars(out, &digits);
    proof {
        assert(out@ =~= old(out)@ + zero_padded(hex_lower(v as nat), width as nat));
    }
}

/// Renders `v` as `0x` followed by at least `width` lowercase hexadecimal digits.
pub fn hex_prefixed(v: u64, width: usize) -> (res: String)
    ensures
        res@ == seq!['0', 'x'] + zero_padded(hex_lower(v as nat), width as nat),
{
    let mut out: Vec<char> = Vec::new();
    out.push('0');
    out.push('x');
    push_hex_padded(&mut out, v, width);
    assert(out@ =~= seq!['0', 'x'] + zero_padded(hex_lower(v as nat), width as nat));
    string_from_chars(out.as_slice())
}

/// Decimal digit for `d < 10`.
pub open spec fn decimal_char(d: nat) -> char {
    (48 + d) as char
}

/// Decimal rendering of `v` (`{}` of an unsigned integer).
pub open spec fn decimal(v: nat) -> Seq<char>
    decreases v,
{
    if v < 10 {
        seq![decimal_char(v)]
    } else {
        decimal(v / 10).push(decimal_char(v % 10))
    }
}

/// Appends the decimal rendering of `v`.
pub fn push_decimal(out: &mut Vec<char>, v: u64)
    ensures
        final(out)@ == old(out)@ + decimal(v as nat),
    decreases v,
{
    if v >= 10 {
        push_decimal(out, v / 10);
    }
    let d = ((48 + v % 10) as u8) as char;
    out.push(d);
}

/// Renders `v` in decimal.
pub fn decimal_string(v: u64) -> (res: String)
    ensures
        res@ == decimal(v as nat),
{
    let mut out: Vec<char> = Vec::new();
    push_decimal(&mut out, v);
    assert(out@ =~= decimal(v as nat));
    string_from_chars(out.as_slice())
}

/// Concatenates two strings.
pub fn concat2(a: &str, b: &str) -> (res: String)
    ensures
        res@ == a@ + b@,
{
    let mut out: Vec<char> = Vec::new();
    push_str(&mut out, a);
    push_str(&mut out, b);
    string_from_chars(out.as_slice())
}

/// Concatenates three strings.
pub fn concat3(a: &str, b: &str, c: &str) -> (res: String)
    ensures
        res@ == a@ + b@ + c@,
{
    let mut out: Vec<char> = Vec::new();
    push_str(&mut out, a);
    push_str(&mut out, b);
    push_str(&mut out, c);
    string_from_chars(out.as_slice())
}

/// Concatenates four strings.
pub fn concat4(a: &str, b: &str, c: &str, d: &str) -> (res: String)
    ensures
        res@ == a@ + b@ + c@ + d@,
{
    let mut out: Vec<char> = Vec::new();
    push_str(&mut out, a);
    push_str(&mut out, b);
    push_str(&mut out, c);
    push_str(&mut out, d);
    string_from_chars(out.as_slice())
}

/// The characters of `pieces`, one after another.
pub open spec fn concat_all(pieces: Seq<&str>) -> Seq<char>
    decreases pieces.len(),
{
    if pieces.len() == 0 {
        Seq::empty()
    } else {
        concat_all(pieces.drop_last()) + pieces.last()@
    }
}

/// `word` occurs in `text`.
pub open spec fn mentions(text: Seq<char>, word: Seq<char>) -> bool {
    exists|i: int| 0 <= i <= text.len() - word.len() && #[trigger] text.subrange(i, i + word.len()) == word
}

/// Joining two runs of pieces joins their characters.
pub proof fn lemma_concat_all_append(a: Seq<&str>, b: Seq<&str>)
    ensures
        concat_all(a + b) == concat_all(a) + concat_all(b),
    decreases b.len(),
{
    if b.len() == 0 {
        assert(a + b =~= a);
        assert(concat_all(a) + concat_all(b) =~= concat_all(a));
    } else {
        assert((a + b).drop_last() =~= a + b.drop_last());
        lemma_concat_all_append(a, b.drop_last());
        assert(concat_all(a + b) =~= concat_all(a) + concat_all(b));
    }
}

/// The pieces `lo..hi` of a message, joined, occur in the joined message.
pub proof fn lemma_mentions_pieces(pieces: Seq<&str>, lo: int, hi: int)
    requires
        0 <= lo <= hi <= pieces.len(),
    ensures
        mentions(concat_all(pieces), concat_all(pieces.subrange(lo, hi))),
{
    let head = pieces.subrange(0, lo);
    let mid = pieces.subrange(lo, hi);
    let tail = pieces.subrange(hi, pieces.len() as int);
    assert(pieces =~= head + mid + tail);
    lemma_concat_all_append(head + mid, tail);
    lemma_concat_all_append(head, mid);
    let text = concat_all(pieces);
    let word = concat_all(mid);
    let i = concat_all(head).len() as int;
    assert(text == concat_all(head) + word + concat_all(tail));
    assert(text.subrange(i, i + word.len()) =~= word);
}

/// One piece, joined.
pub proof fn lemma_concat_all_one(a: &str)
    ensures
        concat_all(seq![a]) == a@,
{
    let s1 = seq![a];
    let s0 = Seq::<&str>::empty();
    assert(s1.drop_last() =~= s0);
    assert(concat_all(s0) == Seq::<char>::empty());
    assert(concat_all(s1) == concat_all(s0) + a@);
    assert(concat_all(s1) =~= a@);
}

/// Three pieces, joined.
pub proof fn lemma_concat_all_three(a: &str, b: &str, c: &str)
    ensures
        concat_all(seq![a, b, c]) == a@ + b@ + c@,
{
    let s = seq![a, b, c];
    let s2 = seq![a, b];
    let s1 = seq![a];
    let s0 = Seq::<&str>::empty();
    assert(s.drop_last() =~= s2);
    assert(s2.drop_last() =~= s1);
    assert(s1.drop_last() =~= s0);
    assert(concat_all(s0) == Seq::<char>::empty());
    assert(concat_all(s1) == concat_all(s0) + a@);
    assert(concat_all(s1) =~= a@);
    assert(concat_all(s2) == concat_all(s1) + b@);
    assert(concat_all(s) == concat_all(s2) + c@);
}

/// A path every host reads as one plain file name: nonempty, without a slash,
/// a backslash or a colon, and neither `.` nor `..`.
pub open spec fn plain_file_name(path: Seq<char>) -> bool {
    &&& path.len() > 0
    &&& forall|i: int| 0 <= i < path.len() ==> #[trigger] path[i] != '/' && path[i] != '\\' && path[i] != ':'
    &&& path != "."@
    &&& path != ".."@
}

/// The final component of `path` as the host reads paths
/// (`Path::new(path).file_name()`, as UTF-8 text). Which characters separate
/// components, and which prefixes a path may carry, depend on the host, so only
/// what holds on every host is stated: a plain file name is its own final
/// component.
#[verifier::external_body]
pub(crate) fn host_file_name(path: &str) -> (res: Option<String>)
    ensures
        plain_file_name(path@) ==> res is Some && res->0@ == path@,
{
    std::path::Path::new(path).file_name().and_then(|name| name.to_str()).map(|name| name.to_owned())
}

/// Concatenates `pieces`, in order.
pub fn joined(pieces: &[&str]) -> (res: String)
    ensures
        res@ == concat_all(pieces@),
{
    let mut out: Vec<char> = Vec::new();
    let mut i: usize = 0;
    while i < pieces.len()
        invariant
            0 <= i <= pieces.len(),
            out@ == concat_all(pieces@.subrange(0, i as int)),
        decreases pieces.len() - i,
    {
        push_str(&mut out, pieces[i]);
        i = i + 1;
        proof {
            assert(pieces@.subrange(0, i as int).drop_last() =~= pieces@.subrange(0, i - 1));
        }
    }
    proof {
        assert(pieces@.subrange(0, pieces@.len() as int) =~= pieces@);
    }
    string_from_chars(out.as_slice())
}

/// A byte's hexadecimal digits, padded to two, are exactly two.
pub proof fn lemma_hex_byte_digits(b: u8)
    ensures
        zero_padded(hex_lower(b as nat), 2).len() == 2,
{
    if b < 16 {
        assert(hex_lower(b as nat).len() == 1);
    } else {
        assert(hex_lower((b / 16) as nat).len() == 1);
        assert(hex_lower(b as nat) == hex_lower((b / 16) as nat).push(hex_char((b % 16) as nat)));
    }
}

} // verus!
