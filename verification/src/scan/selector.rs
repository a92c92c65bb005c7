//! Textual matching used by scope selectors: ASCII case-insensitive comparison,
//! the file-name component of an image path, and the `|`-separated tokens of a
//! protection rendering.

use vstd::prelude::*;

use crate::scan::pattern::is_unicode_whitespace;
use crate::text::str_chars;

verus! {

/// The code of `c` with ASCII upper-case letters folded to lower case.
pub open spec fn folded(c: char) -> u32 {
    if 65 <= c as u32 && c as u32 <= 90 {
        (c as u32 + 32) as u32
    } else {
        c as u32
    }
}

/// `str::eq_ignore_ascii_case`.
pub open spec fn equal_ignoring_ascii_case(a: Seq<char>, b: Seq<char>) -> bool {
    &&& a.len() == b.len()
    &&& forall|i: int| 0 <= i < a.len() ==> #[trigger] folded(a[i]) == folded(b[i])
}

/// A path separator of either platform.
pub open spec fn is_path_separator(c: char) -> bool {
    c == '\\' || c == '/'
}

/// The text after the last path separator of `path` (all of it when it has none).
pub open spec fn file_name(path: Seq<char>) -> Seq<char>
    decreases path.len(),
{
    if path.len() == 0 {
        path
    } else if is_path_separator(path.last()) {
        Seq::empty()
    } else {
        file_name(path.drop_last()).push(path.last())
    }
}

/// The pieces of `s` between `|` separators, in order (one piece when it has none).
pub open spec fn bar_pieces(s: Seq<char>) -> Seq<Seq<char>>
    decreases s.len(),
{
    if s.len() == 0 {
        seq![Seq::empty()]
    } else {
        let prev = bar_pieces(s.drop_last());
        if s.last() == '|' {
            prev.push(Seq::empty())
        } else {
            prev.update(prev.len() - 1, prev.last().push(s.last()))
        }
    }
}

/// `s` without its leading whitespace.
pub open spec fn trim_start(s: Seq<char>) -> Seq<char>
    decreases s.len(),
{
    if s.len() > 0 && is_unicode_whitespace(s[0]) {
        trim_start(s.drop_first())
    } else {
        s
    }
}

/// `s` without its trailing whitespace.
pub open spec fn trim_end(s: Seq<char>) -> Seq<char>
    decreases s.len(),
{
    if s.len() > 0 && is_unicode_whitespace(s.last()) {
        trim_end(s.drop_last())
    } else {
        s
    }
}

/// `str::trim`.
pub open spec fn trimmed(s: Seq<char>) -> Seq<char> {
    trim_end(trim_start(s))
}

/// The protection tokens of a rendering: its `|`-separated pieces, trimmed.
pub open spec fn protection_tokens(s: Seq<char>) -> Seq<Seq<char>> {
    bar_pieces(s).map_values(|p: Seq<char>| trimmed(p))
}

proof fn lemma_bar_pieces_nonempty(s: Seq<char>)
    ensures
        bar_pieces(s).len() >= 1,
    decreases s.len(),
{
    if s.len() > 0 {
        lemma_bar_pieces_nonempty(s.drop_last());
    }
}

fn fold_char(c: char) -> (res: u32)
    ensures
        res == folded(c),
{
    let v = c as u32;
    if 65 <= v && v <= 90 {
        v + 32
    } else {
        v
    }
}

pub fn chars_equal_ignoring_ascii_case(a: &Vec<char>, b: &Vec<char>) -> (res: bool)
    ensures
        res == equal_ignoring_ascii_case(a@, b@),
{
    if a.len() != b.len() {
        return false;
    }
    let mut i: usize = 0;
    while i < a.len()
        invariant
            a@.len() == b@.len(),
            0 <= i <= a.len(),
            forall|k: int| 0 <= k < i ==> #[trigger] folded(a@[k]) == folded(b@[k]),
        decreases a.len() - i,
    {
        if fold_char(a[i]) != fold_char(b[i]) {
            return false;
        }
        i = i + 1;
    }
    true
}

/// `a.eq_ignore_ascii_case(b)`.
pub fn eq_ignore_ascii_case(a: &str, b: &str) -> (res: bool)
    ensures
        res == equal_ignoring_ascii_case(a@, b@),
{
    let a = str_chars(a);
    let b = str_chars(b);
    chars_equal_ignoring_ascii_case(&a, &b)
}

/// The file-name component of `path`.
pub fn file_name_chars(path: &str) -> (res: Vec<char>)
    ensures
        res@ == file_name(path@),
{
    let chars = str_chars(path);
    let mut current: Vec<char> = Vec::new();
    let mut i: usize = 0;
    while i < chars.len()
        invariant
            chars@ == path@,
            0 <= i <= chars.len(),
            current@ == file_name(path@.subrange(0, i as int)),
        decreases chars.len() - i,
    {
        let c = chars[i];
        proof {
            assert(path@.subrange(0, i as int + 1).drop_last() =~= path@.subrange(0, i as int));
        }
        if c == '\\' || c == '/' {
            current = Vec::new();
        } else {
            current.push(c);
        }
        i = i + 1;
    }
    proof {
        assert(path@.subrange(0, path@.len() as int) =~= path@);
    }
    current
}

proof fn lemma_trim_start_skip(s: Seq<char>, i: int)
    requires
        0 <= i <= s.len(),
        forall|k: int| 0 <= k < i ==> #[trigger] is_unicode_whitespace(s[k]),
    ensures
        trim_start(s) == trim_start(s.subrange(i, s.len() as int)),
    decreases i,
{
    if i > 0 {
        assert(s.drop_first().subrange(i - 1, s.drop_first().len() as int) =~= s.subrange(i, s.len() as int));
        assert forall|k: int| 0 <= k < i - 1 implies #[trigger] is_unicode_whitespace(s.drop_first()[k]) by {
            assert(s.drop_first()[k] == s[k + 1]);
        }
        lemma_trim_start_skip(s.drop_first(), i - 1);
    } else {
        assert(s.subrange(0, s.len() as int) =~= s);
    }
}

proof fn lemma_trim_end_skip(s: Seq<char>, j: int)
    requires
        0 <= j <= s.len(),
        forall|k: int| j <= k < s.len() ==> #[trigger] is_unicode_whitespace(s[k]),
    ensures
        trim_end(s) == trim_end(s.subrange(0, j)),
    decreases s.len() - j,
{
    if j < s.len() {
        assert(s.drop_last().subrange(0, j) =~= s.subrange(0, j));
        lemma_trim_end_skip(s.drop_last(), j);
    } else {
        assert(s.subrange(0, j) =~= s);
    }
}

/// `s.trim()`, as characters.
pub fn trim_chars(s: &Vec<char>) -> (res: Vec<char>)
    ensures
        res@ == trimmed(s@),
{
    let mut i: usize = 0;
    while i < s.len() && crate::scan::pattern::char_is_whitespace(s[i])
        invariant
            0 <= i <= s.len(),
            forall|k: int| 0 <= k < i ==> #[trigger] is_unicode_whitespace(s@[k]),
        decreases s.len() - i,
    {
        i = i + 1;
    }
    let mut j: usize = s.len();
    while j > i && crate::scan::pattern::char_is_whitespace(s[j - 1])
        invariant
            i <= j <= s.len(),
            forall|k: int| j <= k < s.len() ==> #[trigger] is_unicode_whitespace(s@[k]),
        decreases j,
    {
        j = j - 1;
    }
    proof {
        let rest = s@.subrange(i as int, s@.len() as int);
        lemma_trim_start_skip(s@, i as int);
        assert(trim_start(rest) == rest);
        assert forall|k: int| j - i <= k < rest.len() implies #[trigger] is_unicode_whitespace(rest[k]) by {
            assert(rest[k] == s@[k + i]);
        }
        lemma_trim_end_skip(rest, j - i);
        assert(rest.subrange(0, j - i) =~= s@.subrange(i as int, j as int));
        let core = s@.subrange(i as int, j as int);
        if core.len() > 0 {
            assert(core.last() == s@[j - 1]);
        }
    }
    let mut out: Vec<char> = Vec::new();
    let mut k: usize = i;
    while k < j
        invariant
            i <= k <= j,
            j <= s.len(),
            out@ == s@.subrange(i as int, k as int),
        decreases j - k,
    {
        out.push(s[k]);
        k = k + 1;
        proof {
            assert(out@ =~= s@.subrange(i as int, k as int));
        }
    }
    out
}

/// The protection tokens of `rendering`: its `|`-separated pieces, trimmed.
pub fn protection_token_list(rendering: &str) -> (res: Vec<Vec<char>>)
    ensures
        res@.len() == protection_tokens(rendering@).len(),
        forall|k: int| 0 <= k < res@.len() ==> #[trigger] res@[k]@ == protection_tokens(rendering@)[k],
{
    let chars = str_chars(rendering);
    let mut pieces: Vec<Vec<char>> = Vec::new();
    let mut current: Vec<char> = Vec::new();
    let mut i: usize = 0;
    while i < chars.len()
        invariant
            chars@ == rendering@,
            0 <= i <= chars.len(),
            pieces@.len() + 1 == bar_pieces(rendering@.subrange(0, i as int)).len(),
            forall|k: int| 0 <= k < pieces@.len() ==> #[trigger] pieces@[k]@ == bar_pieces(rendering@.subrange(0, i as int))[k],
            current@ == bar_pieces(rendering@.subrange(0, i as int)).last(),
        decreases chars.len() - i,
    {
        let c = chars[i];
        proof {
            let next = rendering@.subrange(0, i as int + 1);
            assert(next.drop_last() =~= rendering@.subrange(0, i as int));
            lemma_bar_pieces_nonempty(next.drop_last());
        }
        if c == '|' {
            pieces.push(current);
            current = Vec::new();
        } else {
            current.push(c);
        }
        i = i + 1;
    }
    proof {
        assert(rendering@.subrange(0, rendering@.len() as int) =~= rendering@);
        lemma_bar_pieces_nonempty(rendering@);
    }
    pieces.push(current);
    let mut tokens: Vec<Vec<char>> = Vec::new();
    let mut k: usize = 0;
    while k < pieces.len()
        invariant
            0 <= k <= pieces@.len(),
            pieces@.len() == bar_pieces(rendering@).len(),
            forall|m: int| 0 <= m < pieces@.len() ==> #[trigger] pieces@[m]@ == bar_pieces(rendering@)[m],
            tokens@.len() == k,
            forall|m: int| 0 <= m < k ==> #[trigger] tokens@[m]@ == protection_tokens(rendering@)[m],
        decreases pieces@.len() - k,
    {
        let t = trim_chars(&pieces[k]);
        tokens.push(t);
        k = k + 1;
    }
    tokens
}

/// A path's file name is the text after its last `/` or `\\`: a name with
/// neither, after either separator, is the file name, whatever comes before.
pub proof fn file_name_follows_last_separator(prefix: Seq<char>, separator: char, name: Seq<char>)
    requires
        separator == '/' || separator == '\\',
        forall|i: int| 0 <= i < name.len() ==> #[trigger] name[i] != '/' && name[i] != '\\',
    ensures
        file_name(prefix.push(separator) + name) == name,
    decreases name.len(),
{
    let path = prefix.push(separator) + name;
    if name.len() == 0 {
        assert(path =~= prefix.push(separator));
    } else {
        file_name_follows_last_separator(prefix, separator, name.drop_last());
        assert(path.drop_last() =~= prefix.push(separator) + name.drop_last());
        assert(path.last() == name.last());
        assert(file_name(path) =~= name);
    }
}

} // verus!
