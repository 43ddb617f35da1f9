//! Reading and writing the per-language key files: a restricted JSON
//! codec for one flat object whose values are strings or `null`.  The
//! writer produces the exact pretty-printed form the tool always used
//! (two-space indent, one entry per line); the reader accepts any JSON
//! text of that shape.

use vstd::prelude::*;

use crate::tmap::{map_wf, EntryV, TranslationMap};

verus! {

// ------------------------------------------------------------------
// Rendering
// ------------------------------------------------------------------

/// The lower-case hexadecimal digit for `d`.
pub open spec fn hex_digit(d: int) -> char {
    if d == 0 {
        '0'
    } else if d == 1 {
        '1'
    } else if d == 2 {
        '2'
    } else if d == 3 {
        '3'
    } else if d == 4 {
        '4'
    } else if d == 5 {
        '5'
    } else if d == 6 {
        '6'
    } else if d == 7 {
        '7'
    } else if d == 8 {
        '8'
    } else if d == 9 {
        '9'
    } else if d == 10 {
        'a'
    } else if d == 11 {
        'b'
    } else if d == 12 {
        'c'
    } else if d == 13 {
        'd'
    } else if d == 14 {
        'e'
    } else {
        'f'
    }
}

/// How one character appears inside a JSON string literal: quotes and
/// backslashes are escaped, control characters take their short escape
/// or a `\u00..` escape, and everything else stands as itself.
pub open spec fn escape_char(c: char) -> Seq<char> {
    if c == '"' {
        seq!['\\', '"']
    } else if c == '\\' {
        seq!['\\', '\\']
    } else if c == '\u{8}' {
        seq!['\\', 'b']
    } else if c == '\u{c}' {
        seq!['\\', 'f']
    } else if c == '\n' {
        seq!['\\', 'n']
    } else if c == '\r' {
        seq!['\\', 'r']
    } else if c == '\t' {
        seq!['\\', 't']
    } else if (c as u32) < 0x20 {
        seq!['\\', 'u', '0', '0', hex_digit((c as u32) as int / 16), hex_digit((c as u32) as int % 16)]
    } else {
        seq![c]
    }
}

/// The body of a JSON string literal for `s`.
pub open spec fn escape_string(s: Seq<char>) -> Seq<char>
    decreases s.len(),
{
    if s.len() == 0 {
        Seq::empty()
    } else {
        escape_string(s.drop_last()) + escape_char(s.last())
    }
}

/// A complete JSON string literal for `s`.
pub open spec fn render_string(s: Seq<char>) -> Seq<char> {
    seq!['"'] + escape_string(s) + seq!['"']
}

/// A JSON value: a string literal, or `null` for a placeholder.
pub open spec fn render_value(v: Option<Seq<char>>) -> Seq<char> {
    match v {
        Some(s) => render_string(s),
        None => seq!['n', 'u', 'l', 'l'],
    }
}

/// One pretty-printed entry line, without its separator.
pub open spec fn render_entry(e: EntryV) -> Seq<char> {
    seq![' ', ' '] + render_string(e.0) + seq![':', ' '] + render_value(e.1)
}

/// All entry lines, joined by `,\n`.
pub open spec fn render_entries(m: Seq<EntryV>) -> Seq<char>
    decreases m.len(),
{
    if m.len() == 0 {
        Seq::empty()
    } else if m.len() == 1 {
        render_entry(m[0])
    } else {
        render_entries(m.drop_last()) + seq![',', '\n'] + render_entry(m.last())
    }
}

/// The pretty-printed JSON object for a whole map view.
pub open spec fn render_map(m: Seq<EntryV>) -> Seq<char> {
    if m.len() == 0 {
        seq!['{', '}']
    } else {
        seq!['{', '\n'] + render_entries(m) + seq!['\n', '}']
    }
}

/// Relies on `String`'s `FromIterator<char>`: collecting characters
/// yields the string made of exactly those characters, in order.
#[verifier::external_body]
pub(crate) fn chars_to_string(v: &Vec<char>) -> (r: String)
    ensures
        r@ == v@,
{
    v.iter().collect()
}

/// Turn a string into its characters, in order.
pub(crate) fn string_chars(s: &String) -> (r: Vec<char>)
    ensures
        r@ == s@,
{
    let text = s.as_str();
    let n = text.unicode_len();
    let mut r: Vec<char> = Vec::new();
    let mut i: usize = 0;
    while i < n
        invariant
            n == text@.len(),
            text@ == s@,
            i <= n,
            r@ == s@.take(i as int),
        decreases n - i,
    {
        r.push(text.get_char(i));
        proof {
            assert(r@ =~= s@.take(i + 1 as int));
        }
        i += 1;
    }
    proof {
        assert(s@.take(n as int) =~= s@);
    }
    r
}

/// Append every character of `s`.
pub(crate) fn push_str_chars(out: &mut Vec<char>, s: &str)
    ensures
        final(out)@ == old(out)@ + s@,
{
    let ghost o0 = out@;
    let n = s.unicode_len();
    let mut i: usize = 0;
    proof {
        assert(out@ =~= o0 + s@.take(0));
    }
    while i < n
        invariant
            n == s@.len(),
            i <= n,
            out@ == o0 + s@.take(i as int),
        decreases n - i,
    {
        out.push(s.get_char(i));
        proof {
            assert(out@ =~= o0 + s@.take(i + 1 as int));
        }
        i += 1;
    }
    proof {
        assert(s@.take(n as int) =~= s@);
    }
}

/// The lower-case hexadecimal digit character for `d`.
fn hex_digit_exec(d: u32) -> (c: char)
    requires
        d < 16,
    ensures
        c == hex_digit(d as int),
{
    if d == 0 {
        '0'
    } else if d == 1 {
        '1'
    } else if d == 2 {
        '2'
    } else if d == 3 {
        '3'
    } else if d == 4 {
        '4'
    } else if d == 5 {
        '5'
    } else if d == 6 {
        '6'
    } else if d == 7 {
        '7'
    } else if d == 8 {
        '8'
    } else if d == 9 {
        '9'
    } else if d == 10 {
        'a'
    } else if d == 11 {
        'b'
    } else if d == 12 {
        'c'
    } else if d == 13 {
        'd'
    } else if d == 14 {
        'e'
    } else {
        'f'
    }
}

/// Append the escaped form of one character.
fn push_escaped_char(out: &mut Vec<char>, c: char)
    ensures
        final(out)@ == old(out)@ + escape_char(c),
{
    let ghost o0 = out@;
    if c == '"' {
        out.push('\\');
        out.push('"');
    } else if c == '\\' {
        out.push('\\');
        out.push('\\');
    } else if c == '\u{8}' {
        out.push('\\');
        out.push('b');
    } else if c == '\u{c}' {
        out.push('\\');
        out.push('f');
    } else if c == '\n' {
        out.push('\\');
        out.push('n');
    } else if c == '\r' {
        out.push('\\');
        out.push('r');
    } else if c == '\t' {
        out.push('\\');
        out.push('t');
    } else if (c as u32) < 0x20 {
        out.push('\\');
        out.push('u');
        out.push('0');
        out.push('0');
        out.push(hex_digit_exec((c as u32) / 16));
        out.push(hex_digit_exec((c as u32) % 16));
    } else {
        out.push(c);
    }
    proof {
        assert(out@ =~= o0 + escape_char(c));
    }
}

/// Append a complete JSON string literal for `s`.
pub(crate) fn push_string_literal(out: &mut Vec<char>, s: &String)
    ensures
        final(out)@ == old(out)@ + render_string(s@),
{
    let ghost o0 = out@;
    out.push('"');
    let chars = string_chars(s);
    let n = chars.len();
    let mut i: usize = 0;
    proof {
        assert(escape_string(s@.take(0)) =~= Seq::<char>::empty());
        assert(out@ =~= o0 + seq!['"'] + escape_string(s@.take(0)));
    }
    while i < n
        invariant
            n == chars@.len(),
            chars@ == s@,
            i <= n,
            out@ == o0 + seq!['"'] + escape_string(s@.take(i as int)),
        decreases n - i,
    {
        push_escaped_char(out, chars[i]);
        proof {
            let post = s@.take(i + 1 as int);
            assert(post.drop_last() =~= s@.take(i as int));
            assert(post.last() == s@[i as int]);
            assert(out@ =~= o0 + seq!['"'] + escape_string(post));
        }
        i += 1;
    }
    out.push('"');
    proof {
        assert(s@.take(n as int) =~= s@);
        assert(out@ =~= o0 + render_string(s@));
    }
}

/// Append a JSON value: a string literal or `null`.
fn push_value(out: &mut Vec<char>, v: &Option<String>)
    ensures
        final(out)@ == old(out)@ + render_value(match v {
            Some(s) => Some(s@),
            None => None,
        }),
{
    let ghost o0 = out@;
    match v {
        Some(s) => {
            push_string_literal(out, s);
        },
        None => {
            out.push('n');
            out.push('u');
            out.push('l');
            out.push('l');
            proof {
                assert(out@ =~= o0 + seq!['n', 'u', 'l', 'l']);
            }
        },
    }
}

/// Serialize a translation map to its pretty-printed JSON text: the
/// exact bytes that are written back to a `<language>.json` file.
#[verifier::rlimit(50)]
pub fn map_to_json(m: &TranslationMap) -> (r: String)
    ensures
        r@ == render_map(m@),
{
    let ghost mv = m@;
    let mut out: Vec<char> = Vec::new();
    let n = m.len();
    if n == 0 {
        out.push('{');
        out.push('}');
        proof {
            assert(out@ =~= render_map(mv));
        }
        return chars_to_string(&out);
    }
    out.push('{');
    out.push('\n');
    let mut i: usize = 0;
    proof {
        assert(render_entries(mv.take(0)) =~= Seq::<char>::empty());
        assert(out@ =~= seq!['{', '\n'] + render_entries(mv.take(0)));
    }
    while i < n
        invariant
            n == mv.len(),
            mv == m@,
            0 < n,
            i <= n,
            out@ == seq!['{', '\n'] + render_entries(mv.take(i as int)),
        decreases n - i,
    {
        let ghost pre = mv.take(i as int);
        let ghost post = mv.take(i + 1 as int);
        if i > 0 {
            out.push(',');
            out.push('\n');
        }
        let (k, v) = m.entry_at(i);
        assert(crate::tmap::entry_v((k, v)) == mv[i as int]);
        out.push(' ');
        out.push(' ');
        push_string_literal(&mut out, &k);
        out.push(':');
        out.push(' ');
        push_value(&mut out, &v);
        proof {
            assert(post.drop_last() =~= pre);
            assert(post.last() == mv[i as int]);
            assert(render_value(match v {
                Some(ref s) => Some(s@),
                None => None,
            }) == render_value(mv[i as int].1));
            if i == 0 {
                assert(render_entries(post) == render_entry(mv[0]));
                assert(out@ =~= seq!['{', '\n'] + render_entries(post));
            } else {
                assert(render_entries(post) == render_entries(pre) + seq![',', '\n'] + render_entry(
                    mv[i as int],
                ));
                assert(out@ =~= seq!['{', '\n'] + render_entries(post));
            }
        }
        i += 1;
    }
    out.push('\n');
    out.push('}');
    proof {
        assert(mv.take(n as int) =~= mv);
        assert(out@ =~= render_map(mv));
    }
    chars_to_string(&out)
}

// ------------------------------------------------------------------
// Parsing: the grammar
// ------------------------------------------------------------------

/// JSON whitespace.
pub open spec fn is_ws(c: char) -> bool {
    c == ' ' || c == '\t' || c == '\n' || c == '\r'
}

/// The first position at or after `i` that does not hold whitespace.
pub open spec fn skip_ws(s: Seq<char>, i: int) -> int
    decreases s.len() - i when 0 <= i <= s.len()
{
    if i < s.len() && is_ws(s[i]) {
        skip_ws(s, i + 1)
    } else {
        i
    }
}

/// The numeric value of a hexadecimal digit, or -1.
pub open spec fn hex_value(c: char) -> int {
    if '0' <= c && c <= '9' {
        c as int - '0' as int
    } else if 'a' <= c && c <= 'f' {
        10 + c as int - 'a' as int
    } else if 'A' <= c && c <= 'F' {
        10 + c as int - 'A' as int
    } else {
        -1
    }
}

/// Four hexadecimal digits at `i`: their value and the next position.
pub open spec fn parse_hex4(s: Seq<char>, i: int) -> Option<(int, int)> {
    if 0 <= i && i + 4 <= s.len() && hex_value(s[i]) >= 0 && hex_value(s[i + 1]) >= 0 && hex_value(
        s[i + 2],
    ) >= 0 && hex_value(s[i + 3]) >= 0 {
        Some(
            (
                4096 * hex_value(s[i]) + 256 * hex_value(s[i + 1]) + 16 * hex_value(s[i + 2])
                    + hex_value(s[i + 3]),
                i + 4,
            ),
        )
    } else {
        None
    }
}

/// One escape sequence, `i` pointing just after the backslash: the
/// decoded characters and the next position.  Surrogate pairs in
/// `\u` escapes are combined; lone surrogates are rejected.
pub open spec fn parse_escape(s: Seq<char>, i: int) -> Option<(Seq<char>, int)> {
    if i < 0 || i >= s.len() {
        None
    } else {
        let c = s[i];
        if c == '"' {
            Some((seq!['"'], i + 1))
        } else if c == '\\' {
            Some((seq!['\\'], i + 1))
        } else if c == '/' {
            Some((seq!['/'], i + 1))
        } else if c == 'b' {
            Some((seq!['\u{8}'], i + 1))
        } else if c == 'f' {
            Some((seq!['\u{c}'], i + 1))
        } else if c == 'n' {
            Some((seq!['\n'], i + 1))
        } else if c == 'r' {
            Some((seq!['\r'], i + 1))
        } else if c == 't' {
            Some((seq!['\t'], i + 1))
        } else if c == 'u' {
            match parse_hex4(s, i + 1) {
                Some((v, j)) => {
                    if v < 0xD800 || v >= 0xE000 {
                        Some((seq![v as char], j))
                    } else if v < 0xDC00 {
                        if s.len() - j >= 2 && s[j] == '\\' && s[j + 1] == 'u' {
                            match parse_hex4(s, j + 2) {
                                Some((w, k)) => {
                                    if 0xDC00 <= w && w < 0xE000 {
                                        Some(
                                            (
                                                seq![
                                                    (0x10000 + (v - 0xD800) * 0x400 + (w
                                                        - 0xDC00)) as char
                                                ],
                                                k,
                                            ),
                                        )
                                    } else {
                                        None
                                    }
                                },
                                None => None,
                            }
                        } else {
                            None
                        }
                    } else {
                        None
                    }
                },
                None => None,
            }
        } else {
            None
        }
    }
}

/// The rest of a string literal starting at `i` (just after the opening
/// quote or after the previously decoded piece): the decoded characters
/// and the position after the closing quote.  Unescaped control
/// characters are rejected.
pub open spec fn parse_string_body(s: Seq<char>, i: int) -> Option<(Seq<char>, int)>
    decreases s.len() - i when 0 <= i <= s.len()
{
    if i >= s.len() {
        None
    } else if s[i] == '"' {
        Some((Seq::empty(), i + 1))
    } else if s[i] == '\\' {
        match parse_escape(s, i + 1) {
            Some((cs, j)) => {
                if i + 1 < j && j <= s.len() {
                    match parse_string_body(s, j) {
                        Some((rest, k)) => Some((cs + rest, k)),
                        None => None,
                    }
                } else {
                    None
                }
            },
            None => None,
        }
    } else if (s[i] as u32) < 0x20 {
        None
    } else {
        match parse_string_body(s, i + 1) {
            Some((rest, k)) => Some((seq![s[i]] + rest, k)),
            None => None,
        }
    }
}

/// Whether the four characters at `j` spell `null`.
pub open spec fn is_null_at(s: Seq<char>, j: int) -> bool {
    j + 4 <= s.len() && s[j] == 'n' && s[j + 1] == 'u' && s[j + 2] == 'l' && s[j + 3] == 'l'
}

/// One `"key": value` member starting at `i`: the parsed pair and the
/// next position.
pub open spec fn parse_member(s: Seq<char>, i: int) -> Option<
    ((Seq<char>, Option<Seq<char>>), int),
> {
    if 0 <= i && i < s.len() && s[i] == '"' {
        match parse_string_body(s, i + 1) {
            Some((key, j)) => {
                if j <= s.len() {
                    let c = skip_ws(s, j);
                    if c < s.len() && s[c] == ':' {
                        let v = skip_ws(s, c + 1);
                        if v < s.len() && s[v] == '"' {
                            match parse_string_body(s, v + 1) {
                                Some((text, k)) => Some(((key, Some(text)), k)),
                                None => None,
                            }
                        } else if is_null_at(s, v) {
                            Some(((key, None), v + 4))
                        } else {
                            None
                        }
                    } else {
                        None
                    }
                } else {
                    None
                }
            },
            None => None,
        }
    } else {
        None
    }
}

/// The members after the first one, `i` pointing where either `,` or
/// `}` must follow: the remaining pairs and the position after the
/// closing brace.
pub open spec fn parse_more_members(s: Seq<char>, i: int) -> Option<
    (Seq<(Seq<char>, Option<Seq<char>>)>, int),
>
    decreases s.len() - i when 0 <= i <= s.len()
{
    let j = skip_ws(s, i);
    if j < i || j > s.len() {
        None
    } else if j < s.len() && s[j] == '}' {
        Some((Seq::empty(), j + 1))
    } else if j < s.len() && s[j] == ',' {
        let k = skip_ws(s, j + 1);
        if k < j + 1 || k > s.len() {
            None
        } else {
            match parse_member(s, k) {
                Some((kv, l)) => {
                    if k < l && l <= s.len() {
                        match parse_more_members(s, l) {
                            Some((rest, end)) => Some((seq![kv] + rest, end)),
                            None => None,
                        }
                    } else {
                        None
                    }
                },
                None => None,
            }
        }
    } else {
        None
    }
}

/// A whole text as one JSON object of string-or-null members: the pair
/// list in source order, or nothing if the text is not of that shape.
pub open spec fn parse_object(s: Seq<char>) -> Option<Seq<(Seq<char>, Option<Seq<char>>)>> {
    let i = skip_ws(s, 0);
    if 0 <= i && i < s.len() && s[i] == '{' {
        let j = skip_ws(s, i + 1);
        if j < i + 1 || j > s.len() {
            None
        } else if j < s.len() && s[j] == '}' {
            if skip_ws(s, j + 1) == s.len() {
                Some(Seq::empty())
            } else {
                None
            }
        } else {
            match parse_member(s, j) {
                Some((kv, l)) => {
                    if j < l && l <= s.len() {
                        match parse_more_members(s, l) {
                            Some((rest, end)) => {
                                if end <= s.len() && skip_ws(s, end) == s.len() {
                                    Some(seq![kv] + rest)
                                } else {
                                    None
                                }
                            },
                            None => None,
                        }
                    } else {
                        None
                    }
                },
                None => None,
            }
        }
    } else {
        None
    }
}

// ------------------------------------------------------------------
// From pair list to map: the ordered-map insert rule
// ------------------------------------------------------------------

/// Inserting one pair: an existing key keeps its position and takes the
/// new value; a new key is appended.
pub open spec fn insert_entry(m: Seq<EntryV>, e: EntryV) -> Seq<EntryV>
    decreases m.len(),
{
    if m.len() == 0 {
        seq![e]
    } else if m[0].0 == e.0 {
        seq![e] + m.drop_first()
    } else {
        seq![m[0]] + insert_entry(m.drop_first(), e)
    }
}

/// Folding a pair list into a map, later pairs overriding earlier ones.
pub open spec fn entries_to_map(list: Seq<(Seq<char>, Option<Seq<char>>)>) -> Seq<EntryV>
    decreases list.len(),
{
    if list.len() == 0 {
        Seq::empty()
    } else {
        insert_entry(entries_to_map(list.drop_last()), list.last())
    }
}

/// What a whole key-file text denotes: the insertion-ordered map of its
/// members, duplicates collapsing onto the first position with the last
/// value.
pub open spec fn parse_map(s: Seq<char>) -> Option<Seq<EntryV>> {
    match parse_object(s) {
        Some(list) => Some(entries_to_map(list)),
        None => None,
    }
}

// ------------------------------------------------------------------
// Parsing: the executable reader
// ------------------------------------------------------------------

/// Relies on `char::from_u32`: defined exactly for code points outside
/// the surrogate range and at most 0x10FFFF, yielding that code point.
#[verifier::external_body]
fn char_from_u32(x: u32) -> (r: Option<char>)
    ensures
        r is Some <==> (x < 0xD800 || (0xE000 <= x && x <= 0x10FFFF)),
        (match r {
            Some(c) => c == (x as char),
            None => true,
        }),
{
    char::from_u32(x)
}

/// Skip JSON whitespace.
fn skip_ws_exec(s: &Vec<char>, i: usize) -> (r: usize)
    requires
        i <= s@.len(),
    ensures
        r == skip_ws(s@, i as int),
        i <= r <= s@.len(),
{
    let n = s.len();
    let mut j = i;
    while j < n && (s[j] == ' ' || s[j] == '\t' || s[j] == '\n' || s[j] == '\r')
        invariant
            i <= j <= n,
            n == s@.len(),
            skip_ws(s@, i as int) == skip_ws(s@, j as int),
        decreases n - j,
    {
        proof {
            assert(skip_ws(s@, j as int) == skip_ws(s@, j + 1 as int));
        }
        j += 1;
    }
    proof {
        assert(skip_ws(s@, j as int) == j as int);
    }
    j
}

/// The value of one hexadecimal digit.
fn hex_value_exec(c: char) -> (r: Option<u32>)
    ensures
        (match r {
            Some(v) => hex_value(c) == v as int && v < 16,
            None => hex_value(c) < 0,
        }),
{
    let u = c as u32;
    if u >= 48 && u <= 57 {
        Some(u - 48)
    } else if u >= 97 && u <= 102 {
        Some(u - 97 + 10)
    } else if u >= 65 && u <= 70 {
        Some(u - 65 + 10)
    } else {
        None
    }
}

/// Four hexadecimal digits.
fn parse_hex4_exec(s: &Vec<char>, i: usize) -> (r: Option<(u32, usize)>)
    requires
        i <= s@.len(),
    ensures
        (match r {
            Some(p) => parse_hex4(s@, i as int) == Some((p.0 as int, p.1 as int)) && p.0 <= 0xFFFF
                && i < p.1 <= s@.len(),
            None => parse_hex4(s@, i as int) is None,
        }),
{
    if s.len() - i >= 4 {
        let d0 = hex_value_exec(s[i]);
        let d1 = hex_value_exec(s[i + 1]);
        let d2 = hex_value_exec(s[i + 2]);
        let d3 = hex_value_exec(s[i + 3]);
        match (d0, d1, d2, d3) {
            (Some(a), Some(b), Some(c), Some(d)) => Some((4096 * a + 256 * b + 16 * c + d, i + 4)),
            _ => None,
        }
    } else {
        None
    }
}

/// One escape sequence, `i` pointing just after the backslash.
fn parse_escape_exec(s: &Vec<char>, i: usize) -> (r: Option<(Vec<char>, usize)>)
    ensures
        (match r {
            Some(p) => parse_escape(s@, i as int) == Some((p.0@, p.1 as int)) && i < p.1
                <= s@.len(),
            None => parse_escape(s@, i as int) is None,
        }),
{
    if i >= s.len() {
        return None;
    }
    let c = s[i];
    let mut out: Vec<char> = Vec::new();
    if c == '"' || c == '\\' || c == '/' {
        out.push(c);
        proof {
            assert(out@ =~= seq![s@[i as int]]);
        }
        return Some((out, i + 1));
    }
    if c == 'b' {
        out.push('\u{8}');
        proof {
            assert(out@ =~= seq!['\u{8}']);
        }
        return Some((out, i + 1));
    }
    if c == 'f' {
        out.push('\u{c}');
        proof {
            assert(out@ =~= seq!['\u{c}']);
        }
        return Some((out, i + 1));
    }
    if c == 'n' {
        out.push('\n');
        proof {
            assert(out@ =~= seq!['\n']);
        }
        return Some((out, i + 1));
    }
    if c == 'r' {
        out.push('\r');
        proof {
            assert(out@ =~= seq!['\r']);
        }
        return Some((out, i + 1));
    }
    if c == 't' {
        out.push('\t');
        proof {
            assert(out@ =~= seq!['\t']);
        }
        return Some((out, i + 1));
    }
    if c != 'u' {
        return None;
    }
    match parse_hex4_exec(s, i + 1) {
        Some((v, j)) => {
            if v < 0xD800 || v >= 0xE000 {
                match char_from_u32(v) {
                    Some(ch) => {
                        out.push(ch);
                        proof {
                            assert(out@ =~= seq![(v as int) as char]);
                        }
                        Some((out, j))
                    },
                    None => {
                        proof {
                            assert(false);
                        }
                        None
                    },
                }
            } else if v < 0xDC00 {
                if s.len() - j >= 2 && s[j] == '\\' && s[j + 1] == 'u' {
                    match parse_hex4_exec(s, j + 2) {
                        Some((w, k)) => {
                            if 0xDC00 <= w && w < 0xE000 {
                                let code = 0x10000 + (v - 0xD800) * 0x400 + (w - 0xDC00);
                                match char_from_u32(code) {
                                    Some(ch) => {
                                        out.push(ch);
                                        proof {
                                            assert(out@ =~= seq![(code as int) as char]);
                                        }
                                        Some((out, k))
                                    },
                                    None => {
                                        proof {
                                            assert(false);
                                        }
                                        None
                                    },
                                }
                            } else {
                                None
                            }
                        },
                        None => None,
                    }
                } else {
                    None
                }
            } else {
                None
            }
        },
        None => None,
    }
}

/// Positions returned by the string-body grammar stay inside the text.
pub proof fn lemma_parse_string_body_bounds(s: Seq<char>, i: int)
    requires
        0 <= i <= s.len(),
    ensures
        (match parse_string_body(s, i) {
            Some(p) => i < p.1 <= s.len(),
            None => true,
        }),
    decreases s.len() - i,
{
    if i >= s.len() {
    } else if s[i] == '"' {
    } else if s[i] == '\\' {
        match parse_escape(s, i + 1) {
            Some(p) => {
                if i + 1 < p.1 && p.1 <= s.len() {
                    lemma_parse_string_body_bounds(s, p.1);
                }
            },
            None => {},
        }
    } else if (s[i] as u32) < 0x20 {
    } else {
        lemma_parse_string_body_bounds(s, i + 1);
    }
}

/// The rest of a string literal, `i` pointing just after the opening
/// quote.
#[verifier::rlimit(30)]
fn parse_string_body_exec(s: &Vec<char>, i: usize) -> (r: Option<(Vec<char>, usize)>)
    requires
        i <= s@.len(),
    ensures
        (match r {
            Some(p) => parse_string_body(s@, i as int) == Some((p.0@, p.1 as int)) && i < p.1
                <= s@.len(),
            None => parse_string_body(s@, i as int) is None,
        }),
{
    let n = s.len();
    let mut cur: usize = i;
    let mut acc: Vec<char> = Vec::new();
    proof {
        lemma_parse_string_body_bounds(s@, i as int);
        match parse_string_body(s@, i as int) {
            Some(p) => {
                assert(acc@ + p.0 =~= p.0);
            },
            None => {},
        }
    }
    while cur < n
        invariant
            i <= cur <= n,
            n == s@.len(),
            (match parse_string_body(s@, cur as int) {
                Some(p) => parse_string_body(s@, i as int) == Some((acc@ + p.0, p.1)),
                None => parse_string_body(s@, i as int) is None,
            }),
        decreases n - cur,
    {
        let ghost cur0 = cur as int;
        let c = s[cur];
        if c == '"' {
            proof {
                assert(parse_string_body(s@, cur0) == Some(
                    (Seq::<char>::empty(), cur0 + 1),
                ));
                assert(acc@ + Seq::<char>::empty() =~= acc@);
            }
            return Some((acc, cur + 1));
        } else if c == '\\' {
            match parse_escape_exec(s, cur + 1) {
                Some((mut cs, j)) => {
                    let ghost cs_v = cs@;
                    let ghost acc0 = acc@;
                    acc.append(&mut cs);
                    proof {
                        lemma_parse_string_body_bounds(s@, j as int);
                        assert(parse_string_body(s@, cur0) == (match parse_string_body(
                            s@,
                            j as int,
                        ) {
                            Some(p) => Some((cs_v + p.0, p.1)),
                            None => None::<(Seq<char>, int)>,
                        }));
                        match parse_string_body(s@, j as int) {
                            Some(p) => {
                                assert(acc0 + (cs_v + p.0) =~= (acc0 + cs_v) + p.0);
                            },
                            None => {},
                        }
                    }
                    cur = j;
                },
                None => {
                    return None;
                },
            }
        } else if (c as u32) < 0x20 {
            return None;
        } else {
            let ghost acc0 = acc@;
            acc.push(c);
            proof {
                assert(parse_string_body(s@, cur0) == (match parse_string_body(
                    s@,
                    cur0 + 1,
                ) {
                    Some(p) => Some((seq![s@[cur0]] + p.0, p.1)),
                    None => None::<(Seq<char>, int)>,
                }));
                match parse_string_body(s@, cur0 + 1) {
                    Some(p) => {
                        assert(acc0 + (seq![s@[cur0]] + p.0) =~= acc@ + p.0);
                    },
                    None => {},
                }
            }
            cur += 1;
        }
    }
    proof {
        assert(parse_string_body(s@, cur as int) is None);
    }
    None
}

/// One `"key": value` member.
fn parse_member_exec(s: &Vec<char>, i: usize) -> (r: Option<((String, Option<String>), usize)>)
    requires
        i <= s@.len(),
    ensures
        (match r {
            Some(p) => parse_member(s@, i as int) == Some(
                (crate::tmap::entry_v(p.0), p.1 as int),
            ) && i < p.1 <= s@.len(),
            None => parse_member(s@, i as int) is None,
        }),
{
    if i >= s.len() || s[i] != '"' {
        return None;
    }
    match parse_string_body_exec(s, i + 1) {
        Some((key, j)) => {
            let c = skip_ws_exec(s, j);
            if c < s.len() && s[c] == ':' {
                let v = skip_ws_exec(s, c + 1);
                if v < s.len() && s[v] == '"' {
                    match parse_string_body_exec(s, v + 1) {
                        Some((text, k)) => Some(
                            ((chars_to_string(&key), Some(chars_to_string(&text))), k),
                        ),
                        None => None,
                    }
                } else if s.len() - v >= 4 && s[v] == 'n' && s[v + 1] == 'u' && s[v + 2] == 'l'
                    && s[v + 3] == 'l' {
                    Some(((chars_to_string(&key), None), v + 4))
                } else {
                    None
                }
            } else {
                None
            }
        },
        None => None,
    }
}

/// The views of an executable pair list.
pub open spec fn pairs_view(list: Seq<(String, Option<String>)>) -> Seq<
    (Seq<char>, Option<Seq<char>>),
> {
    list.map_values(|e: (String, Option<String>)| crate::tmap::entry_v(e))
}

/// Parse a whole text as one JSON object, returning the members in
/// source order.
#[verifier::rlimit(30)]
fn parse_object_exec(s: &Vec<char>) -> (r: Option<Vec<(String, Option<String>)>>)
    ensures
        (match r {
            Some(list) => parse_object(s@) == Some(pairs_view(list@)),
            None => parse_object(s@) is None,
        }),
{
    let n = s.len();
    let i = skip_ws_exec(s, 0);
    if !(i < n && s[i] == '{') {
        return None;
    }
    let j = skip_ws_exec(s, i + 1);
    if j < n && s[j] == '}' {
        let e = skip_ws_exec(s, j + 1);
        if e == n {
            let list: Vec<(String, Option<String>)> = Vec::new();
            proof {
                assert(pairs_view(list@) =~= Seq::<(Seq<char>, Option<Seq<char>>)>::empty());
            }
            return Some(list);
        } else {
            return None;
        }
    }
    match parse_member_exec(s, j) {
        Some((kv, l)) => {
            let mut list: Vec<(String, Option<String>)> = Vec::new();
            list.push(kv);
            let mut cur = l;
            proof {
                assert(parse_object(s@) == (match parse_more_members(s@, l as int) {
                    Some(p) => {
                        if p.1 <= s@.len() && skip_ws(s@, p.1) == s@.len() {
                            Some(pairs_view(list@) + p.0)
                        } else {
                            None::<Seq<(Seq<char>, Option<Seq<char>>)>>
                        }
                    },
                    None => None::<Seq<(Seq<char>, Option<Seq<char>>)>>,
                })) by {
                    assert(pairs_view(list@) =~= seq![crate::tmap::entry_v(list@[0])]);
                    match parse_more_members(s@, l as int) {
                        Some(p) => {
                            assert(pairs_view(list@) + p.0 =~= seq![crate::tmap::entry_v(list@[0])]
                                + p.0);
                        },
                        None => {},
                    }
                }
            }
            while cur < n
                invariant
                    cur <= n,
                    n == s@.len(),
                    (match parse_more_members(s@, cur as int) {
                        Some(p) => parse_object(s@) == (if p.1 <= s@.len() && skip_ws(s@, p.1)
                            == s@.len() {
                            Some(pairs_view(list@) + p.0)
                        } else {
                            None::<Seq<(Seq<char>, Option<Seq<char>>)>>
                        }),
                        None => parse_object(s@) is None,
                    }),
                decreases n - cur,
            {
                let ghost cur0 = cur as int;
                let j2 = skip_ws_exec(s, cur);
                if j2 < n && s[j2] == '}' {
                    let e = skip_ws_exec(s, j2 + 1);
                    proof {
                        assert(parse_more_members(s@, cur0) == Some(
                            (Seq::<(Seq<char>, Option<Seq<char>>)>::empty(), j2 + 1 as int),
                        ));
                        assert(pairs_view(list@) + Seq::<(Seq<char>, Option<Seq<char>>)>::empty()
                            =~= pairs_view(list@));
                    }
                    if e == n {
                        return Some(list);
                    } else {
                        return None;
                    }
                } else if j2 < n && s[j2] == ',' {
                    let k2 = skip_ws_exec(s, j2 + 1);
                    match parse_member_exec(s, k2) {
                        Some((kv2, l2)) => {
                            let ghost list0 = list@;
                            let ghost kv2v = crate::tmap::entry_v(kv2);
                            list.push(kv2);
                            proof {
                                assert(parse_more_members(s@, cur0) == (
                                match parse_more_members(s@, l2 as int) {
                                    Some(p) => Some((seq![kv2v] + p.0, p.1)),
                                    None => None::<(Seq<(Seq<char>, Option<Seq<char>>)>, int)>,
                                }));
                                assert(pairs_view(list@) =~= pairs_view(list0).push(kv2v));
                                match parse_more_members(s@, l2 as int) {
                                    Some(p) => {
                                        assert(pairs_view(list0) + (seq![kv2v] + p.0) =~= pairs_view(
                                            list@,
                                        ) + p.0);
                                    },
                                    None => {},
                                }
                            }
                            cur = l2;
                        },
                        None => {
                            return None;
                        },
                    }
                } else {
                    proof {
                        assert(parse_more_members(s@, cur0) is None);
                    }
                    return None;
                }
            }
            proof {
                assert(skip_ws(s@, cur as int) == cur as int);
                assert(parse_more_members(s@, cur as int) is None);
            }
            None
        },
        None => None,
    }
}

/// `insert_entry` on a present key updates in place.
pub proof fn lemma_insert_entry_at(m: Seq<EntryV>, e: EntryV, idx: int)
    requires
        map_wf(m),
        0 <= idx < m.len(),
        m[idx].0 == e.0,
    ensures
        insert_entry(m, e) == m.update(idx, e),
    decreases m.len(),
{
    if idx == 0 {
        assert(seq![e] + m.drop_first() =~= m.update(0, e));
    } else {
        assert(m[0].0 != e.0);
        let d = m.drop_first();
        assert(map_wf(d)) by {
            assert forall|p: int, q: int| 0 <= p < q < d.len() implies (#[trigger] d[p]).0 != (
            #[trigger] d[q]).0 by {
                assert(m[p + 1].0 != m[q + 1].0);
            }
        }
        lemma_insert_entry_at(d, e, idx - 1);
        assert(seq![m[0]] + d.update(idx - 1, e) =~= m.update(idx, e));
    }
}

/// `insert_entry` on an absent key appends.
pub proof fn lemma_insert_entry_new(m: Seq<EntryV>, e: EntryV)
    requires
        !crate::tmap::has_key(m, e.0),
    ensures
        insert_entry(m, e) == m.push(e),
    decreases m.len(),
{
    if m.len() == 0 {
        assert(seq![e] =~= m.push(e));
    } else {
        assert(m[0].0 != e.0) by {
            if m[0].0 == e.0 {
                assert(crate::tmap::has_key(m, e.0));
            }
        }
        let d = m.drop_first();
        assert(!crate::tmap::has_key(d, e.0)) by {
            if crate::tmap::has_key(d, e.0) {
                let i = choose|i: int| 0 <= i < d.len() && d[i].0 == e.0;
                assert(m[i + 1].0 == e.0);
                assert(crate::tmap::has_key(m, e.0));
            }
        }
        lemma_insert_entry_new(d, e);
        assert(seq![m[0]] + d.push(e) =~= m.push(e));
    }
}

/// Decode a key-file text into its translation map, or nothing if the
/// text is not a JSON object of string-or-null members.
pub fn json_to_map(text: &String) -> (r: Option<TranslationMap>)
    ensures
        r is Some <==> parse_map(text@) is Some,
        (match r {
            Some(m) => parse_map(text@) == Some(m@) && m.wf(),
            None => parse_map(text@) is None,
        }),
{
    let chars = string_chars(text);
    match parse_object_exec(&chars) {
        Some(list) => {
            let ghost lv = pairs_view(list@);
            let mut m = TranslationMap::new();
            let n = list.len();
            let mut i: usize = 0;
            proof {
                assert(lv.take(0) =~= Seq::<(Seq<char>, Option<Seq<char>>)>::empty());
                assert(m@ == entries_to_map(lv.take(0)));
            }
            while i < n
                invariant
                    n == list@.len(),
                    lv == pairs_view(list@),
                    i <= n,
                    m.wf(),
                    m@ == entries_to_map(lv.take(i as int)),
                decreases n - i,
            {
                let k = list[i].0.clone();
                let v = crate::tmap::clone_opt(&list[i].1);
                let ghost e = lv[i as int];
                proof {
                    assert(crate::tmap::entry_v((k, v)) == e);
                    assert(lv.take(i + 1 as int).drop_last() =~= lv.take(i as int));
                    assert(lv.take(i + 1 as int).last() == e);
                }
                let ghost m0 = m@;
                m.insert(k, v);
                proof {
                    if crate::tmap::has_key(m0, e.0) {
                        let idx = choose|idx: int|
                            0 <= idx < m0.len() && m0[idx].0 == e.0 && m@ == m0.update(idx, e);
                        lemma_insert_entry_at(m0, e, idx);
                    } else {
                        lemma_insert_entry_new(m0, e);
                    }
                    assert(m@ == entries_to_map(lv.take(i + 1 as int)));
                }
                i += 1;
            }
            proof {
                assert(lv.take(n as int) =~= lv);
            }
            Some(m)
        },
        None => None,
    }
}

// ------------------------------------------------------------------
// The round trip: parsing what was rendered gives the map back
// ------------------------------------------------------------------

/// `escape_string` can also be peeled from the front.
pub proof fn lemma_escape_string_left(s: Seq<char>)
    requires
        s.len() > 0,
    ensures
        escape_string(s) == escape_char(s[0]) + escape_string(s.drop_first()),
    decreases s.len(),
{
    if s.len() == 1 {
        assert(s.drop_last() =~= Seq::<char>::empty());
        assert(s.drop_first() =~= Seq::<char>::empty());
        assert(escape_string(s) =~= escape_char(s[0]) + escape_string(s.drop_first()));
    } else {
        lemma_escape_string_left(s.drop_last());
        assert(s.drop_last().drop_first() =~= s.drop_first().drop_last());
        assert(s.drop_last()[0] == s[0]);
        assert(s.drop_first().last() == s.last());
        assert(escape_string(s.drop_first()) == escape_string(s.drop_first().drop_last())
            + escape_char(s.drop_first().last()));
        assert(escape_string(s) =~= escape_char(s[0]) + escape_string(s.drop_first()));
    }
}

/// Every hexadecimal digit reads back as its value.
pub proof fn lemma_hex_digit_value(d: int)
    requires
        0 <= d < 16,
    ensures
        hex_value(hex_digit(d)) == d,
{
}

/// Reading a rendered string literal body gives back the original
/// characters, whatever follows the closing quote.
pub proof fn lemma_parse_rendered_string(s: Seq<char>, text: Seq<char>, i: int)
    requires
        0 <= i <= text.len(),
        text.skip(i) == escape_string(s) + seq!['"'] + text.skip(
            i + escape_string(s).len() + 1,
        ),
        i + escape_string(s).len() + 1 <= text.len(),
    ensures
        parse_string_body(text, i) == Some((s, i + escape_string(s).len() + 1)),
    decreases s.len(),
{
    if s.len() == 0 {
        assert(escape_string(s) =~= Seq::<char>::empty());
        assert(text[i] == text.skip(i)[0]);
        assert(text[i] == '"');
    } else {
        lemma_escape_string_left(s);
        let c = s[0];
        let ec = escape_char(c);
        let s2 = s.drop_first();
        let j = i + ec.len();
        let after = i + escape_string(s).len() + 1;
        assert(escape_string(s).len() == ec.len() + escape_string(s2).len());
        assert forall|p: int| 0 <= p < ec.len() implies #[trigger] text.skip(i)[p] == ec[p] by {
            assert((escape_string(s) + seq!['"'] + text.skip(after))[p] == ec[p]);
        }
        assert forall|p: int| 0 <= p < ec.len() implies text[i + p] == ec[p] by {
            lemma_skip_index(text, i, p);
        }
        assert(text.skip(j) =~= escape_string(s2) + seq!['"'] + text.skip(
            j + escape_string(s2).len() + 1,
        )) by {
            assert forall|p: int| 0 <= p < text.len() - j implies #[trigger] text.skip(j)[p] == (
            escape_string(s2) + seq!['"'] + text.skip(j + escape_string(s2).len() + 1))[p] by {
                lemma_skip_index(text, j, p);
                lemma_skip_index(text, i, p + ec.len());
                assert(text.skip(i)[p + ec.len()] == (escape_string(s) + seq!['"'] + text.skip(
                    after,
                ))[p + ec.len()]);
                if p >= escape_string(s2).len() + 1 {
                    lemma_skip_index(text, j + escape_string(s2).len() + 1, p - escape_string(
                        s2,
                    ).len() - 1);
                }
            }
        }
        lemma_parse_rendered_string(s2, text, j);
        if c == '"' || c == '\\' {
            assert(text[i] == '\\');
            assert(text[i + 1] == c);
            assert(parse_escape(text, i + 1) == Some((seq![c], i + 2)));
            assert(seq![c] + s2 =~= s);
        } else if c == '\u{8}' || c == '\u{c}' || c == '\n' || c == '\r' || c == '\t' {
            assert(text[i] == '\\');
            assert(parse_escape(text, i + 1) == Some((seq![c], i + 2)));
            assert(seq![c] + s2 =~= s);
        } else if (c as u32) < 0x20 {
            assert(text[i] == '\\');
            assert(text[i + 1] == 'u');
            assert(text[i + 2] == '0');
            assert(text[i + 3] == '0');
            let hi = (c as u32) as int / 16;
            let lo = (c as u32) as int % 16;
            assert(text[i + 4] == hex_digit(hi));
            assert(text[i + 5] == hex_digit(lo));
            lemma_hex_digit_value(hi);
            lemma_hex_digit_value(lo);
            assert(hex_value(text[i + 2]) == 0 && hex_value(text[i + 3]) == 0);
            assert(parse_hex4(text, i + 2) == Some((16 * hi + lo, i + 6)));
            assert(16 * hi + lo == c as u32);
            vstd::utf8::char_u32_cast(c, c as u32);
            assert(((c as u32) as int) as char == c) by {
                assert(((c as u32) as int) as char == (c as u32) as char);
            }
            assert(parse_escape(text, i + 1) == Some((seq![c], i + 6)));
            assert(seq![c] + s2 =~= s);
        } else {
            assert(text[i] == c) by {
                lemma_skip_index(text, i, 0);
                assert(text.skip(i)[0] == ec[0]);
                assert(ec == seq![c]);
            }
            assert(c != '"' && c != '\\' && (c as u32) >= 0x20);
            assert(seq![c] + s2 =~= s);
        }
    }
}

/// Indexing after a skip lands in the original text.
pub proof fn lemma_skip_index(text: Seq<char>, i: int, p: int)
    requires
        0 <= i,
        0 <= p,
        i + p < text.len(),
    ensures
        text.skip(i)[p] == text[i + p],
{
}

/// The body of one member, without its leading indent.
pub open spec fn entry_body(e: EntryV) -> Seq<char> {
    render_string(e.0) + seq![':', ' '] + render_value(e.1)
}

/// Reading a rendered member gives back its pair.
pub proof fn lemma_parse_rendered_member(e: EntryV, text: Seq<char>, i: int)
    requires
        0 <= i <= text.len(),
        text.skip(i) == entry_body(e) + text.skip(i + entry_body(e).len()),
        i + entry_body(e).len() < text.len(),
    ensures
        parse_member(text, i) == Some((e, i + entry_body(e).len())),
{
    let body = entry_body(e);
    let rest = text.skip(i + body.len());
    let klen = escape_string(e.0).len();
    let kstr = render_string(e.0);
    assert(body == kstr + seq![':', ' '] + render_value(e.1));
    assert(text[i] == '"') by {
        lemma_skip_index(text, i, 0);
        assert(text.skip(i)[0] == body[0]);
        assert(body[0] == kstr[0]);
    }
    // the key literal sits right after the opening quote
    assert(text.skip(i + 1) =~= escape_string(e.0) + seq!['"'] + text.skip(i + 1 + klen + 1)) by {
        assert forall|p: int| 0 <= p < text.len() - i - 1 implies #[trigger] text.skip(i + 1)[p]
            == (escape_string(e.0) + seq!['"'] + text.skip(i + 1 + klen + 1))[p] by {
            lemma_skip_index(text, i + 1, p);
            if p < klen + 1 {
                lemma_skip_index(text, i, p + 1);
                assert(text.skip(i)[p + 1] == body[p + 1]);
                assert(body[p + 1] == kstr[p + 1]);
                assert(kstr[p + 1] == (escape_string(e.0) + seq!['"'])[p]);
            } else {
                lemma_skip_index(text, i + 1 + klen + 1, p - klen - 1);
            }
        }
    }
    lemma_parse_rendered_string(e.0, text, i + 1);
    let j = i + 1 + klen + 1;
    assert(parse_string_body(text, i + 1) == Some((e.0, j)));
    assert(j - i == kstr.len());
    assert(text[j] == ':') by {
        lemma_skip_index(text, i, j - i);
        assert(text.skip(i)[j - i] == body[j - i]);
    }
    assert(text[j + 1] == ' ') by {
        lemma_skip_index(text, i, j + 1 - i);
        assert(text.skip(i)[j + 1 - i] == body[j + 1 - i]);
    }
    assert(skip_ws(text, j) == j);
    let v = j + 2;
    match e.1 {
        Some(value) => {
            let vlen = escape_string(value).len();
            let vstr = render_string(value);
            assert(render_value(e.1) == vstr);
            assert(text[v] == '"') by {
                lemma_skip_index(text, i, v - i);
                assert(text.skip(i)[v - i] == body[v - i]);
                assert(body[v - i] == vstr[0]);
            }
            assert(skip_ws(text, j + 1) == v) by {
                assert(skip_ws(text, j + 1) == skip_ws(text, v));
            }
            assert(text.skip(v + 1) =~= escape_string(value) + seq!['"'] + text.skip(
                v + 1 + vlen + 1,
            )) by {
                assert forall|p: int| 0 <= p < text.len() - v - 1 implies #[trigger] text.skip(
                    v + 1,
                )[p] == (escape_string(value) + seq!['"'] + text.skip(v + 1 + vlen + 1))[p] by {
                    lemma_skip_index(text, v + 1, p);
                    if p < vlen + 1 {
                        lemma_skip_index(text, i, v + 1 + p - i);
                        assert(text.skip(i)[v + 1 + p - i] == body[v + 1 + p - i]);
                        assert(body[v + 1 + p - i] == vstr[p + 1]);
                        assert(vstr[p + 1] == (escape_string(value) + seq!['"'])[p]);
                    } else {
                        lemma_skip_index(text, v + 1 + vlen + 1, p - vlen - 1);
                    }
                }
            }
            lemma_parse_rendered_string(value, text, v + 1);
            assert(parse_string_body(text, v + 1) == Some((value, i + body.len())));
            assert(parse_member(text, i) == Some((e, i + body.len())));
        },
        None => {
            assert(render_value(e.1) == seq!['n', 'u', 'l', 'l']);
            assert(text[v] == 'n' && text[v + 1] == 'u' && text[v + 2] == 'l' && text[v + 3]
                == 'l') by {
                lemma_skip_index(text, i, v - i);
                lemma_skip_index(text, i, v + 1 - i);
                lemma_skip_index(text, i, v + 2 - i);
                lemma_skip_index(text, i, v + 3 - i);
                assert(text.skip(i)[v - i] == body[v - i]);
                assert(text.skip(i)[v + 1 - i] == body[v + 1 - i]);
                assert(text.skip(i)[v + 2 - i] == body[v + 2 - i]);
                assert(text.skip(i)[v + 3 - i] == body[v + 3 - i]);
            }
            assert(skip_ws(text, j + 1) == v) by {
                assert(skip_ws(text, j + 1) == skip_ws(text, v));
            }
            assert(is_null_at(text, v));
            assert(parse_member(text, i) == Some((e, i + body.len())));
        },
    }
}

/// The member bodies from one entry on, each later one preceded by the
/// separator and the indent.
pub open spec fn tail_text(es: Seq<EntryV>) -> Seq<char>
    decreases es.len(),
{
    if es.len() == 0 {
        Seq::empty()
    } else if es.len() == 1 {
        entry_body(es[0])
    } else {
        entry_body(es[0]) + seq![',', '\n', ' ', ' '] + tail_text(es.drop_first())
    }
}

/// `tail_text` can also be peeled from the back.
pub proof fn lemma_tail_text_snoc(es: Seq<EntryV>)
    requires
        es.len() >= 2,
    ensures
        tail_text(es) == tail_text(es.drop_last()) + seq![',', '\n', ' ', ' '] + entry_body(
            es.last(),
        ),
    decreases es.len(),
{
    let df = es.drop_first();
    let sep = seq![',', '\n', ' ', ' '];
    if es.len() == 2 {
        assert(df.len() == 1);
        assert(es.drop_last().len() == 1);
        assert(es.drop_last()[0] == es[0]);
        assert(df[0] == es.last());
        assert(tail_text(es) == entry_body(es[0]) + sep + tail_text(df));
        assert(tail_text(df) == entry_body(df[0]));
        assert(tail_text(es.drop_last()) == entry_body(es.drop_last()[0]));
        assert(tail_text(es) =~= tail_text(es.drop_last()) + sep + entry_body(es.last()));
    } else {
        lemma_tail_text_snoc(df);
        assert(df.drop_last() =~= es.drop_last().drop_first());
        assert(df.last() == es.last());
        assert(es.drop_last()[0] == es[0]);
        assert(es.drop_last().len() >= 2);
        assert(tail_text(es) == entry_body(es[0]) + sep + tail_text(df));
        assert(tail_text(df) == tail_text(df.drop_last()) + sep + entry_body(es.last()));
        assert(tail_text(es.drop_last()) == entry_body(es[0]) + sep + tail_text(
            es.drop_last().drop_first(),
        ));
        assert(tail_text(es) =~= tail_text(es.drop_last()) + sep + entry_body(es.last()));
    }
}

/// The rendered entry block is the indent plus the member tail.
pub proof fn lemma_render_entries_tail(m: Seq<EntryV>)
    requires
        m.len() > 0,
    ensures
        render_entries(m) == seq![' ', ' '] + tail_text(m),
    decreases m.len(),
{
    if m.len() == 1 {
        assert(render_entries(m) =~= seq![' ', ' '] + tail_text(m));
    } else {
        lemma_render_entries_tail(m.drop_last());
        lemma_tail_text_snoc(m);
        assert(render_entries(m) =~= seq![' ', ' '] + tail_text(m));
    }
}

/// Reading the members back, from the first one on.
#[verifier::rlimit(100)]
pub proof fn lemma_parse_rendered_members(es: Seq<EntryV>, text: Seq<char>, i: int)
    requires
        es.len() > 0,
        0 <= i <= text.len(),
        text.skip(i) == tail_text(es) + seq!['\n', '}'],
        i + tail_text(es).len() + 2 == text.len(),
    ensures
        parse_member(text, i) == Some((es[0], i + entry_body(es[0]).len())),
        parse_more_members(text, i + entry_body(es[0]).len()) == Some(
            (es.drop_first(), text.len() as int),
        ),
    decreases es.len(),
{
    let body = entry_body(es[0]);
    if es.len() == 1 {
        assert(tail_text(es) == body);
        assert(text.skip(i) =~= body + text.skip(i + body.len())) by {
            assert forall|q: int| 0 <= q < text.len() - i implies #[trigger] text.skip(i)[q] == (
            body + text.skip(i + body.len()))[q] by {
                lemma_skip_index(text, i, q);
                if q >= body.len() {
                    lemma_skip_index(text, i + body.len(), q - body.len());
                }
            }
        }
        lemma_parse_rendered_member(es[0], text, i);
        let p = i + body.len();
        assert(text[p] == '\n') by {
            lemma_skip_index(text, i, p - i);
            assert(text.skip(i)[p - i] == (tail_text(es) + seq!['\n', '}'])[p - i]);
        }
        assert(text[p + 1] == '}') by {
            lemma_skip_index(text, i, p + 1 - i);
            assert(text.skip(i)[p + 1 - i] == (tail_text(es) + seq!['\n', '}'])[p + 1 - i]);
        }
        assert(p + 2 == text.len());
        assert(skip_ws(text, p) == p + 1) by {
            assert(skip_ws(text, p) == skip_ws(text, p + 1));
        }
        assert(parse_more_members(text, p) == Some(
            (Seq::<(Seq<char>, Option<Seq<char>>)>::empty(), p + 2),
        ));
        assert(p + 2 == text.len());
        assert(es.drop_first() =~= Seq::<(Seq<char>, Option<Seq<char>>)>::empty());
    } else {
        let df = es.drop_first();
        let p = i + body.len();
        let k = p + 4;
        let sep = seq![',', '\n', ' ', ' '];
        assert(tail_text(es) == body + sep + tail_text(df));
        assert(text.skip(i) =~= body + text.skip(p)) by {
            assert forall|q: int| 0 <= q < text.len() - i implies #[trigger] text.skip(i)[q] == (
            body + text.skip(p))[q] by {
                lemma_skip_index(text, i, q);
                if q >= body.len() {
                    lemma_skip_index(text, p, q - body.len());
                }
            }
        }
        lemma_parse_rendered_member(es[0], text, i);
        assert(text[p] == ',') by {
            lemma_skip_index(text, i, p - i);
            assert(text.skip(i)[p - i] == (tail_text(es) + seq!['\n', '}'])[p - i]);
        }
        assert(text[p + 1] == '\n') by {
            lemma_skip_index(text, i, p + 1 - i);
            assert(text.skip(i)[p + 1 - i] == (tail_text(es) + seq!['\n', '}'])[p + 1 - i]);
        }
        assert(text[p + 2] == ' ') by {
            lemma_skip_index(text, i, p + 2 - i);
            assert(text.skip(i)[p + 2 - i] == (tail_text(es) + seq!['\n', '}'])[p + 2 - i]);
        }
        assert(text[p + 3] == ' ') by {
            lemma_skip_index(text, i, p + 3 - i);
            assert(text.skip(i)[p + 3 - i] == (tail_text(es) + seq!['\n', '}'])[p + 3 - i]);
        }
        assert(text.skip(k) =~= tail_text(df) + seq!['\n', '}']) by {
            assert forall|q: int| 0 <= q < text.len() - k implies #[trigger] text.skip(k)[q] == (
            tail_text(df) + seq!['\n', '}'])[q] by {
                assert(text.skip(k)[q] == text[k + q]);
                assert((tail_text(es) + seq!['\n', '}'])[k + q - i] == (tail_text(df) + seq![
                    '\n',
                    '}',
                ])[q]);
            }
        }
        lemma_parse_rendered_members(df, text, k);
        assert(tail_text(df)[0] == entry_body(df[0])[0]);
        assert(text[k] == '"');
        assert(skip_ws(text, p) == p);
        assert(skip_ws(text, p + 1) == k) by {
            assert(skip_ws(text, p + 1) == skip_ws(text, p + 2));
            assert(skip_ws(text, p + 2) == skip_ws(text, p + 3));
            assert(skip_ws(text, p + 3) == skip_ws(text, k));
        }
        let l = k + entry_body(df[0]).len();
        assert(parse_member(text, k) == Some((df[0], l)));
        assert(parse_more_members(text, l) == Some((df.drop_first(), text.len() as int)));
        assert(parse_more_members(text, p) == Some((seq![df[0]] + df.drop_first(), text.len() as int)));
        assert(seq![df[0]] + df.drop_first() =~= df);
    }
}

/// Folding a duplicate-free pair list into a map leaves it unchanged.
pub proof fn lemma_entries_to_map_id(m: Seq<EntryV>)
    requires
        map_wf(m),
    ensures
        entries_to_map(m) == m,
    decreases m.len(),
{
    if m.len() > 0 {
        let dl = m.drop_last();
        assert(map_wf(dl)) by {
            assert forall|p: int, q: int| 0 <= p < q < dl.len() implies (#[trigger] dl[p]).0 != (
            #[trigger] dl[q]).0 by {
                assert(m[p].0 != m[q].0);
            }
        }
        lemma_entries_to_map_id(dl);
        assert(!crate::tmap::has_key(dl, m.last().0)) by {
            if crate::tmap::has_key(dl, m.last().0) {
                let j = choose|j: int| 0 <= j < dl.len() && dl[j].0 == m.last().0;
                assert(m[j].0 == m[m.len() - 1].0);
            }
        }
        lemma_insert_entry_new(dl, m.last());
        assert(dl.push(m.last()) =~= m);
    }
}

/// The round trip: a well-formed map, rendered and parsed again, is
/// itself.  With the merge's idempotence this makes a repeated collect
/// run reproduce every key file byte for byte.
/// The nonempty case of the round trip: the rendered object parses back
/// to its member list.
#[verifier::rlimit(100)]
proof fn lemma_parse_rendered_object(m: Seq<EntryV>)
    requires
        m.len() > 0,
    ensures
        parse_object(render_map(m)) == Some(m),
{
    let text = render_map(m);
    lemma_render_entries_tail(m);
    assert(text =~= seq!['{', '\n', ' ', ' '] + tail_text(m) + seq!['\n', '}']);
    assert(text.skip(4) =~= tail_text(m) + seq!['\n', '}']) by {
        assert forall|q: int| 0 <= q < text.len() - 4 implies #[trigger] text.skip(4)[q] == (
        tail_text(m) + seq!['\n', '}'])[q] by {
            lemma_skip_index(text, 4, q);
            assert(text[4 + q] == (seq!['{', '\n', ' ', ' '] + tail_text(m) + seq!['\n', '}'])[4
                + q]);
        }
    }
    lemma_parse_rendered_members(m, text, 4);
    assert(text[4] == '"') by {
        assert(tail_text(m)[0] == entry_body(m[0])[0]);
    }
    assert(text[0] == '{');
    assert(text[1] == '\n');
    assert(text[2] == ' ');
    assert(text[3] == ' ');
    assert(skip_ws(text, 0) == 0);
    assert(skip_ws(text, 1) == 4) by {
        assert(skip_ws(text, 1) == skip_ws(text, 2));
        assert(skip_ws(text, 2) == skip_ws(text, 3));
        assert(skip_ws(text, 3) == skip_ws(text, 4));
    }
    let l: int = 4 + entry_body(m[0]).len() as int;
    assert(parse_member(text, 4) == Some((m[0], l)));
    assert(parse_more_members(text, l) == Some((m.drop_first(), text.len() as int)));
    assert(skip_ws(text, text.len() as int) == text.len());
    assert(parse_object(text) == Some(seq![m[0]] + m.drop_first()));
    assert(seq![m[0]] + m.drop_first() =~= m);
}

/// The round trip: a well-formed map, rendered and parsed again, is
/// itself.  With the merge's idempotence this makes a repeated collect
/// run reproduce every key file byte for byte.
pub proof fn lemma_parse_render_round_trip(m: Seq<EntryV>)
    requires
        map_wf(m),
    ensures
        parse_map(render_map(m)) == Some(m),
{
    let text = render_map(m);
    if m.len() == 0 {
        assert(text =~= seq!['{', '}']);
        assert(skip_ws(text, 0) == 0);
        assert(skip_ws(text, 1) == 1);
        assert(skip_ws(text, 2) == 2);
        assert(parse_object(text) == Some(Seq::<(Seq<char>, Option<Seq<char>>)>::empty()));
        assert(entries_to_map(Seq::<(Seq<char>, Option<Seq<char>>)>::empty()) =~= m);
    } else {
        lemma_parse_rendered_object(m);
        lemma_entries_to_map_id(m);
    }
}

} // verus!
