//! The registry's persisted file format: a pretty-printed JSON document
//!
//! ```text
//! {
//!   "allowed_roles": [ <u64>, ... ],
//!   "aliases": { "<alias>": <u64>, ... }
//! }
//! ```
//!
//! `to_json` renders a registry into exactly this shape; the parser accepts
//! it back (tolerating arbitrary whitespace and either field order, but no
//! other fields), and the round-trip is proved: parsing a rendered registry
//! reproduces its allow-list and alias table.

use vstd::prelude::*;
use vstd::string::StringExecFns;
use vstd::string::StrSliceExecFns;

use crate::store::Config;
use crate::store::entries_view;
use crate::store::unique_alias_keys;
use crate::store::unique_roles;

verus! {

// ===== characters =====

/// JSON whitespace.
pub open spec fn is_ws(c: char) -> bool {
    c == ' ' || c == '\n' || c == '\t' || c == '\r'
}

/// A decimal digit.
pub open spec fn is_digit(c: char) -> bool {
    48 <= c as u32 <= 57
}

/// Value of a decimal digit.
pub open spec fn digit_val(c: char) -> u64 {
    (c as u32 - 48) as u64
}

/// The decimal digit character for `d < 10`.
pub open spec fn digit_char(d: u64) -> char {
    ((48 + d) as u8) as char
}

/// The lower-case hexadecimal digit character for `d < 16`.
pub open spec fn hex_char(d: u32) -> char {
    if d < 10 {
        ((48 + d) as u8) as char
    } else {
        ((87 + d) as u8) as char
    }
}

/// Value of a hexadecimal digit, upper or lower case.
pub open spec fn hex_val(c: char) -> Option<u32> {
    let u = c as u32;
    if 48 <= u <= 57 {
        Some((u - 48) as u32)
    } else if 97 <= u <= 102 {
        Some((u - 87) as u32)
    } else if 65 <= u <= 70 {
        Some((u - 55) as u32)
    } else {
        None
    }
}

// ===== rendering =====

/// Decimal representation of `v`, most significant digit first.
pub open spec fn dec_rep(v: u64) -> Seq<char>
    decreases v,
{
    if v < 10 {
        seq![digit_char(v)]
    } else {
        dec_rep(v / 10).push(digit_char(v % 10))
    }
}

/// How one character is written inside a JSON string: quote and backslash
/// are escaped, control characters become `\u00XX`, all else is itself.
pub open spec fn escape_char(c: char) -> Seq<char> {
    if c == '"' {
        seq!['\\', '"']
    } else if c == '\\' {
        seq!['\\', '\\']
    } else if (c as u32) < 32 {
        seq!['\\', 'u', '0', '0', hex_char((c as u32) / 16), hex_char((c as u32) % 16)]
    } else {
        seq![c]
    }
}

/// A string's characters written out, escaped.
pub open spec fn escape_str(s: Seq<char>) -> Seq<char>
    decreases s.len(),
{
    if s.len() == 0 {
        Seq::empty()
    } else {
        escape_char(s[0]) + escape_str(s.drop_first())
    }
}

/// A JSON string literal: quoted, escaped content.
pub open spec fn quote(s: Seq<char>) -> Seq<char> {
    seq!['"'] + escape_str(s) + seq!['"']
}

/// Four spaces: the item indent of the pretty layout.
pub open spec fn ind4() -> Seq<char> {
    seq![' ', ' ', ' ', ' ']
}

/// The characters of the field name `allowed_roles`.
pub open spec fn name_allowed() -> Seq<char> {
    seq!['a', 'l', 'l', 'o', 'w', 'e', 'd', '_', 'r', 'o', 'l', 'e', 's']
}

/// The characters of the field name `aliases`.
pub open spec fn name_aliases() -> Seq<char> {
    seq!['a', 'l', 'i', 'a', 's', 'e', 's']
}

/// What follows the first rendered allow-list entry: either the array's
/// closing line or a separator and the next entry.
pub open spec fn render_roles_tail(rest: Seq<u64>) -> Seq<char>
    decreases rest.len(),
{
    if rest.len() == 0 {
        seq!['\n', ' ', ' ', ']']
    } else {
        seq![',', '\n'] + ind4() + dec_rep(rest[0]) + render_roles_tail(rest.drop_first())
    }
}

/// The rendered allow-list array.
pub open spec fn render_roles(roles: Seq<u64>) -> Seq<char> {
    if roles.len() == 0 {
        seq!['[', ']']
    } else {
        seq!['[', '\n'] + ind4() + dec_rep(roles[0]) + render_roles_tail(roles.drop_first())
    }
}

/// One rendered alias entry, without indent or separator.
pub open spec fn render_alias_entry(e: (Seq<char>, u64)) -> Seq<char> {
    quote(e.0) + seq![':', ' '] + dec_rep(e.1)
}

/// What follows the first rendered alias entry.
pub open spec fn render_aliases_tail(rest: Seq<(Seq<char>, u64)>) -> Seq<char>
    decreases rest.len(),
{
    if rest.len() == 0 {
        seq!['\n', ' ', ' ', '}']
    } else {
        seq![',', '\n'] + ind4() + render_alias_entry(rest[0]) + render_aliases_tail(
            rest.drop_first(),
        )
    }
}

/// The rendered alias object.
pub open spec fn render_aliases(aliases: Seq<(Seq<char>, u64)>) -> Seq<char> {
    if aliases.len() == 0 {
        seq!['{', '}']
    } else {
        seq!['{', '\n'] + ind4() + render_alias_entry(aliases[0]) + render_aliases_tail(
            aliases.drop_first(),
        )
    }
}

/// The whole rendered document.
pub open spec fn render_doc(roles: Seq<u64>, aliases: Seq<(Seq<char>, u64)>) -> Seq<char> {
    seq!['{', '\n', ' ', ' '] + quote(name_allowed()) + seq![':', ' '] + render_roles(roles)
        + seq![',', '\n', ' ', ' '] + quote(name_aliases()) + seq![':', ' '] + render_aliases(
        aliases,
    ) + seq!['\n', '}']
}

// ===== parsing =====

/// Index of the first non-whitespace character at or after `i`.
pub open spec fn skip_ws(s: Seq<char>, i: int) -> int
    decreases s.len() - i,
{
    if 0 <= i < s.len() && is_ws(s[i]) {
        skip_ws(s, i + 1)
    } else {
        i
    }
}

/// Reads a run of digits left to right into an accumulator; fails on
/// overflow past `u64::MAX`. Stops at the first non-digit.
pub open spec fn parse_digits(s: Seq<char>, i: int, acc: u64) -> Option<(u64, int)>
    decreases s.len() - i,
{
    if 0 <= i < s.len() && is_digit(s[i]) {
        let d = digit_val(s[i]);
        if acc <= (u64::MAX - d) / 10 {
            parse_digits(s, i + 1, (acc * 10 + d) as u64)
        } else {
            None
        }
    } else {
        Some((acc, i))
    }
}

/// A JSON number restricted to the u64 grammar: `0`, or a nonzero leading
/// digit followed by digits, no sign, no fraction, no exponent.
pub open spec fn parse_num(s: Seq<char>, i: int) -> Option<(u64, int)> {
    if 0 <= i < s.len() && is_digit(s[i]) {
        if s[i] == '0' {
            if i + 1 < s.len() && is_digit(s[i + 1]) {
                None
            } else {
                Some((0, i + 1))
            }
        } else {
            parse_digits(s, i, 0)
        }
    } else {
        None
    }
}

/// Prepends a decoded character to a string-body parse.
pub open spec fn cons_char(c: char, r: Option<(Seq<char>, int)>) -> Option<(Seq<char>, int)> {
    match r {
        Some((t, k)) => Some((seq![c] + t, k)),
        None => None,
    }
}

/// The body of a JSON string, after the opening quote: plain characters,
/// short escapes, and `\uXXXX` escapes up to `00ff`; raw control
/// characters are rejected.
pub open spec fn parse_string_body(s: Seq<char>, i: int) -> Option<(Seq<char>, int)>
    decreases s.len() - i,
{
    if 0 <= i < s.len() {
        let c = s[i];
        if c == '"' {
            Some((Seq::empty(), i + 1))
        } else if c == '\\' {
            if i + 1 < s.len() {
                let e = s[i + 1];
                if e == '"' || e == '\\' || e == '/' {
                    cons_char(e, parse_string_body(s, i + 2))
                } else if e == 'n' {
                    cons_char('\n', parse_string_body(s, i + 2))
                } else if e == 't' {
                    cons_char('\t', parse_string_body(s, i + 2))
                } else if e == 'r' {
                    cons_char('\r', parse_string_body(s, i + 2))
                } else if e == 'b' {
                    cons_char('\u{8}', parse_string_body(s, i + 2))
                } else if e == 'f' {
                    cons_char('\u{c}', parse_string_body(s, i + 2))
                } else if e == 'u' {
                    if i + 5 < s.len() {
                        match (hex_val(s[i + 2]), hex_val(s[i + 3]), hex_val(s[i + 4]), hex_val(
                            s[i + 5],
                        )) {
                            (Some(h1), Some(h2), Some(h3), Some(h4)) => {
                                let v = h1 * 4096 + h2 * 256 + h3 * 16 + h4;
                                if v <= 255 {
                                    cons_char(((v as u8) as char), parse_string_body(s, i + 6))
                                } else {
                                    None
                                }
                            },
                            _ => None,
                        }
                    } else {
                        None
                    }
                } else {
                    None
                }
            } else {
                None
            }
        } else if c as u32 >= 32 {
            cons_char(c, parse_string_body(s, i + 1))
        } else {
            None
        }
    } else {
        None
    }
}

/// A JSON string literal starting at `i`.
pub open spec fn parse_string(s: Seq<char>, i: int) -> Option<(Seq<char>, int)> {
    if 0 <= i < s.len() && s[i] == '"' {
        parse_string_body(s, i + 1)
    } else {
        None
    }
}

/// After one array element: either the closing bracket or a comma and
/// another element.
pub open spec fn parse_roles_rest(s: Seq<char>, i: int, acc: Seq<u64>) -> Option<(Seq<u64>, int)>
    decreases s.len() - i,
{
    let j = skip_ws(s, i);
    if i <= j < s.len() {
        if s[j] == ']' {
            Some((acc, j + 1))
        } else if s[j] == ',' {
            let k = skip_ws(s, j + 1);
            match parse_num(s, k) {
                Some((v, m)) => if i < m <= s.len() {
                    parse_roles_rest(s, m, acc.push(v))
                } else {
                    None
                },
                None => None,
            }
        } else {
            None
        }
    } else {
        None
    }
}

/// The allow-list array starting at `i`.
pub open spec fn parse_roles(s: Seq<char>, i: int) -> Option<(Seq<u64>, int)> {
    if 0 <= i < s.len() && s[i] == '[' {
        let j = skip_ws(s, i + 1);
        if j < s.len() && s[j] == ']' {
            Some((Seq::empty(), j + 1))
        } else {
            match parse_num(s, j) {
                Some((v, m)) => if i < m <= s.len() {
                    parse_roles_rest(s, m, seq![v])
                } else {
                    None
                },
                None => None,
            }
        }
    } else {
        None
    }
}

/// One alias entry: a string key, a colon, a number.
pub open spec fn parse_alias_entry(s: Seq<char>, i: int) -> Option<((Seq<char>, u64), int)> {
    match parse_string(s, i) {
        Some((k, j)) => {
            let jc = skip_ws(s, j);
            if jc < s.len() && s[jc] == ':' {
                let jv = skip_ws(s, jc + 1);
                match parse_num(s, jv) {
                    Some((v, m)) => Some(((k, v), m)),
                    None => None,
                }
            } else {
                None
            }
        },
        None => None,
    }
}

/// After one alias entry: either the closing brace or a comma and another.
pub open spec fn parse_aliases_rest(s: Seq<char>, i: int, acc: Seq<(Seq<char>, u64)>) -> Option<
    (Seq<(Seq<char>, u64)>, int),
>
    decreases s.len() - i,
{
    let j = skip_ws(s, i);
    if i <= j < s.len() {
        if s[j] == '}' {
            Some((acc, j + 1))
        } else if s[j] == ',' {
            let k = skip_ws(s, j + 1);
            match parse_alias_entry(s, k) {
                Some((e, m)) => if i < m <= s.len() {
                    parse_aliases_rest(s, m, acc.push(e))
                } else {
                    None
                },
                None => None,
            }
        } else {
            None
        }
    } else {
        None
    }
}

/// The alias object starting at `i`.
pub open spec fn parse_aliases(s: Seq<char>, i: int) -> Option<(Seq<(Seq<char>, u64)>, int)> {
    if 0 <= i < s.len() && s[i] == '{' {
        let j = skip_ws(s, i + 1);
        if j < s.len() && s[j] == '}' {
            Some((Seq::empty(), j + 1))
        } else {
            match parse_alias_entry(s, j) {
                Some((e, m)) => if i < m <= s.len() {
                    parse_aliases_rest(s, m, seq![e])
                } else {
                    None
                },
                None => None,
            }
        }
    } else {
        None
    }
}

/// A whole document: an object holding exactly the two fields, in either
/// order, with nothing but whitespace after it.
pub open spec fn parse_doc(s: Seq<char>) -> Option<(Seq<u64>, Seq<(Seq<char>, u64)>)> {
    let i = skip_ws(s, 0);
    if i < s.len() && s[i] == '{' {
        let j = skip_ws(s, i + 1);
        match parse_string(s, j) {
            Some((key1, k1)) => {
                let c1 = skip_ws(s, k1);
                if c1 < s.len() && s[c1] == ':' {
                    let v1 = skip_ws(s, c1 + 1);
                    if key1 == name_allowed() {
                        match parse_roles(s, v1) {
                            Some((roles, e1)) => parse_doc_second_aliases(s, e1, roles),
                            None => None,
                        }
                    } else if key1 == name_aliases() {
                        match parse_aliases(s, v1) {
                            Some((aliases, e1)) => parse_doc_second_roles(s, e1, aliases),
                            None => None,
                        }
                    } else {
                        None
                    }
                } else {
                    None
                }
            },
            None => None,
        }
    } else {
        None
    }
}

/// The document's second field when the first was the allow-list: a comma,
/// the `aliases` field, the closing brace, and the end of input.
pub open spec fn parse_doc_second_aliases(s: Seq<char>, i: int, roles: Seq<u64>) -> Option<
    (Seq<u64>, Seq<(Seq<char>, u64)>),
> {
    let c = skip_ws(s, i);
    if c < s.len() && s[c] == ',' {
        let j = skip_ws(s, c + 1);
        match parse_string(s, j) {
            Some((key2, k2)) => if key2 == name_aliases() {
                let c2 = skip_ws(s, k2);
                if c2 < s.len() && s[c2] == ':' {
                    let v2 = skip_ws(s, c2 + 1);
                    match parse_aliases(s, v2) {
                        Some((aliases, e2)) => parse_doc_end(s, e2, roles, aliases),
                        None => None,
                    }
                } else {
                    None
                }
            } else {
                None
            },
            None => None,
        }
    } else {
        None
    }
}

/// The document's second field when the first was the alias table.
pub open spec fn parse_doc_second_roles(s: Seq<char>, i: int, aliases: Seq<(Seq<char>, u64)>)
    -> Option<(Seq<u64>, Seq<(Seq<char>, u64)>)> {
    let c = skip_ws(s, i);
    if c < s.len() && s[c] == ',' {
        let j = skip_ws(s, c + 1);
        match parse_string(s, j) {
            Some((key2, k2)) => if key2 == name_allowed() {
                let c2 = skip_ws(s, k2);
                if c2 < s.len() && s[c2] == ':' {
                    let v2 = skip_ws(s, c2 + 1);
                    match parse_roles(s, v2) {
                        Some((roles, e2)) => parse_doc_end(s, e2, roles, aliases),
                        None => None,
                    }
                } else {
                    None
                }
            } else {
                None
            },
            None => None,
        }
    } else {
        None
    }
}

/// The document's closing brace followed only by whitespace.
pub open spec fn parse_doc_end(
    s: Seq<char>,
    i: int,
    roles: Seq<u64>,
    aliases: Seq<(Seq<char>, u64)>,
) -> Option<(Seq<u64>, Seq<(Seq<char>, u64)>)> {
    let c = skip_ws(s, i);
    if c < s.len() && s[c] == '}' {
        if skip_ws(s, c + 1) == s.len() {
            Some((roles, aliases))
        } else {
            None
        }
    } else {
        None
    }
}


// ===== rendering: executable =====

/// Relies on String::push: appends exactly one character.
#[verifier::external_body]
fn push_char(s: &mut String, c: char)
    ensures
        final(s)@ == old(s)@.push(c),
{
    s.push(c);
}

/// Appends the decimal digit character of `d`.
fn push_digit(out: &mut String, d: u64)
    requires
        d < 10,
    ensures
        final(out)@ == old(out)@.push(digit_char(d)),
{
    let c = (48 + d as u8) as char;
    proof {
        assert(c == digit_char(d));
    }
    push_char(out, c);
}

/// Appends the lower-case hexadecimal digit character of `d`.
fn push_hex(out: &mut String, d: u32)
    requires
        d < 16,
    ensures
        final(out)@ == old(out)@.push(hex_char(d)),
{
    let c = if d < 10 {
        (48 + d as u8) as char
    } else {
        (87 + d as u8) as char
    };
    proof {
        assert(c == hex_char(d));
    }
    push_char(out, c);
}

/// Appends the decimal representation of `v`.
fn push_dec(out: &mut String, v: u64)
    ensures
        final(out)@ == old(out)@ + dec_rep(v),
    decreases v,
{
    if v < 10 {
        push_digit(out, v);
        proof {
            assert(old(out)@.push(digit_char(v)) =~= old(out)@ + dec_rep(v));
        }
    } else {
        push_dec(out, v / 10);
        push_digit(out, v % 10);
        proof {
            assert((old(out)@ + dec_rep(v / 10)).push(digit_char(v % 10)) =~= old(out)@ + dec_rep(
                v,
            ));
        }
    }
}

/// Appending one character to a string appends its escape to the rendering.
proof fn lemma_escape_str_snoc(s: Seq<char>, c: char)
    ensures
        escape_str(s.push(c)) == escape_str(s) + escape_char(c),
    decreases s.len(),
{
    if s.len() == 0 {
        assert(s.push(c).drop_first() =~= Seq::<char>::empty());
        assert(s.push(c)[0] == c);
        assert(escape_str(s.push(c)) == escape_char(c) + escape_str(Seq::<char>::empty()));
        assert(escape_char(c) + Seq::<char>::empty() =~= escape_char(c));
        assert(escape_str(s) + escape_char(c) =~= escape_char(c));
    } else {
        assert(s.push(c).drop_first() =~= s.drop_first().push(c));
        lemma_escape_str_snoc(s.drop_first(), c);
        assert(s.push(c)[0] == s[0]);
        assert(escape_char(s[0]) + (escape_str(s.drop_first()) + escape_char(c)) =~= (escape_char(
            s[0],
        ) + escape_str(s.drop_first())) + escape_char(c));
    }
}

/// Appends the escaped form of one character.
fn push_escaped_char(out: &mut String, c: char)
    ensures
        final(out)@ == old(out)@ + escape_char(c),
{
    let u = c as u32;
    if c == '"' {
        push_char(out, '\\');
        push_char(out, '"');
        proof {
            assert(old(out)@.push('\\').push('"') =~= old(out)@ + escape_char(c));
        }
    } else if c == '\\' {
        push_char(out, '\\');
        push_char(out, '\\');
        proof {
            assert(old(out)@.push('\\').push('\\') =~= old(out)@ + escape_char(c));
        }
    } else if u < 32 {
        push_char(out, '\\');
        push_char(out, 'u');
        push_char(out, '0');
        push_char(out, '0');
        push_hex(out, u / 16);
        push_hex(out, u % 16);
        proof {
            assert(old(out)@.push('\\').push('u').push('0').push('0').push(hex_char(u / 16)).push(
                hex_char(u % 16),
            ) =~= old(out)@ + escape_char(c));
        }
    } else {
        push_char(out, c);
        proof {
            assert(old(out)@.push(c) =~= old(out)@ + escape_char(c));
        }
    }
}

/// Appends a quoted, escaped JSON string literal for `s`.
fn push_quoted(out: &mut String, s: &str)
    ensures
        final(out)@ == old(out)@ + quote(s@),
{
    push_char(out, '"');
    let n = s.unicode_len();
    let mut i: usize = 0;
    while i < n
        invariant
            n == s@.len(),
            i <= n,
            out@ == old(out)@.push('"') + escape_str(s@.subrange(0, i as int)),
        decreases n - i,
    {
        let c = s.get_char(i);
        proof {
            let pre = s@.subrange(0, i as int);
            lemma_escape_str_snoc(pre, s@[i as int]);
            assert(s@.subrange(0, i + 1 as int) =~= pre.push(s@[i as int]));
            assert((old(out)@.push('"') + escape_str(pre)) + escape_char(s@[i as int]) =~= old(
                out,
            )@.push('"') + escape_str(s@.subrange(0, i + 1 as int)));
        }
        push_escaped_char(out, c);
        i += 1;
    }
    proof {
        assert(s@.subrange(0, n as int) =~= s@);
    }
    push_char(out, '"');
    proof {
        assert((old(out)@.push('"') + escape_str(s@)).push('"') =~= old(out)@ + quote(s@));
    }
}

/// Appends the rendered allow-list array.
fn push_roles(out: &mut String, roles: &Vec<u64>)
    ensures
        final(out)@ == old(out)@ + render_roles(roles@),
{
    let n = roles.len();
    if n == 0 {
        proof {
            reveal_strlit("[]");
        }
        out.append("[]");
        proof {
            assert(old(out)@ + "[]"@ =~= old(out)@ + render_roles(roles@));
        }
        return ;
    }
    proof {
        reveal_strlit("[\n    ");
    }
    out.append("[\n    ");
    push_dec(out, roles[0]);
    proof {
        assert(old(out)@ + render_roles(roles@) =~= out@ + render_roles_tail(roles@.skip(1)));
    }
    let mut p: usize = 1;
    while p < n
        invariant
            n == roles@.len(),
            1 <= p <= n,
            old(out)@ + render_roles(roles@) == out@ + render_roles_tail(roles@.skip(p as int)),
        decreases n - p,
    {
        proof {
            reveal_strlit(",\n    ");
        }
        out.append(",\n    ");
        push_dec(out, roles[p]);
        proof {
            let rest = roles@.skip(p as int);
            assert(rest[0] == roles@[p as int]);
            assert(rest.drop_first() =~= roles@.skip(p + 1 as int));
            assert(render_roles_tail(rest) =~= seq![',', '\n'] + ind4() + dec_rep(
                roles@[p as int],
            ) + render_roles_tail(roles@.skip(p + 1 as int)));
            assert(",\n    "@ =~= seq![',', '\n'] + ind4());
            assert(old(out)@ + render_roles(roles@) =~= out@ + render_roles_tail(
                roles@.skip(p + 1 as int),
            ));
        }
        p += 1;
    }
    proof {
        reveal_strlit("\n  ]");
    }
    out.append("\n  ]");
    proof {
        assert(roles@.skip(n as int) =~= Seq::<u64>::empty());
        assert(render_roles_tail(roles@.skip(n as int)) =~= seq!['\n', ' ', ' ', ']']);
        assert("\n  ]"@ =~= seq!['\n', ' ', ' ', ']']);
        assert(final(out)@ =~= old(out)@ + render_roles(roles@));
    }
}

/// Appends the rendered alias object.
fn push_aliases(out: &mut String, aliases: &Vec<(String, u64)>)
    ensures
        final(out)@ == old(out)@ + render_aliases(entries_view(aliases@)),
{
    let ghost av = entries_view(aliases@);
    let n = aliases.len();
    if n == 0 {
        proof {
            reveal_strlit("{}");
        }
        out.append("{}");
        proof {
            assert(old(out)@ + "{}"@ =~= old(out)@ + render_aliases(av));
        }
        return ;
    }
    proof {
        reveal_strlit("{\n    ");
    }
    out.append("{\n    ");
    push_quoted(out, aliases[0].0.as_str());
    proof {
        reveal_strlit(": ");
    }
    out.append(": ");
    push_dec(out, aliases[0].1);
    proof {
        assert(av[0] == (aliases@[0].0@, aliases@[0].1));
        assert(": "@ =~= seq![':', ' ']);
        assert(old(out)@ + render_aliases(av) =~= out@ + render_aliases_tail(av.skip(1)));
    }
    let mut p: usize = 1;
    while p < n
        invariant
            n == aliases@.len(),
            av == entries_view(aliases@),
            1 <= p <= n,
            old(out)@ + render_aliases(av) == out@ + render_aliases_tail(av.skip(p as int)),
        decreases n - p,
    {
        proof {
            reveal_strlit(",\n    ");
        }
        out.append(",\n    ");
        push_quoted(out, aliases[p].0.as_str());
        proof {
            reveal_strlit(": ");
        }
        out.append(": ");
        push_dec(out, aliases[p].1);
        proof {
            let rest = av.skip(p as int);
            assert(rest[0] == av[p as int]);
            assert(av[p as int] == (aliases@[p as int].0@, aliases@[p as int].1));
            assert(rest.drop_first() =~= av.skip(p + 1 as int));
            assert(render_aliases_tail(rest) =~= seq![',', '\n'] + ind4() + render_alias_entry(
                av[p as int],
            ) + render_aliases_tail(av.skip(p + 1 as int)));
            assert(",\n    "@ =~= seq![',', '\n'] + ind4());
            assert(": "@ =~= seq![':', ' ']);
            assert(old(out)@ + render_aliases(av) =~= out@ + render_aliases_tail(
                av.skip(p + 1 as int),
            ));
        }
        p += 1;
    }
    proof {
        reveal_strlit("\n  }");
    }
    out.append("\n  }");
    proof {
        assert(av.skip(n as int) =~= Seq::<(Seq<char>, u64)>::empty());
        assert("\n  }"@ =~= seq!['\n', ' ', ' ', '}']);
        assert(final(out)@ =~= old(out)@ + render_aliases(av));
    }
}

/// A string of ordinary characters renders as itself.
proof fn lemma_plain_escape(s: Seq<char>)
    requires
        forall|t: int|
            0 <= t < s.len() ==> (#[trigger] s[t]) != '"' && s[t] != '\\' && s[t] as u32 >= 32,
    ensures
        escape_str(s) == s,
    decreases s.len(),
{
    if s.len() > 0 {
        assert(forall|t: int| 0 <= t < s.drop_first().len() ==> s.drop_first()[t] == s[t + 1]);
        lemma_plain_escape(s.drop_first());
        assert(escape_char(s[0]) =~= seq![s[0]]);
        assert(seq![s[0]] + s.drop_first() =~= s);
    }
}

/// Renders a registry into the persisted document.
fn to_json_impl(cfg: &Config) -> (r: String)
    ensures
        r@ == render_doc(cfg.roles(), cfg.alias_seq()),
{
    let mut out = String::new();
    proof {
        reveal_strlit("{\n  \"allowed_roles\": ");
        lemma_plain_escape(name_allowed());
        assert("{\n  \"allowed_roles\": "@ =~= seq!['{', '\n', ' ', ' '] + quote(name_allowed())
            + seq![':', ' ']);
    }
    out.append("{\n  \"allowed_roles\": ");
    push_roles(&mut out, cfg.get_roles());
    proof {
        reveal_strlit(",\n  \"aliases\": ");
        lemma_plain_escape(name_aliases());
        assert(",\n  \"aliases\": "@ =~= seq![',', '\n', ' ', ' '] + quote(name_aliases()) + seq![
            ':',
            ' ',
        ]);
    }
    out.append(",\n  \"aliases\": ");
    push_aliases(&mut out, cfg.get_aliases());
    proof {
        reveal_strlit("\n}");
        assert("\n}"@ =~= seq!['\n', '}']);
    }
    out.append("\n}");
    proof {
        assert(out@ =~= render_doc(cfg.roles(), cfg.alias_seq()));
    }
    out
}


// ===== parsing: executable =====

/// The characters of a string slice, in order.
fn str_chars(s: &str) -> (v: Vec<char>)
    ensures
        v@ == s@,
{
    let n = s.unicode_len();
    let mut v: Vec<char> = Vec::new();
    let mut i: usize = 0;
    while i < n
        invariant
            n == s@.len(),
            i <= n,
            v@ == s@.subrange(0, i as int),
        decreases n - i,
    {
        v.push(s.get_char(i));
        proof {
            assert(v@ =~= s@.subrange(0, i + 1 as int));
        }
        i += 1;
    }
    proof {
        assert(s@.subrange(0, n as int) =~= s@);
    }
    v
}

fn e_skip_ws(s: &Vec<char>, i: usize) -> (r: usize)
    requires
        i <= s@.len(),
    ensures
        i <= r <= s@.len(),
        r as int == skip_ws(s@, i as int),
    decreases s@.len() - i,
{
    if i < s.len() {
        let c = s[i];
        if c == ' ' || c == '\n' || c == '\t' || c == '\r' {
            return e_skip_ws(s, i + 1);
        }
    }
    i
}

fn e_parse_digits(s: &Vec<char>, i: usize, acc: u64) -> (r: Option<(u64, usize)>)
    requires
        i <= s@.len(),
    ensures
        match r {
            Some(p) => parse_digits(s@, i as int, acc) == Some((p.0, p.1 as int)) && i <= p.1
                <= s@.len(),
            None => parse_digits(s@, i as int, acc) is None,
        },
    decreases s@.len() - i,
{
    if i < s.len() {
        let u = s[i] as u32;
        if 48 <= u && u <= 57 {
            let d = (u - 48) as u64;
            if acc <= (u64::MAX - d) / 10 {
                proof {
                    assert(acc * 10 + d <= u64::MAX) by {
                        let q = (u64::MAX - d) / 10;
                        assert(q * 10 + (u64::MAX - d) % 10 == u64::MAX - d);
                        assert(acc * 10 <= q * 10) by (nonlinear_arith)
                            requires
                                acc <= q,
                        ;
                    }
                }
                return e_parse_digits(s, i + 1, acc * 10 + d);
            } else {
                return None;
            }
        }
    }
    Some((acc, i))
}

fn e_parse_num(s: &Vec<char>, i: usize) -> (r: Option<(u64, usize)>)
    requires
        i <= s@.len(),
    ensures
        match r {
            Some(p) => parse_num(s@, i as int) == Some((p.0, p.1 as int)) && p.1 <= s@.len(),
            None => parse_num(s@, i as int) is None,
        },
{
    if !(i < s.len()) {
        return None;
    }
    let u = s[i] as u32;
    if !(48 <= u && u <= 57) {
        return None;
    }
    if s[i] == '0' {
        if i + 1 < s.len() {
            let u2 = s[i + 1] as u32;
            if 48 <= u2 && u2 <= 57 {
                return None;
            }
        }
        return Some((0, i + 1));
    }
    e_parse_digits(s, i, 0)
}

fn e_hex_val(c: char) -> (r: Option<u32>)
    ensures
        r == hex_val(c),
{
    let u = c as u32;
    if 48 <= u && u <= 57 {
        Some(u - 48)
    } else if 97 <= u && u <= 102 {
        Some(u - 87)
    } else if 65 <= u && u <= 70 {
        Some(u - 55)
    } else {
        None
    }
}

fn e_parse_string(s: &Vec<char>, i: usize) -> (r: Option<(String, usize)>)
    requires
        i <= s@.len(),
    ensures
        match r {
            Some(p) => parse_string(s@, i as int) == Some((p.0@, p.1 as int)) && p.1 <= s@.len(),
            None => parse_string(s@, i as int) is None,
        },
{
    let n = s.len();
    if !(i < n) {
        return None;
    }
    if s[i] != '"' {
        return None;
    }
    let mut out = String::new();
    let mut j: usize = i + 1;
    while j < n
        invariant
            i + 1 <= j <= n,
            n == s@.len(),
            i < n,
            s@[i as int] == '"',
            match parse_string_body(s@, j as int) {
                Some(p) => parse_string_body(s@, i + 1 as int) == Some((out@ + p.0, p.1)),
                None => parse_string_body(s@, i + 1 as int) is None,
            },
        decreases n - j,
    {
        let c = s[j];
        if c == '"' {
            proof {
                assert(out@ + Seq::<char>::empty() =~= out@);
            }
            return Some((out, j + 1));
        } else if c == '\\' {
            if !(j + 1 < n) {
                return None;
            }
            let e = s[j + 1];
            if e == '"' || e == '\\' || e == '/' {
                proof {
                    lemma_body_step(s@, j as int, e, j + 2);
                }
                push_char(&mut out, e);
                j = j + 2;
            } else if e == 'n' {
                proof {
                    lemma_body_step(s@, j as int, '\n', j + 2);
                }
                push_char(&mut out, '\n');
                j = j + 2;
            } else if e == 't' {
                proof {
                    lemma_body_step(s@, j as int, '\t', j + 2);
                }
                push_char(&mut out, '\t');
                j = j + 2;
            } else if e == 'r' {
                proof {
                    lemma_body_step(s@, j as int, '\r', j + 2);
                }
                push_char(&mut out, '\r');
                j = j + 2;
            } else if e == 'b' {
                proof {
                    lemma_body_step(s@, j as int, '\u{8}', j + 2);
                }
                push_char(&mut out, '\u{8}');
                j = j + 2;
            } else if e == 'f' {
                proof {
                    lemma_body_step(s@, j as int, '\u{c}', j + 2);
                }
                push_char(&mut out, '\u{c}');
                j = j + 2;
            } else if e == 'u' {
                if n - j <= 5 {
                    return None;
                }
                let h1 = e_hex_val(s[j + 2]);
                let h2 = e_hex_val(s[j + 3]);
                let h3 = e_hex_val(s[j + 4]);
                let h4 = e_hex_val(s[j + 5]);
                match (h1, h2, h3, h4) {
                    (Some(a), Some(b), Some(cc), Some(d)) => {
                        let v = a * 4096 + b * 256 + cc * 16 + d;
                        if v <= 255 {
                            let dc = (v as u8) as char;
                            proof {
                                lemma_body_step(s@, j as int, dc, j + 6);
                            }
                            push_char(&mut out, dc);
                            j = j + 6;
                        } else {
                            return None;
                        }
                    },
                    _ => {
                        return None;
                    },
                }
            } else {
                return None;
            }
        } else if c as u32 >= 32 {
            proof {
                lemma_body_step(s@, j as int, c, j + 1);
            }
            push_char(&mut out, c);
            j = j + 1;
        } else {
            return None;
        }
    }
    None
}

/// One unfolding of `parse_string_body`: when the parser consumes the text
/// from `j` to `k` producing character `dc`, the body parse from `j` is
/// `dc` prepended to the body parse from `k`.
proof fn lemma_body_step(s: Seq<char>, j: int, dc: char, k: int)
    requires
        parse_string_body(s, j) == cons_char(dc, parse_string_body(s, k)),
    ensures
        match parse_string_body(s, k) {
            Some(p) => parse_string_body(s, j) == Some((seq![dc] + p.0, p.1)),
            None => parse_string_body(s, j) is None,
        },
{
}

fn e_parse_roles_rest(s: &Vec<char>, i: usize, acc: Vec<u64>) -> (r: Option<(Vec<u64>, usize)>)
    requires
        i <= s@.len(),
    ensures
        match r {
            Some(p) => parse_roles_rest(s@, i as int, acc@) == Some((p.0@, p.1 as int)) && p.1
                <= s@.len(),
            None => parse_roles_rest(s@, i as int, acc@) is None,
        },
    decreases s@.len() - i,
{
    let n = s.len();
    let j = e_skip_ws(s, i);
    if !(j < n) {
        return None;
    }
    if s[j] == ']' {
        return Some((acc, j + 1));
    }
    if s[j] != ',' {
        return None;
    }
    let k = e_skip_ws(s, j + 1);
    match e_parse_num(s, k) {
        None => None,
        Some((v, m)) => {
            if !(i < m) {
                return None;
            }
            let mut acc2 = acc;
            acc2.push(v);
            e_parse_roles_rest(s, m, acc2)
        },
    }
}

fn e_parse_roles(s: &Vec<char>, i: usize) -> (r: Option<(Vec<u64>, usize)>)
    requires
        i <= s@.len(),
    ensures
        match r {
            Some(p) => parse_roles(s@, i as int) == Some((p.0@, p.1 as int)) && p.1 <= s@.len(),
            None => parse_roles(s@, i as int) is None,
        },
{
    let n = s.len();
    if !(i < n) {
        return None;
    }
    if s[i] != '[' {
        return None;
    }
    let j = e_skip_ws(s, i + 1);
    if j < n && s[j] == ']' {
        let out: Vec<u64> = Vec::new();
        proof {
            assert(out@ =~= Seq::<u64>::empty());
        }
        return Some((out, j + 1));
    }
    match e_parse_num(s, j) {
        None => None,
        Some((v, m)) => {
            if !(i < m) {
                return None;
            }
            let mut acc: Vec<u64> = Vec::new();
            acc.push(v);
            proof {
                assert(acc@ =~= seq![v]);
            }
            e_parse_roles_rest(s, m, acc)
        },
    }
}

fn e_parse_alias_entry(s: &Vec<char>, i: usize) -> (r: Option<((String, u64), usize)>)
    requires
        i <= s@.len(),
    ensures
        match r {
            Some(p) => parse_alias_entry(s@, i as int) == Some(((p.0.0@, p.0.1), p.1 as int))
                && p.1 <= s@.len(),
            None => parse_alias_entry(s@, i as int) is None,
        },
{
    let n = s.len();
    match e_parse_string(s, i) {
        None => None,
        Some((k, j)) => {
            let jc = e_skip_ws(s, j);
            if !(jc < n) {
                return None;
            }
            if s[jc] != ':' {
                return None;
            }
            let jv = e_skip_ws(s, jc + 1);
            match e_parse_num(s, jv) {
                None => None,
                Some((v, m)) => Some(((k, v), m)),
            }
        },
    }
}

fn e_parse_aliases_rest(s: &Vec<char>, i: usize, acc: Vec<(String, u64)>) -> (r: Option<
    (Vec<(String, u64)>, usize),
>)
    requires
        i <= s@.len(),
    ensures
        match r {
            Some(p) => parse_aliases_rest(s@, i as int, entries_view(acc@)) == Some(
                (entries_view(p.0@), p.1 as int),
            ) && p.1 <= s@.len(),
            None => parse_aliases_rest(s@, i as int, entries_view(acc@)) is None,
        },
    decreases s@.len() - i,
{
    let n = s.len();
    let j = e_skip_ws(s, i);
    if !(j < n) {
        return None;
    }
    if s[j] == '}' {
        return Some((acc, j + 1));
    }
    if s[j] != ',' {
        return None;
    }
    let k = e_skip_ws(s, j + 1);
    match e_parse_alias_entry(s, k) {
        None => None,
        Some((e, m)) => {
            if !(i < m) {
                return None;
            }
            let mut acc2 = acc;
            let ghost before = entries_view(acc2@);
            let ghost ev = (e.0@, e.1);
            acc2.push(e);
            proof {
                assert(entries_view(acc2@) =~= before.push(ev));
            }
            e_parse_aliases_rest(s, m, acc2)
        },
    }
}

fn e_parse_aliases(s: &Vec<char>, i: usize) -> (r: Option<(Vec<(String, u64)>, usize)>)
    requires
        i <= s@.len(),
    ensures
        match r {
            Some(p) => parse_aliases(s@, i as int) == Some((entries_view(p.0@), p.1 as int))
                && p.1 <= s@.len(),
            None => parse_aliases(s@, i as int) is None,
        },
{
    let n = s.len();
    if !(i < n) {
        return None;
    }
    if s[i] != '{' {
        return None;
    }
    let j = e_skip_ws(s, i + 1);
    if j < n && s[j] == '}' {
        let out: Vec<(String, u64)> = Vec::new();
        proof {
            assert(entries_view(out@) =~= Seq::<(Seq<char>, u64)>::empty());
        }
        return Some((out, j + 1));
    }
    match e_parse_alias_entry(s, j) {
        None => None,
        Some((e, m)) => {
            if !(i < m) {
                return None;
            }
            let mut acc: Vec<(String, u64)> = Vec::new();
            let ghost ev = (e.0@, e.1);
            acc.push(e);
            proof {
                assert(entries_view(acc@) =~= seq![ev]);
            }
            e_parse_aliases_rest(s, m, acc)
        },
    }
}

/// Parses a whole document: both fields in either order, nothing after.
fn e_parse_doc(s: &Vec<char>) -> (r: Option<(Vec<u64>, Vec<(String, u64)>)>)
    ensures
        match r {
            Some(p) => parse_doc(s@) == Some((p.0@, entries_view(p.1@))),
            None => parse_doc(s@) is None,
        },
{
    let n = s.len();
    let i = e_skip_ws(s, 0);
    if !(i < n) {
        return None;
    }
    if s[i] != '{' {
        return None;
    }
    let j = e_skip_ws(s, i + 1);
    let key1 = e_parse_string(s, j);
    match key1 {
        None => None,
        Some((key1, k1)) => {
            let c1 = e_skip_ws(s, k1);
            if !(c1 < n) {
                return None;
            }
            if s[c1] != ':' {
                return None;
            }
            let v1 = e_skip_ws(s, c1 + 1);
            let is_allowed = key_is(&key1, "allowed_roles");
            let is_aliases = key_is(&key1, "aliases");
            proof {
                reveal_strlit("allowed_roles");
                reveal_strlit("aliases");
                assert("allowed_roles"@ =~= name_allowed());
                assert("aliases"@ =~= name_aliases());
            }
            if is_allowed {
                match e_parse_roles(s, v1) {
                    None => None,
                    Some((roles, e1)) => {
                        match e_parse_second_aliases(s, e1) {
                            None => None,
                            Some(aliases) => Some((roles, aliases)),
                        }
                    },
                }
            } else if is_aliases {
                match e_parse_aliases(s, v1) {
                    None => None,
                    Some((aliases, e1)) => {
                        match e_parse_second_roles(s, e1) {
                            None => None,
                            Some(roles) => Some((roles, aliases)),
                        }
                    },
                }
            } else {
                None
            }
        },
    }
}

/// Whether the parsed key equals the given field name.
fn key_is(key: &String, name: &str) -> (r: bool)
    ensures
        r == (key@ == name@),
{
    let n = String::from_str(name);
    key.eq(&n)
}

/// The document's remainder after an allow-list first field: a comma, the
/// `aliases` field, and the closing brace.
fn e_parse_second_aliases(s: &Vec<char>, i: usize) -> (r: Option<Vec<(String, u64)>>)
    requires
        i <= s@.len(),
    ensures
        match r {
            Some(aliases) => forall|roles: Seq<u64>|
                parse_doc_second_aliases(s@, i as int, roles) == Some(
                    (roles, entries_view(aliases@)),
                ),
            None => forall|roles: Seq<u64>|
                parse_doc_second_aliases(s@, i as int, roles) is None,
        },
{
    let n = s.len();
    let c = e_skip_ws(s, i);
    if !(c < n) {
        return None;
    }
    if s[c] != ',' {
        return None;
    }
    let j = e_skip_ws(s, c + 1);
    match e_parse_string(s, j) {
        None => None,
        Some((key2, k2)) => {
            let good = key_is(&key2, "aliases");
            proof {
                reveal_strlit("aliases");
                assert("aliases"@ =~= name_aliases());
            }
            if !good {
                return None;
            }
            let c2 = e_skip_ws(s, k2);
            if !(c2 < n) {
                return None;
            }
            if s[c2] != ':' {
                return None;
            }
            let v2 = e_skip_ws(s, c2 + 1);
            match e_parse_aliases(s, v2) {
                None => None,
                Some((aliases, e2)) => {
                    if e_parse_end(s, e2) {
                        Some(aliases)
                    } else {
                        None
                    }
                },
            }
        },
    }
}

/// The document's remainder after an alias-table first field.
fn e_parse_second_roles(s: &Vec<char>, i: usize) -> (r: Option<Vec<u64>>)
    requires
        i <= s@.len(),
    ensures
        match r {
            Some(roles) => forall|aliases: Seq<(Seq<char>, u64)>|
                parse_doc_second_roles(s@, i as int, aliases) == Some((roles@, aliases)),
            None => forall|aliases: Seq<(Seq<char>, u64)>|
                parse_doc_second_roles(s@, i as int, aliases) is None,
        },
{
    let n = s.len();
    let c = e_skip_ws(s, i);
    if !(c < n) {
        return None;
    }
    if s[c] != ',' {
        return None;
    }
    let j = e_skip_ws(s, c + 1);
    match e_parse_string(s, j) {
        None => None,
        Some((key2, k2)) => {
            let good = key_is(&key2, "allowed_roles");
            proof {
                reveal_strlit("allowed_roles");
                assert("allowed_roles"@ =~= name_allowed());
            }
            if !good {
                return None;
            }
            let c2 = e_skip_ws(s, k2);
            if !(c2 < n) {
                return None;
            }
            if s[c2] != ':' {
                return None;
            }
            let v2 = e_skip_ws(s, c2 + 1);
            match e_parse_roles(s, v2) {
                None => None,
                Some((roles, e2)) => {
                    if e_parse_end(s, e2) {
                        Some(roles)
                    } else {
                        None
                    }
                },
            }
        },
    }
}

/// The closing brace followed only by whitespace.
fn e_parse_end(s: &Vec<char>, i: usize) -> (r: bool)
    requires
        i <= s@.len(),
    ensures
        r ==> forall|roles: Seq<u64>, aliases: Seq<(Seq<char>, u64)>|
            parse_doc_end(s@, i as int, roles, aliases) == Some((roles, aliases)),
        !r ==> forall|roles: Seq<u64>, aliases: Seq<(Seq<char>, u64)>|
            parse_doc_end(s@, i as int, roles, aliases) is None,
{
    let n = s.len();
    let c = e_skip_ws(s, i);
    if c < n {
        if s[c] == '}' {
            let g = e_skip_ws(s, c + 1);
            if g == n {
                return true;
            }
        }
    }
    false
}


// ===== loading =====

/// No role identifier repeated among the first `i` positions, paired with
/// every later one.
fn roles_unique(v: &Vec<u64>) -> (b: bool)
    ensures
        b == unique_roles(v@),
{
    let n = v.len();
    let mut i: usize = 0;
    while i < n
        invariant
            n == v@.len(),
            i <= n,
            forall|a: int, b: int| 0 <= a < b < n && a < i ==> v@[a] != v@[b],
        decreases n - i,
    {
        let mut j: usize = i + 1;
        while j < n
            invariant
                n == v@.len(),
                i < n,
                i + 1 <= j <= n,
                forall|a: int, b: int| 0 <= a < b < n && a < i ==> v@[a] != v@[b],
                forall|b: int| i < b < j ==> v@[i as int] != v@[b],
            decreases n - j,
        {
            if v[i] == v[j] {
                proof {
                    assert(v@[i as int] == v@[j as int]);
                    assert(!unique_roles(v@));
                }
                return false;
            }
            j += 1;
        }
        i += 1;
    }
    true
}

/// Whether all alias keys are distinct.
fn aliases_unique(v: &Vec<(String, u64)>) -> (b: bool)
    ensures
        b == unique_alias_keys(entries_view(v@)),
{
    let ghost ev = entries_view(v@);
    let n = v.len();
    let mut i: usize = 0;
    while i < n
        invariant
            ev == entries_view(v@),
            n == v@.len(),
            i <= n,
            forall|a: int, b: int| 0 <= a < b < n && a < i ==> ev[a].0 != ev[b].0,
        decreases n - i,
    {
        let mut j: usize = i + 1;
        while j < n
            invariant
                ev == entries_view(v@),
                n == v@.len(),
                i < n,
                i + 1 <= j <= n,
                forall|a: int, b: int| 0 <= a < b < n && a < i ==> ev[a].0 != ev[b].0,
                forall|b: int| i < b < j ==> ev[i as int].0 != ev[b].0,
            decreases n - j,
        {
            if v[i].0.eq(&v[j].0) {
                proof {
                    assert(ev[i as int].0 == ev[j as int].0);
                    assert(!unique_alias_keys(ev));
                }
                return false;
            }
            j += 1;
        }
        i += 1;
    }
    true
}

/// The content of a loadable document: it parses and satisfies the
/// registry's uniqueness invariants.
pub open spec fn loadable(s: Seq<char>) -> Option<(Seq<u64>, Seq<(Seq<char>, u64)>)> {
    match parse_doc(s) {
        Some((roles, aliases)) => if unique_roles(roles) && unique_alias_keys(aliases) {
            Some((roles, aliases))
        } else {
            None
        },
        None => None,
    }
}

impl Config {
    /// Serializes this registry to the persisted document.
    pub fn to_json(&self) -> (r: String)
        ensures
            r@ == render_doc(self.roles(), self.alias_seq()),
    {
        to_json_impl(self)
    }

    /// Parses a persisted document back into a registry; `None` on any
    /// malformed content, including content violating the registry's
    /// uniqueness invariants.
    pub fn from_json(s: &str) -> (r: Option<Config>)
        ensures
            match r {
                Some(cfg) => cfg.wf() && loadable(s@) == Some((cfg.roles(), cfg.alias_seq())),
                None => loadable(s@) is None,
            },
    {
        let chars = str_chars(s);
        match e_parse_doc(&chars) {
            None => None,
            Some((roles, aliases)) => {
                if roles_unique(&roles) {
                    if aliases_unique(&aliases) {
                        return Some(Config::from_parts(roles, aliases));
                    }
                }
                None
            },
        }
    }

    /// Builds the registry from the persisted file's text. `None` (no file)
    /// or unloadable content yields a fresh empty registry; the second
    /// component reports that fresh state, which the caller must persist
    /// at once.
    pub fn load_or_create(contents: Option<&str>) -> (r: (Config, bool))
        ensures
            r.0.wf(),
            match contents {
                Some(s) => match loadable(s@) {
                    Some(doc) => r.0.roles() == doc.0 && r.0.alias_seq() == doc.1 && !r.1,
                    None => r.0.roles() == Seq::<u64>::empty() && r.0.alias_seq() == Seq::<
                        (Seq<char>, u64),
                    >::empty() && r.1,
                },
                None => r.0.roles() == Seq::<u64>::empty() && r.0.alias_seq() == Seq::<
                    (Seq<char>, u64),
                >::empty() && r.1,
            },
    {
        match contents {
            Some(s) => match Config::from_json(s) {
                Some(cfg) => (cfg, false),
                None => (Config::create(), true),
            },
            None => (Config::create(), true),
        }
    }
}


// ===== round trip: numbers and whitespace =====

/// Powers of ten.
pub open spec fn pow10(n: nat) -> int
    decreases n,
{
    if n == 0 {
        1
    } else {
        10 * pow10((n - 1) as nat)
    }
}

proof fn lemma_pow10_pos(n: nat)
    ensures
        pow10(n) >= 1,
    decreases n,
{
    if n > 0 {
        lemma_pow10_pos((n - 1) as nat);
    }
}

/// The number denoted by a digit run, most significant digit first.
pub open spec fn val_digits(ds: Seq<char>) -> int
    decreases ds.len(),
{
    if ds.len() == 0 {
        0
    } else {
        val_digits(ds.drop_last()) * 10 + digit_val(ds.last())
    }
}

proof fn lemma_val_digits_nonneg(ds: Seq<char>)
    requires
        forall|t: int| 0 <= t < ds.len() ==> is_digit(#[trigger] ds[t]),
    ensures
        val_digits(ds) >= 0,
    decreases ds.len(),
{
    if ds.len() > 0 {
        assert(forall|t: int| 0 <= t < ds.drop_last().len() ==> ds.drop_last()[t] == ds[t]);
        lemma_val_digits_nonneg(ds.drop_last());
        assert(is_digit(ds[ds.len() - 1]));
    }
}

/// The decimal rendering of `v` is a digit run denoting `v`, without a
/// leading zero.
proof fn lemma_dec_rep_props(v: u64)
    ensures
        dec_rep(v).len() >= 1,
        forall|t: int| 0 <= t < dec_rep(v).len() ==> is_digit(#[trigger] dec_rep(v)[t]),
        val_digits(dec_rep(v)) == v,
        v > 0 ==> dec_rep(v)[0] != '0',
    decreases v,
{
    if v < 10 {
        let c = digit_char(v);
        assert(c as u32 == 48 + v);
        assert(is_digit(c));
        assert(dec_rep(v) == seq![c]);
        assert(seq![c].drop_last() =~= Seq::<char>::empty());
        assert(seq![c].last() == c);
        assert(val_digits(Seq::<char>::empty()) == 0);
        assert(val_digits(seq![c]) == digit_val(c));
        assert(digit_val(c) == v);
        if v > 0 {
            assert('0' as u32 == 48);
            assert(c as u32 != 48);
        }
    } else {
        lemma_dec_rep_props(v / 10);
        let pre = dec_rep(v / 10);
        let d = v % 10;
        let c = digit_char(d);
        assert(c as u32 == 48 + d);
        assert(is_digit(c));
        assert(dec_rep(v) == pre.push(c));
        assert forall|t: int| 0 <= t < dec_rep(v).len() implies is_digit(
            #[trigger] dec_rep(v)[t],
        ) by {
            if t < pre.len() {
                assert(dec_rep(v)[t] == pre[t]);
            } else {
                assert(dec_rep(v)[t] == c);
            }
        }
        assert(pre.push(c).drop_last() =~= pre);
        assert(pre.push(c).last() == c);
        assert(val_digits(dec_rep(v)) == val_digits(pre) * 10 + d);
        assert((v / 10) * 10 + v % 10 == v);
        assert(v / 10 > 0);
        assert(dec_rep(v)[0] == pre[0]);
    }
}

/// Head decomposition of a digit run's value.
proof fn lemma_val_head(ds: Seq<char>)
    requires
        ds.len() >= 1,
        forall|t: int| 0 <= t < ds.len() ==> is_digit(#[trigger] ds[t]),
    ensures
        val_digits(ds) == digit_val(ds[0]) * pow10((ds.len() - 1) as nat) + val_digits(
            ds.drop_first(),
        ),
        0 <= val_digits(ds) < pow10(ds.len() as nat),
    decreases ds.len(),
{
    lemma_val_digits_nonneg(ds);
    let dl = ds.drop_last();
    let d = digit_val(ds.last());
    assert(0 <= d <= 9);
    if ds.len() == 1 {
        assert(dl =~= Seq::<char>::empty());
        assert(ds.drop_first() =~= Seq::<char>::empty());
        assert(val_digits(ds) == d);
        assert(ds.last() == ds[0]);
        assert(pow10(0) == 1);
        assert(pow10(1) == 10);
    } else {
        assert(forall|t: int| 0 <= t < dl.len() ==> dl[t] == ds[t]);
        lemma_val_head(dl);
        let m = (dl.len() - 1) as nat;
        let p = pow10(m);
        lemma_pow10_pos(m);
        let h = digit_val(ds[0]);
        assert(0 <= h <= 9);
        assert(dl[0] == ds[0]);
        // value of the whole run via the tail's last digit
        assert(val_digits(ds) == val_digits(dl) * 10 + d);
        // the two "rest" runs relate: ds.drop_first().drop_last() == dl.drop_first()
        let df = ds.drop_first();
        assert(df.len() == ds.len() - 1);
        assert(forall|t: int| 0 <= t < df.len() ==> df[t] == ds[t + 1]);
        assert(df.drop_last() =~= dl.drop_first());
        assert(df.last() == ds.last());
        assert(val_digits(df) == val_digits(dl.drop_first()) * 10 + d);
        // combine, using the inductive head decomposition of dl
        assert(val_digits(dl) == h * p + val_digits(dl.drop_first()));
        assert((h * p + val_digits(dl.drop_first())) * 10 == h * (10 * p) + val_digits(
            dl.drop_first(),
        ) * 10) by (nonlinear_arith);
        assert(pow10((ds.len() - 1) as nat) == 10 * p);
        assert(val_digits(ds) == h * pow10((ds.len() - 1) as nat) + val_digits(df));
        // bound
        lemma_val_digits_nonneg(dl);
        assert(val_digits(dl) < pow10(dl.len() as nat));
        assert(val_digits(dl) * 10 <= (pow10(dl.len() as nat) - 1) * 10) by (nonlinear_arith)
            requires
                val_digits(dl) <= pow10(dl.len() as nat) - 1,
        ;
        assert(pow10(ds.len() as nat) == 10 * pow10(dl.len() as nat));
        assert(val_digits(ds) < pow10(ds.len() as nat));
    }
}

/// The digit reader, started anywhere inside a digit run that ends before
/// a non-digit, returns the run's value folded onto the accumulator.
proof fn lemma_parse_digits_complete(s: Seq<char>, i: int, j: int, acc: u64)
    requires
        0 <= i <= j <= s.len(),
        forall|t: int| i <= t < j ==> is_digit(#[trigger] s[t]),
        j == s.len() || !is_digit(s[j]),
        acc * pow10((j - i) as nat) + val_digits(s.subrange(i, j)) <= u64::MAX,
    ensures
        parse_digits(s, i, acc) == Some(
            ((acc * pow10((j - i) as nat) + val_digits(s.subrange(i, j))) as u64, j),
        ),
    decreases j - i,
{
    let w = s.subrange(i, j);
    assert(forall|t: int| 0 <= t < w.len() ==> w[t] == s[i + t]);
    if i == j {
        assert(w =~= Seq::<char>::empty());
        assert(pow10(0) == 1);
        assert(acc * 1 == acc);
    } else {
        assert(is_digit(s[i]));
        let d = digit_val(s[i]);
        assert(0 <= d <= 9);
        let m = (j - i - 1) as nat;
        let p = pow10(m);
        lemma_pow10_pos(m);
        assert(w.len() >= 1);
        assert(w[0] == s[i]);
        assert(w.drop_first() =~= s.subrange(i + 1, j));
        lemma_val_head(w);
        let vrest = val_digits(s.subrange(i + 1, j));
        assert(val_digits(w) == d * p + vrest);
        lemma_val_digits_nonneg(s.subrange(i + 1, j));
        assert(pow10((j - i) as nat) == 10 * p);
        let acc1 = acc * 10 + d;
        assert(acc * (10 * p) + (d * p + vrest) == acc1 * p + vrest) by (nonlinear_arith)
            requires
                acc1 == acc * 10 + d,
        ;
        assert(acc1 * p + vrest <= u64::MAX);
        assert(acc1 <= acc1 * p) by (nonlinear_arith)
            requires
                p >= 1,
                acc1 >= 0,
        ;
        assert(acc1 <= u64::MAX);
        // the overflow guard in the definition passes
        assert(acc <= (u64::MAX - d) / 10) by {
            let q = (u64::MAX - d) / 10;
            assert(q * 10 + (u64::MAX - d) % 10 == u64::MAX - d);
            if acc > q {
                assert(acc >= q + 1);
                assert(acc * 10 >= (q + 1) * 10) by (nonlinear_arith)
                    requires
                        acc >= q + 1,
                ;
            }
        }
        lemma_parse_digits_complete(s, i + 1, j, acc1 as u64);
        assert(parse_digits(s, i, acc) == parse_digits(s, i + 1, acc1 as u64));
        assert(acc1 * pow10(m) + val_digits(s.subrange(i + 1, j)) == acc * pow10((j - i) as nat)
            + val_digits(w));
    }
}

/// The number parser accepts exactly the decimal rendering of `v` when a
/// non-digit (or the end) follows it.
proof fn lemma_parse_num_complete(s: Seq<char>, i: int, v: u64)
    requires
        0 <= i,
        i + dec_rep(v).len() <= s.len(),
        forall|t: int| 0 <= t < dec_rep(v).len() ==> s[i + t] == #[trigger] dec_rep(v)[t],
        i + dec_rep(v).len() == s.len() || !is_digit(s[i + dec_rep(v).len()]),
    ensures
        parse_num(s, i) == Some((v, i + dec_rep(v).len())),
{
    lemma_dec_rep_props(v);
    let l = dec_rep(v).len() as int;
    assert(s[i] == dec_rep(v)[0]);
    assert(is_digit(s[i]));
    if v == 0 {
        assert(dec_rep(0) == seq![digit_char(0)]);
        assert(l == 1);
        assert(s[i] == digit_char(0));
        assert(digit_char(0) as u32 == 48);
        assert('0' as u32 == 48);
        broadcast use vstd::utf8::char_u32_cast;

        assert(s[i] == '0');
        assert(i + 1 == s.len() || !is_digit(s[i + 1]));
    } else {
        assert(s[i] != '0');
        assert forall|t: int| i <= t < i + l implies is_digit(#[trigger] s[t]) by {
            let u = t - i;
            assert(s[i + u] == dec_rep(v)[u]);
            assert(is_digit(dec_rep(v)[u]));
        }
        assert(s.subrange(i, i + l) =~= dec_rep(v));
        assert(pow10(0) == 1);
        lemma_parse_digits_complete(s, i, i + l, 0);
        assert(0 * pow10((l) as nat) == 0);
        assert(val_digits(s.subrange(i, i + l)) == v);
    }
}

/// The whitespace skipper stops exactly at the first non-whitespace
/// character.
proof fn lemma_skip_ws_to(s: Seq<char>, i: int, j: int)
    requires
        0 <= i <= j <= s.len(),
        forall|t: int| i <= t < j ==> is_ws(#[trigger] s[t]),
        j == s.len() || !is_ws(s[j]),
    ensures
        skip_ws(s, i) == j,
    decreases j - i,
{
    if i < j {
        assert(is_ws(s[i]));
        lemma_skip_ws_to(s, i + 1, j);
    }
}

/// Hexadecimal digits round-trip.
proof fn lemma_hex_roundtrip(d: u32)
    requires
        d < 16,
    ensures
        hex_val(hex_char(d)) == Some(d),
{
    if d < 10 {
        assert(hex_char(d) as u32 == 48 + d);
    } else {
        assert(hex_char(d) as u32 == 87 + d);
    }
}


// ===== round trip: strings =====

/// Instantiates a window-match fact at one position.
proof fn lemma_window_char(s: Seq<char>, i: int, w: Seq<char>, t: int)
    requires
        0 <= t < w.len(),
        forall|u: int| 0 <= u < w.len() ==> s[i + u] == #[trigger] w[u],
    ensures
        s[i + t] == w[t],
{
}

/// The string-body parser decodes an escaped rendering back to the
/// original characters, stopping at the closing quote.
#[verifier::rlimit(100)]
proof fn lemma_parse_string_body_complete(s: Seq<char>, i: int, k: Seq<char>)
    requires
        0 <= i,
        i + escape_str(k).len() < s.len(),
        forall|t: int| 0 <= t < escape_str(k).len() ==> s[i + t] == #[trigger] escape_str(k)[t],
        s[i + escape_str(k).len()] == '"',
    ensures
        parse_string_body(s, i) == Some((k, i + escape_str(k).len() + 1)),
    decreases k.len(),
{
    broadcast use vstd::utf8::char_u32_cast;

    if k.len() == 0 {
        assert(escape_str(k).len() == 0);
        assert(s[i] == '"');
    } else {
        let c = k[0];
        let e = escape_char(c);
        let kr = k.drop_first();
        let rest = escape_str(kr);
        assert(escape_str(k) == e + rest);
        assert(escape_str(k).len() == e.len() + rest.len());
        assert forall|t: int| 0 <= t < e.len() implies s[i + t] == e[t] by {
            assert(s[i + t] == escape_str(k)[t]);
            assert(escape_str(k)[t] == e[t]);
        }
        let i2 = i + e.len() as int;
        assert forall|t: int| 0 <= t < rest.len() implies s[i2 + t] == rest[t] by {
            assert(s[i + (e.len() + t)] == escape_str(k)[e.len() + t]);
            assert(escape_str(k)[e.len() + t] == rest[t]);
        }
        assert(s[i2 + rest.len() as int] == '"');
        lemma_parse_string_body_complete(s, i2, kr);
        // now show the parser consumes exactly `e`, producing `c`
        if c == '"' {
            assert(e == seq!['\\', '"']);
            assert(s[i] == '\\' && s[i + 1] == '"');
            assert(parse_string_body(s, i) == cons_char('"', parse_string_body(s, i + 2)));
        } else if c == '\\' {
            assert(e == seq!['\\', '\\']);
            assert(s[i] == '\\' && s[i + 1] == '\\');
            assert(parse_string_body(s, i) == cons_char('\\', parse_string_body(s, i + 2)));
        } else if (c as u32) < 32 {
            let cu = c as u32;
            let hi = cu / 16;
            let lo = cu % 16;
            assert(e == seq!['\\', 'u', '0', '0', hex_char(hi), hex_char(lo)]);
            assert(s[i] == '\\' && s[i + 1] == 'u');
            assert(s[i + 2] == '0' && s[i + 3] == '0');
            assert(s[i + 4] == hex_char(hi) && s[i + 5] == hex_char(lo));
            assert('0' as u32 == 48);
            assert(hex_val('0') == Some(0u32));
            assert(hi < 16 && lo < 16);
            lemma_hex_roundtrip(hi);
            lemma_hex_roundtrip(lo);
            let v = 0 * 4096 + 0 * 256 + hi * 16 + lo;
            assert(v == cu);
            assert(v <= 255);
            assert(((v as u8) as char) as u32 == cu);
            let dc = (v as u8) as char;
            vstd::utf8::char_u32_cast(c, cu);
            vstd::utf8::char_u32_cast(dc, cu);
            assert(dc == c);
            assert(i + 5 < s.len());
            assert(parse_string_body(s, i) == cons_char(c, parse_string_body(s, i + 6)));
        } else {
            assert(e == seq![c]);
            assert(e[0] == c);
            lemma_window_char(s, i, e, 0);
            assert(s[i] == c);
            assert(c as u32 >= 32);
            assert(parse_string_body(s, i) == cons_char(c, parse_string_body(s, i + 1)));
        }
        assert(parse_string_body(s, i2) == Some((kr, i2 + rest.len() + 1)));
        assert(seq![c] + kr =~= k);
        assert(parse_string_body(s, i) == Some((k, i + escape_str(k).len() + 1)));
    }
}

/// The string parser accepts exactly a quoted rendering.
proof fn lemma_parse_string_complete(s: Seq<char>, i: int, k: Seq<char>)
    requires
        0 <= i,
        i + quote(k).len() <= s.len(),
        forall|t: int| 0 <= t < quote(k).len() ==> s[i + t] == #[trigger] quote(k)[t],
    ensures
        parse_string(s, i) == Some((k, i + quote(k).len())),
{
    let e = escape_str(k);
    assert(quote(k).len() == e.len() + 2);
    assert(s[i] == quote(k)[0]);
    assert(quote(k)[0] == '"');
    assert forall|t: int| 0 <= t < e.len() implies s[i + 1 + t] == #[trigger] e[t] by {
        assert(s[i + (1 + t)] == quote(k)[1 + t]);
        assert(quote(k)[1 + t] == e[t]);
    }
    assert(s[i + 1 + e.len() as int] == quote(k)[1 + e.len() as int]);
    assert(quote(k)[1 + e.len() as int] == '"');
    lemma_parse_string_body_complete(s, i + 1, k);
}

// ===== round trip: lists =====

/// The element-list parser consumes a rendered tail, appending its items.
proof fn lemma_parse_roles_rest_complete(s: Seq<char>, i: int, acc: Seq<u64>, rest: Seq<u64>)
    requires
        0 <= i,
        i + render_roles_tail(rest).len() <= s.len(),
        forall|t: int|
            0 <= t < render_roles_tail(rest).len() ==> s[i + t] == #[trigger] render_roles_tail(
                rest,
            )[t],
    ensures
        parse_roles_rest(s, i, acc) == Some((acc + rest, i + render_roles_tail(rest).len())),
    decreases rest.len(),
{
    let w = render_roles_tail(rest);
    if rest.len() == 0 {
        assert(w == seq!['\n', ' ', ' ', ']']);
        assert(s[i] == '\n' && s[i + 1] == ' ' && s[i + 2] == ' ' && s[i + 3] == ']');
        lemma_skip_ws_to(s, i, i + 3);
        assert(acc + rest =~= acc);
    } else {
        let v = rest[0];
        let dv = dec_rep(v);
        let rr = rest.drop_first();
        let w2 = render_roles_tail(rr);
        assert(w == seq![',', '\n'] + ind4() + dv + w2);
        assert(w.len() == 6 + dv.len() + w2.len());
        assert(s[i] == w[0] && w[0] == ',');
        lemma_skip_ws_to(s, i, i);
        lemma_window_char(s, i, w, 1);
        lemma_window_char(s, i, w, 2);
        lemma_window_char(s, i, w, 3);
        lemma_window_char(s, i, w, 4);
        lemma_window_char(s, i, w, 5);
        assert(w[1] == '\n' && w[2] == ' ' && w[3] == ' ' && w[4] == ' ' && w[5] == ' ');
        assert(s[i + 1] == '\n' && s[i + 2] == ' ' && s[i + 3] == ' ' && s[i + 4] == ' ' && s[i
            + 5] == ' ');
        let dstart = i + 6;
        assert forall|t: int| 0 <= t < dv.len() implies s[dstart + t] == #[trigger] dv[t] by {
            assert(s[i + (6 + t)] == w[6 + t]);
            assert(w[6 + t] == dv[t]);
        }
        lemma_dec_rep_props(v);
        assert(is_digit(dv[0]));
        assert(!is_ws(s[dstart]));
        lemma_skip_ws_to(s, i + 1, dstart);
        let dend = dstart + dv.len() as int;
        // the character after the digits is the head of the next tail
        assert(s[dend] == w[6 + dv.len() as int]);
        assert(w[6 + dv.len() as int] == w2[0]);
        if rr.len() == 0 {
            assert(w2[0] == '\n');
        } else {
            assert(w2[0] == ',');
        }
        assert(!is_digit(s[dend]));
        lemma_parse_num_complete(s, dstart, v);
        assert forall|t: int| 0 <= t < w2.len() implies s[dend + t] == #[trigger] w2[t] by {
            assert(s[i + (6 + dv.len() + t)] == w[6 + dv.len() + t]);
            assert(w[6 + dv.len() + t] == w2[t]);
        }
        lemma_parse_roles_rest_complete(s, dend, acc.push(v), rr);
        assert(acc.push(v) + rr =~= acc + rest);
    }
}

/// The array parser accepts exactly a rendered allow-list.
proof fn lemma_parse_roles_complete(s: Seq<char>, i: int, roles: Seq<u64>)
    requires
        0 <= i,
        i + render_roles(roles).len() <= s.len(),
        forall|t: int|
            0 <= t < render_roles(roles).len() ==> s[i + t] == #[trigger] render_roles(roles)[t],
    ensures
        parse_roles(s, i) == Some((roles, i + render_roles(roles).len())),
{
    let w = render_roles(roles);
    assert(s[i] == w[0]);
    assert(w[0] == '[');
    if roles.len() == 0 {
        assert(w == seq!['[', ']']);
        assert(s[i + 1] == ']');
        lemma_skip_ws_to(s, i + 1, i + 1);
        assert(roles =~= Seq::<u64>::empty());
    } else {
        let v = roles[0];
        let dv = dec_rep(v);
        let rr = roles.drop_first();
        let w2 = render_roles_tail(rr);
        assert(w == seq!['[', '\n'] + ind4() + dv + w2);
        assert(w.len() == 6 + dv.len() + w2.len());
        lemma_window_char(s, i, w, 1);
        lemma_window_char(s, i, w, 2);
        lemma_window_char(s, i, w, 3);
        lemma_window_char(s, i, w, 4);
        lemma_window_char(s, i, w, 5);
        assert(w[1] == '\n' && w[2] == ' ' && w[3] == ' ' && w[4] == ' ' && w[5] == ' ');
        assert(s[i + 1] == '\n' && s[i + 2] == ' ' && s[i + 3] == ' ' && s[i + 4] == ' ' && s[i
            + 5] == ' ');
        let dstart = i + 6;
        assert forall|t: int| 0 <= t < dv.len() implies s[dstart + t] == #[trigger] dv[t] by {
            assert(s[i + (6 + t)] == w[6 + t]);
            assert(w[6 + t] == dv[t]);
        }
        lemma_dec_rep_props(v);
        assert(is_digit(dv[0]));
        assert(!is_ws(s[dstart]));
        lemma_skip_ws_to(s, i + 1, dstart);
        assert(s[dstart] != ']');
        let dend = dstart + dv.len() as int;
        assert(s[dend] == w[6 + dv.len() as int]);
        assert(w[6 + dv.len() as int] == w2[0]);
        if rr.len() == 0 {
            assert(w2[0] == '\n');
        } else {
            assert(w2[0] == ',');
        }
        assert(!is_digit(s[dend]));
        lemma_parse_num_complete(s, dstart, v);
        assert forall|t: int| 0 <= t < w2.len() implies s[dend + t] == #[trigger] w2[t] by {
            assert(s[i + (6 + dv.len() + t)] == w[6 + dv.len() + t]);
            assert(w[6 + dv.len() + t] == w2[t]);
        }
        lemma_parse_roles_rest_complete(s, dend, seq![v], rr);
        assert(seq![v] + rr =~= roles);
    }
}

/// The entry parser accepts exactly a rendered alias entry when a
/// non-digit follows it.
proof fn lemma_parse_alias_entry_complete(s: Seq<char>, i: int, e: (Seq<char>, u64))
    requires
        0 <= i,
        i + render_alias_entry(e).len() <= s.len(),
        forall|t: int|
            0 <= t < render_alias_entry(e).len() ==> s[i + t] == #[trigger] render_alias_entry(
                e,
            )[t],
        i + render_alias_entry(e).len() == s.len() || !is_digit(
            s[i + render_alias_entry(e).len()],
        ),
    ensures
        parse_alias_entry(s, i) == Some(((e.0, e.1), i + render_alias_entry(e).len())),
{
    let w = render_alias_entry(e);
    let q = quote(e.0);
    let dv = dec_rep(e.1);
    assert(w == q + seq![':', ' '] + dv);
    assert(w.len() == q.len() + 2 + dv.len());
    assert forall|t: int| 0 <= t < q.len() implies s[i + t] == #[trigger] q[t] by {
        assert(s[i + t] == w[t]);
        assert(w[t] == q[t]);
    }
    lemma_parse_string_complete(s, i, e.0);
    let qe = i + q.len() as int;
    assert(s[qe] == w[q.len() as int]);
    assert(w[q.len() as int] == ':');
    lemma_skip_ws_to(s, qe, qe);
    assert(s[qe + 1] == w[q.len() as int + 1]);
    assert(w[q.len() as int + 1] == ' ');
    let dstart = qe + 2;
    assert forall|t: int| 0 <= t < dv.len() implies s[dstart + t] == #[trigger] dv[t] by {
        assert(s[i + (q.len() + 2 + t)] == w[q.len() + 2 + t]);
        assert(w[q.len() + 2 + t] == dv[t]);
    }
    lemma_dec_rep_props(e.1);
    assert(is_digit(dv[0]));
    assert(!is_ws(s[dstart]));
    lemma_skip_ws_to(s, qe + 1, dstart);
    lemma_parse_num_complete(s, dstart, e.1);
}

/// The entry-list parser consumes a rendered tail, appending its entries.
proof fn lemma_parse_aliases_rest_complete(
    s: Seq<char>,
    i: int,
    acc: Seq<(Seq<char>, u64)>,
    rest: Seq<(Seq<char>, u64)>,
)
    requires
        0 <= i,
        i + render_aliases_tail(rest).len() <= s.len(),
        forall|t: int|
            0 <= t < render_aliases_tail(rest).len() ==> s[i + t]
                == #[trigger] render_aliases_tail(rest)[t],
    ensures
        parse_aliases_rest(s, i, acc) == Some((acc + rest, i + render_aliases_tail(rest).len())),
    decreases rest.len(),
{
    let w = render_aliases_tail(rest);
    if rest.len() == 0 {
        assert(w == seq!['\n', ' ', ' ', '}']);
        assert(s[i] == '\n' && s[i + 1] == ' ' && s[i + 2] == ' ' && s[i + 3] == '}');
        lemma_skip_ws_to(s, i, i + 3);
        assert(acc + rest =~= acc);
    } else {
        let en = rest[0];
        let ew = render_alias_entry(en);
        let rr = rest.drop_first();
        let w2 = render_aliases_tail(rr);
        assert(w == seq![',', '\n'] + ind4() + ew + w2);
        assert(w.len() == 6 + ew.len() + w2.len());
        assert(s[i] == w[0] && w[0] == ',');
        lemma_skip_ws_to(s, i, i);
        lemma_window_char(s, i, w, 1);
        lemma_window_char(s, i, w, 2);
        lemma_window_char(s, i, w, 3);
        lemma_window_char(s, i, w, 4);
        lemma_window_char(s, i, w, 5);
        assert(w[1] == '\n' && w[2] == ' ' && w[3] == ' ' && w[4] == ' ' && w[5] == ' ');
        assert(s[i + 1] == '\n' && s[i + 2] == ' ' && s[i + 3] == ' ' && s[i + 4] == ' ' && s[i
            + 5] == ' ');
        let estart = i + 6;
        assert forall|t: int| 0 <= t < ew.len() implies s[estart + t] == #[trigger] ew[t] by {
            assert(s[i + (6 + t)] == w[6 + t]);
            assert(w[6 + t] == ew[t]);
        }
        assert(ew[0] == quote(en.0)[0]);
        assert(quote(en.0)[0] == '"');
        assert(!is_ws(s[estart]));
        lemma_skip_ws_to(s, i + 1, estart);
        let eend = estart + ew.len() as int;
        assert(s[eend] == w[6 + ew.len() as int]);
        assert(w[6 + ew.len() as int] == w2[0]);
        if rr.len() == 0 {
            assert(w2[0] == '\n');
        } else {
            assert(w2[0] == ',');
        }
        assert(!is_digit(s[eend]));
        lemma_parse_alias_entry_complete(s, estart, en);
        assert forall|t: int| 0 <= t < w2.len() implies s[eend + t] == #[trigger] w2[t] by {
            assert(s[i + (6 + ew.len() + t)] == w[6 + ew.len() + t]);
            assert(w[6 + ew.len() + t] == w2[t]);
        }
        lemma_parse_aliases_rest_complete(s, eend, acc.push((en.0, en.1)), rr);
        assert((en.0, en.1) == en);
        assert(acc.push(en) + rr =~= acc + rest);
    }
}

/// The object parser accepts exactly a rendered alias table.
proof fn lemma_parse_aliases_complete(s: Seq<char>, i: int, aliases: Seq<(Seq<char>, u64)>)
    requires
        0 <= i,
        i + render_aliases(aliases).len() <= s.len(),
        forall|t: int|
            0 <= t < render_aliases(aliases).len() ==> s[i + t] == #[trigger] render_aliases(
                aliases,
            )[t],
    ensures
        parse_aliases(s, i) == Some((aliases, i + render_aliases(aliases).len())),
{
    let w = render_aliases(aliases);
    assert(s[i] == w[0]);
    assert(w[0] == '{');
    if aliases.len() == 0 {
        assert(w == seq!['{', '}']);
        assert(s[i + 1] == '}');
        lemma_skip_ws_to(s, i + 1, i + 1);
        assert(aliases =~= Seq::<(Seq<char>, u64)>::empty());
    } else {
        let en = aliases[0];
        let ew = render_alias_entry(en);
        let rr = aliases.drop_first();
        let w2 = render_aliases_tail(rr);
        assert(w == seq!['{', '\n'] + ind4() + ew + w2);
        assert(w.len() == 6 + ew.len() + w2.len());
        lemma_window_char(s, i, w, 1);
        lemma_window_char(s, i, w, 2);
        lemma_window_char(s, i, w, 3);
        lemma_window_char(s, i, w, 4);
        lemma_window_char(s, i, w, 5);
        assert(w[1] == '\n' && w[2] == ' ' && w[3] == ' ' && w[4] == ' ' && w[5] == ' ');
        assert(s[i + 1] == '\n' && s[i + 2] == ' ' && s[i + 3] == ' ' && s[i + 4] == ' ' && s[i
            + 5] == ' ');
        let estart = i + 6;
        assert forall|t: int| 0 <= t < ew.len() implies s[estart + t] == #[trigger] ew[t] by {
            assert(s[i + (6 + t)] == w[6 + t]);
            assert(w[6 + t] == ew[t]);
        }
        assert(ew[0] == quote(en.0)[0]);
        assert(quote(en.0)[0] == '"');
        assert(!is_ws(s[estart]));
        lemma_skip_ws_to(s, i + 1, estart);
        assert(s[estart] != '}');
        let eend = estart + ew.len() as int;
        assert(s[eend] == w[6 + ew.len() as int]);
        assert(w[6 + ew.len() as int] == w2[0]);
        if rr.len() == 0 {
            assert(w2[0] == '\n');
        } else {
            assert(w2[0] == ',');
        }
        assert(!is_digit(s[eend]));
        lemma_parse_alias_entry_complete(s, estart, en);
        assert forall|t: int| 0 <= t < w2.len() implies s[eend + t] == #[trigger] w2[t] by {
            assert(s[i + (6 + ew.len() + t)] == w[6 + ew.len() + t]);
            assert(w[6 + ew.len() + t] == w2[t]);
        }
        lemma_parse_aliases_rest_complete(s, eend, seq![(en.0, en.1)], rr);
        assert((en.0, en.1) == en);
        assert(seq![en] + rr =~= aliases);
    }
}

/// The field names render as themselves inside their quotes.
proof fn lemma_names_plain()
    ensures
        escape_str(name_allowed()) == name_allowed(),
        escape_str(name_aliases()) == name_aliases(),
{
    assert forall|t: int|
        0 <= t < name_allowed().len() implies (#[trigger] name_allowed()[t]) != '"'
        && name_allowed()[t] != '\\' && name_allowed()[t] as u32 >= 32 by {}
    lemma_plain_escape(name_allowed());
    assert forall|t: int|
        0 <= t < name_aliases().len() implies (#[trigger] name_aliases()[t]) != '"'
        && name_aliases()[t] != '\\' && name_aliases()[t] as u32 >= 32 by {}
    lemma_plain_escape(name_aliases());
}

/// The document's second field and closing brace parse back from the
/// rendering, from the position just after the rendered allow-list.
#[verifier::rlimit(100)]
proof fn lemma_round_trip_second(roles: Seq<u64>, aliases: Seq<(Seq<char>, u64)>)
    ensures
        parse_doc_second_aliases(
            render_doc(roles, aliases),
            21 + render_roles(roles).len() as int,
            roles,
        ) == Some((roles, aliases)),
{
    lemma_names_plain();
    let s = render_doc(roles, aliases);
    let a1 = seq!['{', '\n', ' ', ' '];
    let b1 = quote(name_allowed());
    let c1 = seq![':', ' '];
    let rw = render_roles(roles);
    let d1 = seq![',', '\n', ' ', ' '];
    let b2 = quote(name_aliases());
    let c2 = seq![':', ' '];
    let aw = render_aliases(aliases);
    let z = seq!['\n', '}'];
    assert(s == a1 + b1 + c1 + rw + d1 + b2 + c2 + aw + z);
    assert(b1.len() == 15);
    assert(b2.len() == 9);
    let rl = rw.len() as int;
    let al = aw.len() as int;
    assert(s.len() == 38 + rl + al);
    let p1 = 21 + rl;
    assert(s[p1] == d1[0]);
    assert(d1[0] == ',');
    lemma_skip_ws_to(s, p1, p1);
    assert(s[p1 + 1] == d1[1] && d1[1] == '\n');
    assert(s[p1 + 2] == d1[2] && d1[2] == ' ');
    assert(s[p1 + 3] == d1[3] && d1[3] == ' ');
    assert(s[p1 + 4] == b2[0]);
    assert(b2[0] == '"');
    lemma_skip_ws_to(s, p1 + 1, p1 + 4);
    assert forall|t: int| 0 <= t < b2.len() implies s[p1 + 4 + t] == #[trigger] b2[t] by {}
    lemma_parse_string_complete(s, p1 + 4, name_aliases());
    assert(name_aliases() != name_allowed()) by {
        assert(name_aliases().len() != name_allowed().len());
    }
    let p2 = p1 + 13;
    assert(s[p2] == c2[0]);
    assert(c2[0] == ':');
    lemma_skip_ws_to(s, p2, p2);
    assert(s[p2 + 1] == c2[1]);
    assert(c2[1] == ' ');
    assert(s[p2 + 2] == aw[0]);
    assert(aw[0] == '{');
    lemma_skip_ws_to(s, p2 + 1, p2 + 2);
    assert forall|t: int| 0 <= t < al implies s[p2 + 2 + t] == #[trigger] aw[t] by {}
    lemma_parse_aliases_complete(s, p2 + 2, aliases);
    let p3 = p2 + 2 + al;
    assert(s[p3] == z[0]);
    assert(z[0] == '\n');
    assert(s[p3 + 1] == z[1]);
    assert(z[1] == '}');
    lemma_skip_ws_to(s, p3, p3 + 1);
    assert(p3 + 2 == s.len());
    lemma_skip_ws_to(s, p3 + 2, s.len() as int);
    assert(parse_doc_end(s, p3, roles, aliases) == Some((roles, aliases)));
}

/// Round trip: parsing a rendered registry document reproduces the
/// allow-list and the alias table exactly.
#[verifier::rlimit(100)]
pub proof fn lemma_round_trip(roles: Seq<u64>, aliases: Seq<(Seq<char>, u64)>)
    ensures
        parse_doc(render_doc(roles, aliases)) == Some((roles, aliases)),
{
    lemma_names_plain();
    let s = render_doc(roles, aliases);
    let a1 = seq!['{', '\n', ' ', ' '];
    let b1 = quote(name_allowed());
    let c1 = seq![':', ' '];
    let rw = render_roles(roles);
    let d1 = seq![',', '\n', ' ', ' '];
    let b2 = quote(name_aliases());
    let c2 = seq![':', ' '];
    let aw = render_aliases(aliases);
    let z = seq!['\n', '}'];
    assert(s == a1 + b1 + c1 + rw + d1 + b2 + c2 + aw + z);
    assert(b1.len() == 15);
    let rl = rw.len() as int;
    let al = aw.len() as int;
    assert(s.len() == 38 + rl + al);
    assert(s[0] == '{');
    lemma_skip_ws_to(s, 0, 0);
    assert(s[1] == a1[1] && a1[1] == '\n');
    assert(s[2] == a1[2] && a1[2] == ' ');
    assert(s[3] == a1[3] && a1[3] == ' ');
    assert(s[4] == b1[0]);
    assert(b1[0] == '"');
    lemma_skip_ws_to(s, 1, 4);
    assert forall|t: int| 0 <= t < b1.len() implies s[4 + t] == #[trigger] b1[t] by {}
    lemma_parse_string_complete(s, 4, name_allowed());
    assert(parse_string(s, 4) == Some((name_allowed(), 19int)));
    assert(s[19] == c1[0]);
    assert(c1[0] == ':');
    lemma_skip_ws_to(s, 19, 19);
    assert(s[20] == c1[1]);
    assert(c1[1] == ' ');
    assert(s[21] == rw[0]);
    assert(rw[0] == '[');
    lemma_skip_ws_to(s, 20, 21);
    assert forall|t: int| 0 <= t < rl implies s[21 + t] == #[trigger] rw[t] by {}
    lemma_parse_roles_complete(s, 21, roles);
    lemma_round_trip_second(roles, aliases);
}

/// Round trip at the registry level: a well-formed registry's rendered
/// document loads back to the same allow-list and alias mapping.
pub proof fn lemma_config_round_trip(cfg: Config)
    requires
        cfg.wf(),
    ensures
        loadable(render_doc(cfg.roles(), cfg.alias_seq())) == Some(
            (cfg.roles(), cfg.alias_seq()),
        ),
{
    lemma_round_trip(cfg.roles(), cfg.alias_seq());
}

} // verus!
