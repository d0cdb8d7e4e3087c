//! Preparing script sources for evaluation in a plain global scope: JSON
//! string escaping, and stripping ES module syntax and TypeScript type
//! syntax from the sources of the loader and of ranking functions.
//!
//! Everything here works on characters; the patterns are ASCII, so a
//! character position and the byte position it starts at find the same
//! matches.

use vstd::prelude::*;

use crate::levenshtein::chars_of;

verus! {

// ============================================================================
// CHARACTER SEQUENCES
// ============================================================================

/// Unicode White_Space, the characters `char::is_whitespace` accepts.
pub open spec fn is_ws(c: char) -> bool {
    let v = c as u32;
    (0x9 <= v <= 0xd) || v == 0x20 || v == 0x85 || v == 0xa0 || v == 0x1680 || (0x2000 <= v <= 0x200a) || v
        == 0x2028 || v == 0x2029 || v == 0x202f || v == 0x205f || v == 0x3000
}

/// The sequence without its leading white space.
pub open spec fn trim_start(s: Seq<char>) -> Seq<char>
    decreases s.len(),
{
    if s.len() > 0 && is_ws(s[0]) {
        trim_start(s.drop_first())
    } else {
        s
    }
}

/// The sequence without its trailing white space.
pub open spec fn trim_end(s: Seq<char>) -> Seq<char>
    decreases s.len(),
{
    if s.len() > 0 && is_ws(s.last()) {
        trim_end(s.drop_last())
    } else {
        s
    }
}

/// `s` begins with `p`.
pub open spec fn begins_with(s: Seq<char>, p: Seq<char>) -> bool {
    p.len() <= s.len() && s.take(p.len() as int) == p
}

/// `p` occurs in `s` at `i`.
pub open spec fn occurs_at(s: Seq<char>, p: Seq<char>, i: int) -> bool {
    0 <= i && i + p.len() <= s.len() && s.subrange(i, i + p.len()) == p
}

/// The first position at or after `i` where `p` occurs in `s`, or -1.
pub open spec fn find_from(s: Seq<char>, p: Seq<char>, i: nat) -> int
    decreases s.len() + 1 - i,
{
    if i + p.len() > s.len() {
        -1
    } else if occurs_at(s, p, i as int) {
        i as int
    } else {
        find_from(s, p, i + 1)
    }
}

/// The first position where `p` occurs in `s`, or -1.
pub open spec fn find(s: Seq<char>, p: Seq<char>) -> int {
    find_from(s, p, 0)
}

/// Every occurrence of `p` replaced by `r`, scanning from the left and
/// resuming after each replaced occurrence (as `str::replace` does).
pub open spec fn replace_all(s: Seq<char>, p: Seq<char>, r: Seq<char>) -> Seq<char>
    decreases s.len(),
{
    if s.len() == 0 {
        Seq::empty()
    } else if p.len() > 0 && begins_with(s, p) {
        r + replace_all(s.skip(p.len() as int), p, r)
    } else {
        seq![s[0]] + replace_all(s.drop_first(), p, r)
    }
}

/// Appends a character to a string.
///
/// Calls `String::push`. Trusted: afterwards the string holds the
/// characters it held, then `c`.
#[verifier::external_body]
pub(crate) fn push_char(s: &mut String, c: char)
    ensures
        final(s)@ == old(s)@.push(c),
{
    s.push(c);
}

/// A string of these characters.
fn string_of(chars: &Vec<char>) -> (r: String)
    ensures
        r@ == chars@,
{
    let mut r = String::new();
    let mut i: usize = 0;
    while i < chars.len()
        invariant
            i <= chars@.len(),
            r@ == chars@.take(i as int),
        decreases chars@.len() - i,
    {
        push_char(&mut r, chars[i]);
        i = i + 1;
        assert(r@ =~= chars@.take(i as int));
    }
    assert(chars@.take(i as int) =~= chars@);
    r
}

/// Is the character white space?
fn is_whitespace(c: char) -> (r: bool)
    ensures
        r == is_ws(c),
{
    let v = c as u32;
    (0x9 <= v && v <= 0xd) || v == 0x20 || v == 0x85 || v == 0xa0 || v == 0x1680 || (0x2000 <= v && v <= 0x200a)
        || v == 0x2028 || v == 0x2029 || v == 0x202f || v == 0x205f || v == 0x3000
}

/// Does `p` occur in `s` at `i`?
fn occurs_at_exec(s: &Vec<char>, p: &Vec<char>, i: usize) -> (r: bool)
    ensures
        r == occurs_at(s@, p@, i as int),
{
    if i > s.len() || p.len() > s.len() - i {
        return false;
    }
    let n = s.len();
    let mut k: usize = 0;
    while k < p.len()
        invariant
            k <= p@.len(),
            n == s@.len(),
            i + p@.len() <= s@.len(),
            forall|m: int| 0 <= m < k ==> s@[i + m] == p@[m],
        decreases p@.len() - k,
    {
        assert(i + k < s@.len());
        if s[i + k] != p[k] {
            assert(s@.subrange(i as int, i + p@.len())[k as int] != p@[k as int]);
            return false;
        }
        k = k + 1;
    }
    assert(s@.subrange(i as int, i + p@.len()) =~= p@);
    true
}

/// The first position at or after `from` where `p` occurs in `s`.
fn find_exec(s: &Vec<char>, p: &Vec<char>, from: usize) -> (r: Option<usize>)
    ensures
        match r {
            Some(k) => find_from(s@, p@, from as nat) == k as int,
            None => find_from(s@, p@, from as nat) == -1,
        },
{
    if p.len() == 0 {
        if from <= s.len() {
            assert(s@.subrange(from as int, from as int) =~= p@);
            return Some(from);
        }
        return None;
    }
    let mut i: usize = from;
    while i <= s.len() && p.len() <= s.len() - i
        invariant
            from <= i,
            p@.len() > 0,
            find_from(s@, p@, from as nat) == find_from(s@, p@, i as nat),
        decreases s@.len() + 1 - i,
    {
        if occurs_at_exec(s, p, i) {
            return Some(i);
        }
        i = i + 1;
    }
    None
}

/// Every occurrence of `p` replaced by `r`.
fn replace_exec(s: &Vec<char>, p: &Vec<char>, r: &Vec<char>) -> (out: Vec<char>)
    requires
        p@.len() > 0,
    ensures
        out@ == replace_all(s@, p@, r@),
{
    let mut out: Vec<char> = Vec::new();
    let mut i: usize = 0;
    assert(s@.skip(0) =~= s@);
    assert(out@ + replace_all(s@, p@, r@) =~= replace_all(s@, p@, r@));
    while i < s.len()
        invariant
            i <= s@.len(),
            p@.len() > 0,
            out@ + replace_all(s@.skip(i as int), p@, r@) == replace_all(s@, p@, r@),
        decreases s@.len() - i,
    {
        let ghost rest = s@.skip(i as int);
        if occurs_at_exec(s, p, i) {
            proof {
                assert(rest.take(p@.len() as int) =~= s@.subrange(i as int, i + p@.len()));
                assert(rest.skip(p@.len() as int) =~= s@.skip(i + p@.len()));
            }
            let mut k: usize = 0;
            let ghost before = out@;
            while k < r.len()
                invariant
                    k <= r@.len(),
                    out@ == before + r@.take(k as int),
                decreases r@.len() - k,
            {
                out.push(r[k]);
                k = k + 1;
                assert(out@ =~= before + r@.take(k as int));
            }
            proof {
                assert(r@.take(k as int) =~= r@);
                assert(before + (r@ + replace_all(s@.skip(i + p@.len()), p@, r@)) =~= out@ + replace_all(
                    s@.skip(i + p@.len()),
                    p@,
                    r@,
                ));
            }
            i = i + p.len();
        } else {
            proof {
                if begins_with(rest, p@) {
                    assert(rest.take(p@.len() as int) =~= s@.subrange(i as int, i + p@.len()));
                }
                assert(rest.drop_first() =~= s@.skip(i + 1));
                assert(rest[0] == s@[i as int]);
            }
            let ghost before = out@;
            out.push(s[i]);
            proof {
                assert(before + (seq![s@[i as int]] + replace_all(s@.skip(i + 1), p@, r@)) =~= out@ + replace_all(
                    s@.skip(i + 1),
                    p@,
                    r@,
                ));
            }
            i = i + 1;
        }
    }
    proof {
        assert(s@.skip(i as int) =~= Seq::<char>::empty());
        assert(out@ + Seq::<char>::empty() =~= out@);
    }
    out
}

// ============================================================================
// JSON STRING ESCAPING
// ============================================================================

/// A control character (general category Cc).
pub open spec fn is_control(c: char) -> bool {
    (c as u32) <= 0x1f || (0x7f <= (c as u32) && (c as u32) <= 0x9f)
}

/// The lowercase hexadecimal digit for `d` (0 to 15).
pub open spec fn hex_digit(d: u32) -> char {
    if d < 10 {
        (48 + d) as char
    } else {
        (87 + d) as char
    }
}

/// What one character becomes inside a double-quoted string literal:
/// backslash, quote, newline, carriage return and tab take a backslash
/// escape, other control characters a `\uXXXX` escape, the rest stay.
pub open spec fn escape_char(c: char) -> Seq<char> {
    let v = c as u32;
    if c == '\\' {
        seq!['\\', '\\']
    } else if c == '"' {
        seq!['\\', '"']
    } else if c == '\n' {
        seq!['\\', 'n']
    } else if c == '\r' {
        seq!['\\', 'r']
    } else if c == '\t' {
        seq!['\\', 't']
    } else if is_control(c) {
        seq!['\\', 'u', hex_digit(v / 4096 % 16), hex_digit(v / 256 % 16), hex_digit(v / 16 % 16), hex_digit(v % 16)]
    } else {
        seq![c]
    }
}

/// The characters of `s`, each escaped.
pub open spec fn escaped(s: Seq<char>) -> Seq<char>
    decreases s.len(),
{
    if s.len() == 0 {
        Seq::empty()
    } else {
        escaped(s.drop_last()) + escape_char(s.last())
    }
}

/// Escaped text holds no control character: line breaks, tabs and every
/// other control character come out as printable escapes.
pub proof fn lemma_escaped_has_no_controls(s: Seq<char>)
    ensures
        forall|i: int| 0 <= i < escaped(s).len() ==> !is_control(#[trigger] escaped(s)[i]),
    decreases s.len(),
{
    if s.len() > 0 {
        lemma_escaped_has_no_controls(s.drop_last());
        let prev = escaped(s.drop_last());
        let piece = escape_char(s.last());
        let c = s.last();
        let v = c as u32;
        assert forall|d: u32| d < 16 implies !is_control(#[trigger] hex_digit(d)) by {
            if d < 10 {
                assert(((48 + d) as char) as u32 == 48 + d);
            } else {
                assert(((87 + d) as char) as u32 == 87 + d);
            }
        }
        assert(v / 4096 % 16 < 16 && v / 256 % 16 < 16 && v / 16 % 16 < 16 && v % 16 < 16);
        assert forall|i: int| 0 <= i < escaped(s).len() implies !is_control(#[trigger] escaped(s)[i]) by {
            if i >= prev.len() {
                assert(escaped(s)[i] == piece[i - prev.len()]);
            } else {
                assert(escaped(s)[i] == prev[i]);
            }
        }
    }
}

fn hex_digit_exec(d: u32) -> (c: char)
    requires
        d < 16,
    ensures
        c == hex_digit(d),
{
    if d < 10 {
        ((48 + d) as u8) as char
    } else {
        ((87 + d) as u8) as char
    }
}

/// Escape a string for safe inclusion in a double-quoted script literal.
pub fn escape_js_string(s: &str) -> (r: String)
    ensures
        r@ == escaped(s@),
{
    let chars = chars_of(s);
    let mut out: Vec<char> = Vec::new();
    let mut i: usize = 0;
    while i < chars.len()
        invariant
            i <= chars@.len(),
            chars@ == s@,
            out@ == escaped(chars@.take(i as int)),
        decreases chars@.len() - i,
    {
        let c = chars[i];
        let ghost before = out@;
        if c == '\\' {
            out.push('\\');
            out.push('\\');
        } else if c == '"' {
            out.push('\\');
            out.push('"');
        } else if c == '\n' {
            out.push('\\');
            out.push('n');
        } else if c == '\r' {
            out.push('\\');
            out.push('r');
        } else if c == '\t' {
            out.push('\\');
            out.push('t');
        } else if (c as u32) <= 0x1f || (0x7f <= (c as u32) && (c as u32) <= 0x9f) {
            let v = c as u32;
            out.push('\\');
            out.push('u');
            out.push(hex_digit_exec(v / 4096 % 16));
            out.push(hex_digit_exec(v / 256 % 16));
            out.push(hex_digit_exec(v / 16 % 16));
            out.push(hex_digit_exec(v % 16));
        } else {
            out.push(c);
        }
        proof {
            assert(chars@.take(i + 1).drop_last() =~= chars@.take(i as int));
            assert(out@ =~= before + escape_char(c));
        }
        i = i + 1;
    }
    assert(chars@.take(i as int) =~= chars@);
    string_of(&out)
}

// ============================================================================
// TYPESCRIPT DECLARATIONS
// ============================================================================

/// The position of the first newline in `s`, or -1.
pub open spec fn first_newline(s: Seq<char>) -> int
    decreases s.len(),
{
    if s.len() == 0 {
        -1
    } else if s[0] == '\n' {
        0
    } else {
        let r = first_newline(s.drop_first());
        if r < 0 {
            -1
        } else {
            r + 1
        }
    }
}

pub proof fn lemma_first_newline(s: Seq<char>)
    ensures
        -1 <= first_newline(s) < s.len(),
        first_newline(s) >= 0 ==> s[first_newline(s)] == '\n',
        forall|m: int| 0 <= m < s.len() && (first_newline(s) < 0 || m < first_newline(s)) ==> #[trigger] s[m] != '\n',
    decreases s.len(),
{
    if s.len() > 0 && s[0] != '\n' {
        lemma_first_newline(s.drop_first());
        assert forall|m: int| 0 < m < s.len() implies #[trigger] s[m] == s.drop_first()[m - 1] by {}
    }
}

/// A line without the carriage return that ended it.
pub open spec fn without_cr(line: Seq<char>) -> Seq<char> {
    if line.len() > 0 && line.last() == '\r' {
        line.drop_last()
    } else {
        line
    }
}

/// The lines of `s` as `str::lines` gives them: split at each newline,
/// with a carriage return right before it dropped too; a final line
/// ending adds no empty line.
pub open spec fn split_lines(s: Seq<char>) -> Seq<Seq<char>>
    decreases s.len(),
{
    if s.len() == 0 {
        Seq::empty()
    } else {
        let k = first_newline(s);
        if k < 0 {
            seq![s]
        } else {
            proof {
                lemma_first_newline(s);
            }
            seq![without_cr(s.take(k))] + split_lines(s.skip(k + 1))
        }
    }
}

/// Opening braces minus closing braces in a line.
pub open spec fn brace_delta(line: Seq<char>) -> int
    decreases line.len(),
{
    if line.len() == 0 {
        0
    } else {
        brace_delta(line.drop_last()) + if line.last() == '{' {
            1int
        } else if line.last() == '}' {
            -1int
        } else {
            0int
        }
    }
}

proof fn lemma_brace_delta_bound(line: Seq<char>)
    ensures
        -line.len() <= brace_delta(line) <= line.len(),
    decreases line.len(),
{
    if line.len() > 0 {
        lemma_brace_delta_bound(line.drop_last());
    }
}

/// The line opens a TypeScript interface or type declaration: after its
/// leading white space it begins with `export interface `, `interface `,
/// `export type `, or `type ` without `typeof` anywhere after.
pub open spec fn starts_declaration(line: Seq<char>) -> bool {
    let t = trim_start(line);
    begins_with(t, "export interface "@) || begins_with(t, "interface "@) || begins_with(t, "export type "@) || (
    begins_with(t, "type "@) && find(t, "typeof"@) < 0)
}

/// The text kept from these lines, given whether a declaration is open and
/// its brace count: a declaration's first line becomes a marker comment,
/// its other lines (up to the one that closes its braces) are dropped, and
/// every other line is kept with a newline.
pub open spec fn strip_declaration_lines(lines: Seq<Seq<char>>, in_declaration: bool, braces: int) -> Seq<char>
    decreases lines.len(),
{
    if lines.len() == 0 {
        Seq::empty()
    } else {
        let line = lines[0];
        let rest = lines.drop_first();
        if !in_declaration && starts_declaration(line) {
            let b = brace_delta(line);
            let open = !(b <= 0 && line.contains('{'));
            "// TS declaration removed\n"@ + strip_declaration_lines(rest, open, b)
        } else if in_declaration {
            let b = braces + brace_delta(line);
            strip_declaration_lines(rest, !(b <= 0), b)
        } else {
            line + seq!['\n'] + strip_declaration_lines(rest, false, braces)
        }
    }
}

/// The source with its interface and type declarations removed.
pub open spec fn without_declarations(code: Seq<char>) -> Seq<char> {
    strip_declaration_lines(split_lines(code), false, 0)
}

/// The characters of a string literal.
fn literal(s: &str) -> (r: Vec<char>)
    ensures
        r@ == s@,
{
    chars_of(s)
}

fn append_chars(out: &mut Vec<char>, s: &Vec<char>)
    ensures
        final(out)@ == old(out)@ + s@,
{
    let ghost before = out@;
    let mut k: usize = 0;
    while k < s.len()
        invariant
            k <= s@.len(),
            out@ == before + s@.take(k as int),
        decreases s@.len() - k,
    {
        out.push(s[k]);
        k = k + 1;
        assert(out@ =~= before + s@.take(k as int));
    }
    assert(s@.take(k as int) =~= s@);
}

fn trim_start_exec(line: &Vec<char>) -> (t: Vec<char>)
    ensures
        t@ == trim_start(line@),
{
    let mut i: usize = 0;
    assert(line@.skip(0) =~= line@);
    while i < line.len() && is_whitespace(line[i])
        invariant
            i <= line@.len(),
            trim_start(line@) == trim_start(line@.skip(i as int)),
        decreases line@.len() - i,
    {
        assert(line@.skip(i as int).drop_first() =~= line@.skip(i + 1));
        i = i + 1;
    }
    let mut t: Vec<char> = Vec::new();
    let mut k: usize = i;
    while k < line.len()
        invariant
            i <= k <= line@.len(),
            t@ == line@.subrange(i as int, k as int),
        decreases line@.len() - k,
    {
        t.push(line[k]);
        k = k + 1;
        assert(t@ =~= line@.subrange(i as int, k as int));
    }
    assert(t@ =~= line@.skip(i as int));
    t
}

fn begins_with_exec(t: &Vec<char>, p: &Vec<char>) -> (r: bool)
    ensures
        r == begins_with(t@, p@),
{
    let r = occurs_at_exec(t, p, 0);
    assert(t@.take(p@.len() as int) =~= t@.subrange(0, p@.len() as int));
    r
}

fn starts_declaration_exec(line: &Vec<char>) -> (r: bool)
    ensures
        r == starts_declaration(line@),
{
    let t = trim_start_exec(line);
    begins_with_exec(&t, &literal("export interface ")) || begins_with_exec(&t, &literal("interface "))
        || begins_with_exec(&t, &literal("export type ")) || (begins_with_exec(&t, &literal("type "))
        && find_exec(&t, &literal("typeof"), 0).is_none())
}

fn brace_count_exec(line: &Vec<char>, start: i128) -> (r: i128)
    requires
        -0x2_0000_0000_0000_0000 <= start - line@.len(),
        start + line@.len() <= 0x2_0000_0000_0000_0000,
    ensures
        r == start + brace_delta(line@),
{
    let mut b: i128 = start;
    let mut k: usize = 0;
    while k < line.len()
        invariant
            k <= line@.len(),
            -0x2_0000_0000_0000_0000 <= start - line@.len(),
            start + line@.len() <= 0x2_0000_0000_0000_0000,
            b == start + brace_delta(line@.take(k as int)),
        decreases line@.len() - k,
    {
        proof {
            lemma_brace_delta_bound(line@.take(k as int));
            assert(line@.take(k + 1).drop_last() =~= line@.take(k as int));
        }
        if line[k] == '{' {
            b = b + 1;
        } else if line[k] == '}' {
            b = b - 1;
        }
        k = k + 1;
    }
    assert(line@.take(k as int) =~= line@);
    b
}

fn contains_char_exec(line: &Vec<char>, c: char) -> (r: bool)
    ensures
        r == line@.contains(c),
{
    let mut k: usize = 0;
    while k < line.len()
        invariant
            k <= line@.len(),
            forall|m: int| 0 <= m < k ==> line@[m] != c,
        decreases line@.len() - k,
    {
        if line[k] == c {
            return true;
        }
        k = k + 1;
    }
    false
}

/// Strip TypeScript interface and type declarations, which may span
/// several lines with nested braces; only keywords at the start of a line
/// (after white space) open one.
pub fn strip_typescript_declarations(code: &str) -> (r: String)
    ensures
        r@ == without_declarations(code@),
{
    let chars = chars_of(code);
    let out = strip_declarations_chars(&chars);
    string_of(&out)
}

fn strip_declarations_chars(chars: &Vec<char>) -> (out: Vec<char>)
    ensures
        out@ == without_declarations(chars@),
{
    let ghost total = without_declarations(chars@);
    let n = chars.len();
    let marker = literal("// TS declaration removed\n");
    let mut out: Vec<char> = Vec::new();
    let mut in_declaration = false;
    let mut braces: i128 = 0;
    let mut pos: usize = 0;
    assert(chars@.skip(0) =~= chars@);
    while pos < n
        invariant
            pos <= n,
            n == chars@.len(),
            marker@ == "// TS declaration removed\n"@,
            -pos <= braces <= pos,
            total == without_declarations(chars@),
            total == out@ + strip_declaration_lines(split_lines(chars@.skip(pos as int)), in_declaration, braces as int),
        decreases n - pos,
    {
        let ghost rest = chars@.skip(pos as int);
        // The line runs to the next newline or to the end
        let mut end: usize = pos;
        while end < n && chars[end] != '\n'
            invariant
                pos <= end <= n,
                n == chars@.len(),
                forall|m: int| pos <= m < end ==> chars@[m] != '\n',
            decreases n - end,
        {
            end = end + 1;
        }
        let mut line: Vec<char> = Vec::new();
        let mut k: usize = pos;
        while k < end
            invariant
                pos <= k <= end <= n,
                n == chars@.len(),
                line@ == chars@.subrange(pos as int, k as int),
            decreases end - k,
        {
            line.push(chars[k]);
            k = k + 1;
            assert(line@ =~= chars@.subrange(pos as int, k as int));
        }
        let next: usize;
        assert(line@.len() == end - pos);
        proof {
            lemma_first_newline(rest);
        }
        if end < n {
            if line.len() > 0 && line[line.len() - 1] == '\r' {
                line.pop();
            }
            next = end + 1;
            proof {
                let k0 = first_newline(rest);
                assert(rest[end - pos] == '\n');
                assert forall|m: int| 0 <= m < end - pos implies #[trigger] rest[m] != '\n' by {
                    assert(rest[m] == chars@[pos + m]);
                }
                if k0 < 0 || k0 > end - pos {
                    assert(rest[end - pos] != '\n');
                }
                if k0 < end - pos {
                    assert(rest[k0] == chars@[pos + k0]);
                }
                assert(k0 == end - pos);
                assert(rest.take(k0) =~= chars@.subrange(pos as int, end as int));
                assert(rest.skip(k0 + 1) =~= chars@.skip(next as int));
                assert(split_lines(rest) == seq![line@] + split_lines(chars@.skip(next as int)));
            }
        } else {
            next = n;
            proof {
                let k0 = first_newline(rest);
                if k0 >= 0 {
                    assert(rest[k0] == chars@[pos + k0]);
                }
                assert(rest =~= line@);
                assert(chars@.skip(next as int) =~= Seq::<char>::empty());
                assert(split_lines(rest) =~= seq![line@] + split_lines(chars@.skip(next as int)));
            }
        }
        assert(line@.len() <= end - pos && end - pos <= next - pos);
        let ghost lines_rest = split_lines(chars@.skip(next as int));
        proof {
            assert(seq![line@].add(lines_rest).drop_first() =~= lines_rest);
            assert(seq![line@].add(lines_rest)[0] == line@);
            lemma_brace_delta_bound(line@);
        }
        if !in_declaration && starts_declaration_exec(&line) {
            let b = brace_count_exec(&line, 0);
            in_declaration = !(b <= 0 && contains_char_exec(&line, '{'));
            braces = b;
            append_chars(&mut out, &marker);
        } else if in_declaration {
            let b = brace_count_exec(&line, braces);
            in_declaration = !(b <= 0);
            braces = b;
        } else {
            append_chars(&mut out, &line);
            out.push('\n');
        }
        proof {
            assert(out@ + strip_declaration_lines(lines_rest, in_declaration, braces as int) =~= total);
        }
        pos = next;
    }
    proof {
        assert(chars@.skip(pos as int) =~= Seq::<char>::empty());
        assert(out@ + Seq::<char>::empty() =~= out@);
    }
    out
}

// ============================================================================
// TYPESCRIPT ANNOTATIONS
// ============================================================================

/// The number of spaces and tabs at the start of `s`.
pub open spec fn leading_blanks(s: Seq<char>) -> nat
    decreases s.len(),
{
    if s.len() > 0 && (s[0] == ' ' || s[0] == '\t') {
        1 + leading_blanks(s.drop_first())
    } else {
        0
    }
}

pub proof fn lemma_leading_blanks_bound(s: Seq<char>)
    ensures
        leading_blanks(s) <= s.len(),
    decreases s.len(),
{
    if s.len() > 0 && (s[0] == ' ' || s[0] == '\t') {
        lemma_leading_blanks_bound(s.drop_first());
    }
}

/// An ASCII uppercase letter.
pub open spec fn is_ascii_upper(c: char) -> bool {
    65 <= (c as u32) <= 90
}

/// What follows a colon looks like a type: an uppercase letter, or one of
/// the basic type names (`number`, `string`, `boolea`n, `void`, `null`,
/// `undefi`ned, `any`, `never`).
pub open spec fn looks_like_type(s: Seq<char>) -> bool {
    s.len() > 0 && (is_ascii_upper(s[0]) || begins_with(s, "number"@) || begins_with(s, "string"@) || begins_with(
        s,
        "boolea"@,
    ) || begins_with(s, "void"@) || begins_with(s, "null"@) || begins_with(s, "undefi"@) || begins_with(s, "any"@)
        || begins_with(s, "never"@))
}

/// How many characters a type annotation runs over: up to a closing
/// bracket with none open, or a comma, brace, equals sign or semicolon
/// outside brackets.
pub open spec fn type_extent(s: Seq<char>, depth: int) -> nat
    decreases s.len(),
{
    if s.len() == 0 {
        0
    } else {
        let c = s[0];
        if c == '<' || c == '(' || c == '[' {
            1 + type_extent(s.drop_first(), depth + 1)
        } else if c == '>' || c == ')' || c == ']' {
            if depth > 0 {
                1 + type_extent(s.drop_first(), depth - 1)
            } else {
                0
            }
        } else if depth == 0 && (c == ',' || c == '{' || c == '=' || c == ';') {
            0
        } else {
            1 + type_extent(s.drop_first(), depth)
        }
    }
}

pub proof fn lemma_type_extent_bound(s: Seq<char>, depth: int)
    ensures
        type_extent(s, depth) <= s.len(),
    decreases s.len(),
{
    if s.len() > 0 {
        lemma_type_extent_bound(s.drop_first(), depth + 1);
        lemma_type_extent_bound(s.drop_first(), depth - 1);
        lemma_type_extent_bound(s.drop_first(), depth);
    }
}

/// The source with type annotations after colons removed: a colon followed
/// (past spaces and tabs) by something that looks like a type loses the
/// colon, the blanks and the type; any other colon stays with its blanks.
pub open spec fn without_annotations(s: Seq<char>) -> Seq<char>
    decreases s.len(),
{
    if s.len() == 0 {
        Seq::empty()
    } else if s[0] != ':' {
        seq![s[0]] + without_annotations(s.drop_first())
    } else {
        let rest = s.drop_first();
        let w = leading_blanks(rest);
        proof {
            lemma_leading_blanks_bound(rest);
        }
        let after = rest.skip(w as int);
        if looks_like_type(after) {
            proof {
                lemma_type_extent_bound(after, 0);
            }
            without_annotations(after.skip(type_extent(after, 0) as int))
        } else {
            seq![':'] + rest.take(w as int) + without_annotations(after)
        }
    }
}

fn looks_like_type_exec(chars: &Vec<char>, i: usize) -> (r: bool)
    requires
        i <= chars@.len(),
    ensures
        r == looks_like_type(chars@.skip(i as int)),
{
    let ghost t = chars@.skip(i as int);
    if i >= chars.len() {
        return false;
    }
    let c = chars[i];
    let upper = 65 <= (c as u32) && (c as u32) <= 90;
    let names = [
        literal("number"),
        literal("string"),
        literal("boolea"),
        literal("void"),
        literal("null"),
        literal("undefi"),
        literal("any"),
        literal("never"),
    ];
    let mut k: usize = 0;
    let mut named = false;
    while k < 8
        invariant
            k <= 8,
            i < chars@.len(),
            t == chars@.skip(i as int),
            names@.len() == 8,
            names@[0]@ == "number"@,
            names@[1]@ == "string"@,
            names@[2]@ == "boolea"@,
            names@[3]@ == "void"@,
            names@[4]@ == "null"@,
            names@[5]@ == "undefi"@,
            names@[6]@ == "any"@,
            names@[7]@ == "never"@,
            named == exists|m: int| 0 <= m < k && begins_with(t, #[trigger] names@[m]@),
        decreases 8 - k,
    {
        let hit = occurs_at_exec(chars, &names[k], i);
        proof {
            let p = names@[k as int]@;
            if i + p.len() <= chars@.len() {
                assert(t.take(p.len() as int) =~= chars@.subrange(i as int, i + p.len()));
            }
        }
        named = named || hit;
        k = k + 1;
    }
    proof {
        assert(t[0] == c);
        if begins_with(t, "number"@) { assert(begins_with(t, names@[0]@)); }
        if begins_with(t, "string"@) { assert(begins_with(t, names@[1]@)); }
        if begins_with(t, "boolea"@) { assert(begins_with(t, names@[2]@)); }
        if begins_with(t, "void"@) { assert(begins_with(t, names@[3]@)); }
        if begins_with(t, "null"@) { assert(begins_with(t, names@[4]@)); }
        if begins_with(t, "undefi"@) { assert(begins_with(t, names@[5]@)); }
        if begins_with(t, "any"@) { assert(begins_with(t, names@[6]@)); }
        if begins_with(t, "never"@) { assert(begins_with(t, names@[7]@)); }
    }
    upper || named
}

/// Strip TypeScript type annotations from parameters and return types:
/// `function foo(x: number): string` becomes `function foo(x)`.
pub fn strip_typescript_annotations(code: &str) -> (r: String)
    ensures
        r@ == without_annotations(code@),
{
    let chars = chars_of(code);
    let out = strip_annotations_chars(&chars);
    string_of(&out)
}

fn strip_annotations_chars(chars: &Vec<char>) -> (out: Vec<char>)
    ensures
        out@ == without_annotations(chars@),
{
    let ghost total = without_annotations(chars@);
    let n = chars.len();
    let mut out: Vec<char> = Vec::new();
    let mut i: usize = 0;
    assert(chars@.skip(0) =~= chars@);
    while i < n
        invariant
            i <= n,
            n == chars@.len(),
            total == out@ + without_annotations(chars@.skip(i as int)),
        decreases n - i,
    {
        let ghost s = chars@.skip(i as int);
        let c = chars[i];
        assert(s[0] == c);
        if c != ':' {
            out.push(c);
            proof {
                assert(s.drop_first() =~= chars@.skip(i + 1));
            }
            i = i + 1;
            proof {
                assert(out@ + without_annotations(chars@.skip(i as int)) =~= total);
            }
        } else {
            let ws = i + 1;
            let ghost rest = s.drop_first();
            assert(rest =~= chars@.skip(ws as int));
            let mut j: usize = ws;
            while j < n && (chars[j] == ' ' || chars[j] == '\t')
                invariant
                    ws <= j <= n,
                    n == chars@.len(),
                    leading_blanks(rest) == (j - ws) + leading_blanks(chars@.skip(j as int)),
                    rest == chars@.skip(ws as int),
                decreases n - j,
            {
                assert(chars@.skip(j as int).drop_first() =~= chars@.skip(j + 1));
                j = j + 1;
            }
            proof {
                if j < n {
                    assert(chars@.skip(j as int)[0] == chars@[j as int]);
                }
                assert(leading_blanks(rest) == j - ws);
                assert(rest.skip(j - ws) =~= chars@.skip(j as int));
            }
            if looks_like_type_exec(chars, j) {
                let ghost after = chars@.skip(j as int);
                let mut depth: i128 = 0;
                let mut e: usize = j;
                while e < n
                    invariant
                        j <= e <= n,
                        n == chars@.len(),
                        0 <= depth <= e - j,
                        type_extent(after, 0) == (e - j) + type_extent(chars@.skip(e as int), depth as int),
                        after == chars@.skip(j as int),
                    ensures
                        j <= e <= n,
                        type_extent(after, 0) == e - j,
                    decreases n - e,
                {
                    let nc = chars[e];
                    let ghost t = chars@.skip(e as int);
                    assert(t[0] == nc);
                    assert(t.drop_first() =~= chars@.skip(e + 1));
                    if nc == '<' || nc == '(' || nc == '[' {
                        depth = depth + 1;
                        e = e + 1;
                    } else if nc == '>' || nc == ')' || nc == ']' {
                        if depth > 0 {
                            depth = depth - 1;
                            e = e + 1;
                        } else {
                            break;
                        }
                    } else if depth == 0 && (nc == ',' || nc == '{' || nc == '=' || nc == ';') {
                        break;
                    } else {
                        e = e + 1;
                    }
                }
                proof {
                    assert(after.skip(e - j) =~= chars@.skip(e as int));
                }
                i = e;
            } else {
                out.push(':');
                let mut k: usize = ws;
                let ghost before = out@;
                while k < j
                    invariant
                        ws <= k <= j <= n,
                        n == chars@.len(),
                        out@ == before + chars@.subrange(ws as int, k as int),
                    decreases j - k,
                {
                    out.push(chars[k]);
                    k = k + 1;
                    assert(out@ =~= before + chars@.subrange(ws as int, k as int));
                }
                proof {
                    assert(rest.take(j - ws) =~= chars@.subrange(ws as int, j as int));
                }
                i = j;
            }
            proof {
                assert(out@ + without_annotations(chars@.skip(i as int)) =~= total);
            }
        }
    }
    proof {
        assert(chars@.skip(i as int) =~= Seq::<char>::empty());
        assert(out@ + Seq::<char>::empty() =~= out@);
    }
    out
}

// ============================================================================
// ES MODULE SYNTAX
// ============================================================================

pub proof fn lemma_find_from_bound(s: Seq<char>, p: Seq<char>, i: nat)
    ensures
        find_from(s, p, i) >= 0 ==> i <= find_from(s, p, i) && find_from(s, p, i) + p.len() <= s.len(),
    decreases s.len() + 1 - i,
{
    if i + p.len() <= s.len() && !occurs_at(s, p, i as int) {
        lemma_find_from_bound(s, p, i + 1);
    }
}

pub proof fn lemma_trim_end_len(s: Seq<char>)
    ensures
        trim_end(s).len() <= s.len(),
    decreases s.len(),
{
    if s.len() > 0 && is_ws(s.last()) {
        lemma_trim_end_len(s.drop_last());
    }
}

/// No occurrence of `p` starts before the first one.
proof fn lemma_none_before_first(s: Seq<char>, p: Seq<char>, i: nat, j: int)
    requires
        i <= j,
        find_from(s, p, i) >= 0 ==> j < find_from(s, p, i),
    ensures
        !occurs_at(s, p, j),
    decreases s.len() + 1 - i,
{
    if i + p.len() <= s.len() && !occurs_at(s, p, i as int) && (i as int) < j {
        lemma_none_before_first(s, p, i + 1, j);
    }
}

/// Once its export blocks are removed, a source holds no `export {`.
pub proof fn lemma_no_export_block_left(s: Seq<char>)
    ensures
        find(without_export_blocks(s), "export {"@) < 0,
    decreases s.len(),
{
    let p = "export {"@;
    let st = find(s, p);
    lemma_find_from_bound(s, p, 0);
    if st >= 0 {
        let en = find(s.skip(st), "};"@);
        if en < 0 {
            let t = s.take(st);
            if find(t, p) >= 0 {
                let j = find(t, p);
                lemma_find_from_bound(t, p, 0);
                reveal_strlit("export {");
                assert(j + p.len() <= st && p.len() > 0);
                find_occurs(t, p, 0);
                assert(t.subrange(j, j + p.len()) =~= s.subrange(j, j + p.len()));
                lemma_none_before_first(s, p, 0, j);
            }
        } else {
            lemma_find_from_bound(s.skip(st), "};"@, 0);
            reveal_strlit("};");
            lemma_trim_end_len(s.take(st));
            lemma_no_export_block_left(trim_end(s.take(st)) + s.skip(st + en + 2));
        }
    }
}

/// A position that `find_from` reports holds the pattern.
proof fn find_occurs(s: Seq<char>, p: Seq<char>, i: nat)
    ensures
        find_from(s, p, i) >= 0 ==> occurs_at(s, p, find_from(s, p, i)),
    decreases s.len() + 1 - i,
{
    if i + p.len() <= s.len() && !occurs_at(s, p, i as int) {
        find_occurs(s, p, i + 1);
    }
}

/// `import.meta.url` and `import.meta` become `undefined`; default exports
/// of functions and classes lose `export default`, and other default
/// exports bind `__default_export__`.
pub open spec fn without_meta_and_defaults(s: Seq<char>) -> Seq<char> {
    let r1 = replace_all(s, "import.meta.url"@, "undefined"@);
    let r2 = replace_all(r1, "import.meta"@, "undefined"@);
    let r3 = replace_all(r2, "export default function "@, "function "@);
    let r4 = replace_all(r3, "export default class "@, "class "@);
    replace_all(r4, "export default "@, "const __default_export__ = "@)
}

/// Exported `const`, `let`, `var`, `function` and `class` declarations lose
/// `export`.
pub open spec fn without_export_keywords(s: Seq<char>) -> Seq<char> {
    let r1 = replace_all(s, "export const "@, "const "@);
    let r2 = replace_all(r1, "export let "@, "let "@);
    let r3 = replace_all(r2, "export var "@, "var "@);
    let r4 = replace_all(r3, "export function "@, "function "@);
    replace_all(r4, "export class "@, "class "@)
}

/// The source cut before a line comment `// ES Module exports`, when there
/// is one.
pub open spec fn cut_export_section(s: Seq<char>) -> Seq<char> {
    let k = find(s, "\n// ES Module exports"@);
    if k >= 0 {
        s.take(k)
    } else {
        s
    }
}

/// Named export blocks removed one by one from the first: the text from
/// `export {` through the next `};` goes, with the white space before it;
/// a block with no `};` after it cuts the source there.
pub open spec fn without_export_blocks(s: Seq<char>) -> Seq<char>
    decreases s.len(),
{
    let st = find(s, "export {"@);
    if st < 0 {
        s
    } else {
        let en = find(s.skip(st), "};"@);
        if en < 0 {
            s.take(st)
        } else {
            proof {
                lemma_find_from_bound(s, "export {"@, 0);
                lemma_find_from_bound(s.skip(st), "};"@, 0);
                reveal_strlit("};");
                lemma_trim_end_len(s.take(st));
            }
            without_export_blocks(trim_end(s.take(st)) + s.skip(st + en + 2))
        }
    }
}

/// A loader source made evaluable in a global scope.
pub open spec fn esm_stripped(s: Seq<char>) -> Seq<char> {
    without_export_blocks(cut_export_section(without_export_keywords(without_meta_and_defaults(s))))
}

/// A ranking function source made evaluable in a global scope, its
/// TypeScript declarations and annotations removed too.
pub open spec fn ranking_stripped(s: Seq<char>) -> Seq<char> {
    without_export_blocks(
        cut_export_section(
            without_export_keywords(without_annotations(without_declarations(without_meta_and_defaults(s)))),
        ),
    )
}

fn meta_and_defaults_exec(s: &Vec<char>) -> (r: Vec<char>)
    ensures
        r@ == without_meta_and_defaults(s@),
{
    proof {
        reveal_strlit("import.meta.url");
        reveal_strlit("import.meta");
        reveal_strlit("export default function ");
        reveal_strlit("export default class ");
        reveal_strlit("export default ");
    }
    let r1 = replace_exec(s, &literal("import.meta.url"), &literal("undefined"));
    let r2 = replace_exec(&r1, &literal("import.meta"), &literal("undefined"));
    let r3 = replace_exec(&r2, &literal("export default function "), &literal("function "));
    let r4 = replace_exec(&r3, &literal("export default class "), &literal("class "));
    replace_exec(&r4, &literal("export default "), &literal("const __default_export__ = "))
}

fn export_keywords_exec(s: &Vec<char>) -> (r: Vec<char>)
    ensures
        r@ == without_export_keywords(s@),
{
    proof {
        reveal_strlit("export const ");
        reveal_strlit("export let ");
        reveal_strlit("export var ");
        reveal_strlit("export function ");
        reveal_strlit("export class ");
    }
    let r1 = replace_exec(s, &literal("export const "), &literal("const "));
    let r2 = replace_exec(&r1, &literal("export let "), &literal("let "));
    let r3 = replace_exec(&r2, &literal("export var "), &literal("var "));
    let r4 = replace_exec(&r3, &literal("export function "), &literal("function "));
    replace_exec(&r4, &literal("export class "), &literal("class "))
}

fn prefix_of(s: &Vec<char>, k: usize) -> (r: Vec<char>)
    requires
        k <= s@.len(),
    ensures
        r@ == s@.take(k as int),
{
    let mut r: Vec<char> = Vec::new();
    let mut i: usize = 0;
    while i < k
        invariant
            i <= k <= s@.len(),
            r@ == s@.take(i as int),
        decreases k - i,
    {
        r.push(s[i]);
        i = i + 1;
        assert(r@ =~= s@.take(i as int));
    }
    r
}

fn suffix_of(s: &Vec<char>, k: usize) -> (r: Vec<char>)
    requires
        k <= s@.len(),
    ensures
        r@ == s@.skip(k as int),
{
    let mut r: Vec<char> = Vec::new();
    let mut i: usize = k;
    while i < s.len()
        invariant
            k <= i <= s@.len(),
            r@ == s@.subrange(k as int, i as int),
        decreases s@.len() - i,
    {
        r.push(s[i]);
        i = i + 1;
        assert(r@ =~= s@.subrange(k as int, i as int));
    }
    assert(r@ =~= s@.skip(k as int));
    r
}

fn trim_end_exec(s: &Vec<char>) -> (r: Vec<char>)
    ensures
        r@ == trim_end(s@),
{
    let mut end: usize = s.len();
    assert(s@.take(end as int) =~= s@);
    while end > 0 && is_whitespace(s[end - 1])
        invariant
            end <= s@.len(),
            trim_end(s@) == trim_end(s@.take(end as int)),
        decreases end,
    {
        assert(s@.take(end as int).drop_last() =~= s@.take(end - 1));
        end = end - 1;
    }
    prefix_of(s, end)
}

fn finish_exports_exec(s: &Vec<char>) -> (r: Vec<char>)
    ensures
        r@ == without_export_blocks(cut_export_section(s@)),
{
    let section = literal("\n// ES Module exports");
    let mut cur = match find_exec(s, &section, 0) {
        Some(k) => {
            proof {
                lemma_find_from_bound(s@, section@, 0);
            }
            prefix_of(s, k)
        },
        None => suffix_of(s, 0),
    };
    assert(s@.skip(0) =~= s@);
    let opener = literal("export {");
    let closer = literal("};");
    proof {
        reveal_strlit("};");
    }
    loop
        invariant
            without_export_blocks(cut_export_section(s@)) == without_export_blocks(cur@),
            opener@ == "export {"@,
            closer@ == "};"@,
            closer@.len() == 2,
        decreases cur@.len(),
    {
        match find_exec(&cur, &opener, 0) {
            None => {
                return cur;
            },
            Some(st) => {
                proof {
                    lemma_find_from_bound(cur@, opener@, 0);
                }
                let tail = suffix_of(&cur, st);
                match find_exec(&tail, &closer, 0) {
                    None => {
                        return prefix_of(&cur, st);
                    },
                    Some(en) => {
                        proof {
                            lemma_find_from_bound(tail@, closer@, 0);
                            lemma_trim_end_len(cur@.take(st as int));
                        }
                        let n = cur.len();
                        assert(en + 2 <= tail@.len() && tail@.len() == n - st);
                        let mut next = trim_end_exec(&prefix_of(&cur, st));
                        let after = suffix_of(&cur, st + en + 2);
                        append_chars(&mut next, &after);
                        cur = next;
                    },
                }
            },
        }
    }
}

/// Strip ES module syntax from a script (the loader) for evaluation in a
/// global scope; no TypeScript is removed.
pub fn strip_esm_exports(js: &str) -> (r: String)
    ensures
        r@ == esm_stripped(js@),
{
    let chars = chars_of(js);
    let r1 = meta_and_defaults_exec(&chars);
    let r2 = export_keywords_exec(&r1);
    let r3 = finish_exports_exec(&r2);
    string_of(&r3)
}

/// Strip ES module syntax and TypeScript declarations and annotations from
/// a ranking function's source.
pub fn strip_typescript_for_ranking(ts: &str) -> (r: String)
    ensures
        r@ == ranking_stripped(ts@),
{
    let chars = chars_of(ts);
    let r1 = meta_and_defaults_exec(&chars);
    let r2 = strip_declarations_chars(&r1);
    let r3 = strip_annotations_chars(&r2);
    let r4 = export_keywords_exec(&r3);
    let r5 = finish_exports_exec(&r4);
    string_of(&r5)
}

} // verus!
