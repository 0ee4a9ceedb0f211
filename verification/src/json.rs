//! Reading JSON texts as the order book feeds send them.
//!
//! The grammar and the checks are those of `serde_json`'s deserializer: whitespace
//! is space, tab, line feed and carriage return; strings may not hold control
//! characters; escapes are `\" \\ \/ \b \f \n \r \t \uXXXX`, where a decoded
//! string needs a leading surrogate to be followed by a trailing one; numbers are
//! `-? (0 | [1-9][0-9]*) (. [0-9]+)? ([eE] [+-]? [0-9]+)?`.
//!
//! Values that are read and thrown away are checked in one of two ways: loosely
//! (any depth, escapes checked only for form), as `serde::de::IgnoredAny` is; or
//! strictly (decoded strings, numbers that `serde_json` accepts as a value, at most
//! `DEPTH_LIMIT` nested containers), as `serde_json::Value` is.
use vstd::prelude::*;
use crate::decimal::{digit_run, is_digit, ci, digit_run_exec, is_digit_exec, ci_exec, lemma_digit_run_bound};

verus! {

/// Containers that a strictly checked value may nest.
pub const DEPTH_LIMIT: usize = 126;

pub open spec fn is_ws(c: char) -> bool {
    c == ' ' || c == '\n' || c == '\t' || c == '\r'
}

/// First position at or after `i` that is not whitespace.
pub open spec fn skip_ws(t: Seq<char>, i: int) -> int
    decreases t.len() - i,
{
    if 0 <= i < t.len() && is_ws(t[i]) {
        skip_ws(t, i + 1)
    } else {
        i
    }
}

pub open spec fn hex_val(c: char) -> Option<nat> {
    if '0' <= c && c <= '9' {
        Some((c as u32 - '0' as u32) as nat)
    } else if 'a' <= c && c <= 'f' {
        Some((c as u32 - 'a' as u32 + 10) as nat)
    } else if 'A' <= c && c <= 'F' {
        Some((c as u32 - 'A' as u32 + 10) as nat)
    } else {
        None
    }
}

/// The four hex digits at `i..i+4`.
pub open spec fn hex4(t: Seq<char>, i: int) -> Option<nat> {
    if 0 <= i && i + 4 <= t.len() && hex_val(t[i]) is Some && hex_val(t[i + 1]) is Some && hex_val(
        t[i + 2],
    ) is Some && hex_val(t[i + 3]) is Some {
        Some(
            hex_val(t[i])->0 * 4096 + hex_val(t[i + 1])->0 * 256 + hex_val(t[i + 2])->0 * 16
                + hex_val(t[i + 3])->0,
        )
    } else {
        None
    }
}

pub open spec fn is_leading_surrogate(n: nat) -> bool {
    0xD800 <= n <= 0xDBFF
}

pub open spec fn is_trailing_surrogate(n: nat) -> bool {
    0xDC00 <= n <= 0xDFFF
}

/// Decodes the escape whose backslash stands just before `i`: the character and
/// the position after the escape.
pub open spec fn parse_escape(t: Seq<char>, i: int) -> Option<(char, int)> {
    if i < 0 || i >= t.len() {
        None
    } else {
        let c = t[i];
        if c == '"' {
            Some(('"', i + 1))
        } else if c == '\\' {
            Some(('\\', i + 1))
        } else if c == '/' {
            Some(('/', i + 1))
        } else if c == 'b' {
            Some(('\x08', i + 1))
        } else if c == 'f' {
            Some(('\x0c', i + 1))
        } else if c == 'n' {
            Some(('\n', i + 1))
        } else if c == 'r' {
            Some(('\r', i + 1))
        } else if c == 't' {
            Some(('\t', i + 1))
        } else if c == 'u' {
            match hex4(t, i + 1) {
                None => None,
                Some(n) => {
                    if is_trailing_surrogate(n) {
                        None
                    } else if is_leading_surrogate(n) {
                        if i + 6 < t.len() && t[i + 5] == '\\' && t[i + 6] == 'u' {
                            match hex4(t, i + 7) {
                                Some(n2) => if is_trailing_surrogate(n2) {
                                    Some(
                                        (
                                            (((n - 0xD800) * 1024 + (n2 - 0xDC00) + 0x10000) as u32) as char,
                                            i + 11,
                                        ),
                                    )
                                } else {
                                    None
                                },
                                None => None,
                            }
                        } else {
                            None
                        }
                    } else {
                        Some(((n as u32) as char, i + 5))
                    }
                },
            }
        } else {
            None
        }
    }
}

/// Decodes the string whose opening quote stands just before `i`: its content
/// and the position after the closing quote.
pub open spec fn parse_str(t: Seq<char>, i: int) -> Option<(Seq<char>, int)>
    decreases t.len() - i,
{
    if i < 0 || i >= t.len() {
        None
    } else if t[i] == '"' {
        Some((Seq::empty(), i + 1))
    } else if t[i] == '\\' {
        match parse_escape(t, i + 1) {
            Some((ch, j)) => match parse_str(t, j) {
                Some((s, e)) => Some((seq![ch] + s, e)),
                None => None,
            },
            None => None,
        }
    } else if (t[i] as u32) < 0x20 {
        None
    } else {
        match parse_str(t, i + 1) {
            Some((s, e)) => Some((seq![t[i]] + s, e)),
            None => None,
        }
    }
}

/// Position after an escape whose backslash stands just before `i`, checked
/// for form only.
pub open spec fn skip_escape(t: Seq<char>, i: int) -> Option<int> {
    if i < 0 || i >= t.len() {
        None
    } else {
        let c = t[i];
        if c == '"' || c == '\\' || c == '/' || c == 'b' || c == 'f' || c == 'n' || c == 'r' || c
            == 't' {
            Some(i + 1)
        } else if c == 'u' && hex4(t, i + 1) is Some {
            Some(i + 5)
        } else {
            None
        }
    }
}

/// Position after the closing quote of a string opened just before `i`,
/// escapes checked for form only.
pub open spec fn skip_str(t: Seq<char>, i: int) -> Option<int>
    decreases t.len() - i,
{
    if i < 0 || i >= t.len() {
        None
    } else if t[i] == '"' {
        Some(i + 1)
    } else if t[i] == '\\' {
        match skip_escape(t, i + 1) {
            Some(j) => skip_str(t, j),
            None => None,
        }
    } else if (t[i] as u32) < 0x20 {
        None
    } else {
        skip_str(t, i + 1)
    }
}

/// Position after the closing quote of a string opened just before `i` that
/// holds neither an escape nor a control character (a string that can be
/// borrowed from the text).
pub open spec fn plain_str_end(t: Seq<char>, i: int) -> Option<int>
    decreases t.len() - i,
{
    if i < 0 || i >= t.len() {
        None
    } else if t[i] == '"' {
        Some(i + 1)
    } else if t[i] == '\\' || (t[i] as u32) < 0x20 {
        None
    } else {
        plain_str_end(t, i + 1)
    }
}

/// Position after the number that starts at `i`.
pub open spec fn number_end(t: Seq<char>, i: int) -> Option<int> {
    let j = if 0 <= i < t.len() && t[i] == '-' {
        i + 1
    } else {
        i
    };
    if j < 0 || j >= t.len() {
        None
    } else {
        let k = if t[j] == '0' {
            j + 1
        } else {
            j + digit_run(t, j)
        };
        if t[j] == '0' && k < t.len() && is_digit(t[k]) {
            None
        } else if !is_digit(t[j]) {
            None
        } else {
            let has_frac = k < t.len() && t[k] == '.';
            let k2 = if has_frac {
                k + 1 + digit_run(t, k + 1)
            } else {
                k
            };
            if has_frac && digit_run(t, k + 1) == 0 {
                None
            } else if k2 < t.len() && ci(t[k2], 'e', 'E') {
                let s = if k2 + 1 < t.len() && (t[k2 + 1] == '+' || t[k2 + 1] == '-') {
                    k2 + 2
                } else {
                    k2 + 1
                };
                if digit_run(t, s) == 0 {
                    None
                } else {
                    Some(s + digit_run(t, s))
                }
            } else {
                Some(k2)
            }
        }
    }
}

/// Whether `serde_json` reads the number text `text` as a JSON value (it refuses
/// numbers too large for a 64-bit float).
pub uninterp spec fn json_number_accepted(text: Seq<char>) -> bool;

/// A JSON integer of at most 20 digits: an optional `-`, then `0` or digits
/// that do not start with `0`, and nothing else.
pub open spec fn short_json_integer(t: Seq<char>) -> bool {
    let d = if t.len() > 0 && t[0] == '-' {
        t.skip(1)
    } else {
        t
    };
    &&& 1 <= d.len() <= 20
    &&& forall|i: int| 0 <= i < d.len() ==> is_digit(#[trigger] d[i])
    &&& (d[0] != '0' || d.len() == 1)
}

/// Calls `serde_json::from_str::<serde_json::Value>` on `text` and tells whether it
/// succeeded. The result is named: it is `json_number_accepted(text)`. Of it, only
/// this is stated: a short integer is accepted (`serde_json` reads it as a 64-bit
/// integer, or, beyond that range, as a finite float).
#[verifier::external_body]
fn number_accepted(text: &str) -> (r: bool)
    ensures
        r == json_number_accepted(text@),
        short_json_integer(text@) ==> r,
{
    serde_json::from_str::<serde_json::Value>(text).is_ok()
}

pub open spec fn literal_at(t: Seq<char>, i: int, w: Seq<char>) -> bool {
    0 <= i && i + w.len() <= t.len() && t.subrange(i, i + w.len() as int) == w
}

/// Position after the scalar value (literal, number or string) that starts at `p`.
pub open spec fn scalar_end(t: Seq<char>, p: int, strict: bool) -> Option<int> {
    if p < 0 || p >= t.len() {
        None
    } else {
        let c = t[p];
        if c == 'n' {
            if literal_at(t, p, seq!['n', 'u', 'l', 'l']) {
                Some(p + 4)
            } else {
                None
            }
        } else if c == 't' {
            if literal_at(t, p, seq!['t', 'r', 'u', 'e']) {
                Some(p + 4)
            } else {
                None
            }
        } else if c == 'f' {
            if literal_at(t, p, seq!['f', 'a', 'l', 's', 'e']) {
                Some(p + 5)
            } else {
                None
            }
        } else if c == '-' || is_digit(c) {
            match number_end(t, p) {
                Some(e) => if !strict || json_number_accepted(t.subrange(p, e)) {
                    Some(e)
                } else {
                    None
                },
                None => None,
            }
        } else if c == '"' {
            if strict {
                match parse_str(t, p + 1) {
                    Some((s, e)) => Some(e),
                    None => None,
                }
            } else {
                skip_str(t, p + 1)
            }
        } else {
            None
        }
    }
}

pub open spec fn closer(c: char) -> char {
    if c == '[' {
        ']'
    } else {
        '}'
    }
}

/// What the scanner of a value expects next.
#[derive(Clone, Copy, PartialEq, Eq)]
pub enum ScanMode {
    /// A value.
    Value,
    /// The first member of the container just opened, or its end.
    Opened,
    /// A comma or the end of the innermost container (or nothing, outside all).
    After,
    /// An object key and its colon.
    Key,
}

pub open spec fn scan_rank(m: ScanMode) -> int {
    match m {
        ScanMode::Opened => 1,
        _ => 0,
    }
}

/// Scans the rest of one JSON value. `stack` holds the open containers (`[` or
/// `{`), innermost last. The result is the position after the value.
pub open spec fn scan(t: Seq<char>, pos: int, stack: Seq<char>, mode: ScanMode, strict: bool) -> Option<
    int,
>
    decreases t.len() - pos, scan_rank(mode),
{
    if pos < 0 || pos > t.len() {
        None
    } else {
        match mode {
            ScanMode::Value => {
                let p = skip_ws(t, pos);
                if p < pos || p >= t.len() {
                    None
                } else if t[p] == '[' || t[p] == '{' {
                    if strict && stack.len() >= DEPTH_LIMIT {
                        None
                    } else {
                        scan(t, p + 1, stack.push(t[p]), ScanMode::Opened, strict)
                    }
                } else {
                    match scalar_end(t, p, strict) {
                        Some(e) => if pos < e <= t.len() {
                            scan(t, e, stack, ScanMode::After, strict)
                        } else {
                            None
                        },
                        None => None,
                    }
                }
            },
            ScanMode::Opened => {
                let q = skip_ws(t, pos);
                if q < pos || q >= t.len() || stack.len() == 0 {
                    None
                } else if t[q] == closer(stack.last()) {
                    if stack.len() == 1 {
                        Some(q + 1)
                    } else {
                        scan(t, q + 1, stack.drop_last(), ScanMode::After, strict)
                    }
                } else if stack.last() == '[' {
                    scan(t, q, stack, ScanMode::Value, strict)
                } else {
                    scan(t, q, stack, ScanMode::Key, strict)
                }
            },
            ScanMode::After => {
                if stack.len() == 0 {
                    Some(pos)
                } else {
                    let q = skip_ws(t, pos);
                    if q < pos || q >= t.len() {
                        None
                    } else if t[q] == ',' {
                        if stack.last() == '[' {
                            scan(t, q + 1, stack, ScanMode::Value, strict)
                        } else {
                            scan(t, q + 1, stack, ScanMode::Key, strict)
                        }
                    } else if t[q] == closer(stack.last()) {
                        if stack.len() == 1 {
                            Some(q + 1)
                        } else {
                            scan(t, q + 1, stack.drop_last(), ScanMode::After, strict)
                        }
                    } else {
                        None
                    }
                }
            },
            ScanMode::Key => {
                let q = skip_ws(t, pos);
                if q < pos || q >= t.len() || t[q] != '"' {
                    None
                } else {
                    let e = if strict {
                        match parse_str(t, q + 1) {
                            Some((s, e)) => Some(e),
                            None => None,
                        }
                    } else {
                        skip_str(t, q + 1)
                    };
                    match e {
                        Some(e) => {
                            let c = skip_ws(t, e);
                            if pos < e && e <= c && c < t.len() && t[c] == ':' {
                                scan(t, c + 1, stack, ScanMode::Value, strict)
                            } else {
                                None
                            }
                        },
                        None => None,
                    }
                }
            },
        }
    }
}

/// Position after the JSON value that starts at or after `i` (after whitespace).
pub open spec fn value_end(t: Seq<char>, i: int, strict: bool) -> Option<int> {
    scan(t, i, Seq::empty(), ScanMode::Value, strict)
}

// ------------------------------------------------------------------------------------------
// Executable reading of the lexical parts
// ------------------------------------------------------------------------------------------
/// `char::from_u32`: a character exactly when `n` is a Unicode scalar value
/// (not a surrogate and at most 0x10FFFF), and then the character with code `n`.
#[verifier::external_body]
fn char_from_u32(n: u32) -> (r: Option<char>)
    ensures
        (n < 0xD800 || (0xDFFF < n && n <= 0x10FFFF)) <==> r is Some,
        r matches Some(c) ==> c as u32 == n,
{
    char::from_u32(n)
}

/// `String::push`: appends `c` to `s`.
#[verifier::external_body]
pub(crate) fn push_char(s: &mut String, c: char)
    ensures
        final(s)@ == old(s)@.push(c),
{
    s.push(c)
}

pub(crate) fn skip_ws_exec(t: &Vec<char>, i: usize) -> (r: usize)
    requires
        i <= t.len(),
    ensures
        r == skip_ws(t@, i as int),
        i <= r <= t.len(),
{
    let mut j = i;
    while j < t.len() && (t[j] == ' ' || t[j] == '\n' || t[j] == '\t' || t[j] == '\r')
        invariant
            i <= j <= t.len(),
            skip_ws(t@, i as int) == skip_ws(t@, j as int),
        decreases t.len() - j,
    {
        j += 1;
    }
    j
}

fn hex_val_exec(c: char) -> (r: Option<u32>)
    ensures
        r matches Some(v) ==> hex_val(c) == Some(v as nat) && v < 16,
        r is None ==> hex_val(c) is None,
{
    if '0' <= c && c <= '9' {
        Some(c as u32 - '0' as u32)
    } else if 'a' <= c && c <= 'f' {
        Some(c as u32 - 'a' as u32 + 10)
    } else if 'A' <= c && c <= 'F' {
        Some(c as u32 - 'A' as u32 + 10)
    } else {
        None
    }
}

fn hex4_exec(t: &Vec<char>, i: usize) -> (r: Option<u32>)
    ensures
        r matches Some(v) ==> hex4(t@, i as int) == Some(v as nat),
        r is None ==> hex4(t@, i as int) is None,
{
    if i > t.len() || t.len() - i < 4 {
        return None;
    }
    let a = hex_val_exec(t[i]);
    let b = hex_val_exec(t[i + 1]);
    let c = hex_val_exec(t[i + 2]);
    let d = hex_val_exec(t[i + 3]);
    match (a, b, c, d) {
        (Some(a), Some(b), Some(c), Some(d)) => Some(a * 4096 + b * 256 + c * 16 + d),
        _ => None,
    }
}

fn escape_exec(t: &Vec<char>, i: usize) -> (r: Option<(char, usize)>)
    ensures
        r matches Some((c, j)) ==> parse_escape(t@, i as int) == Some((c, j as int)) && i < j
            <= t.len(),
        r is None ==> parse_escape(t@, i as int) is None,
{
    if i >= t.len() {
        return None;
    }
    let c = t[i];
    if c == '"' {
        Some(('"', i + 1))
    } else if c == '\\' {
        Some(('\\', i + 1))
    } else if c == '/' {
        Some(('/', i + 1))
    } else if c == 'b' {
        Some(('\x08', i + 1))
    } else if c == 'f' {
        Some(('\x0c', i + 1))
    } else if c == 'n' {
        Some(('\n', i + 1))
    } else if c == 'r' {
        Some(('\r', i + 1))
    } else if c == 't' {
        Some(('\t', i + 1))
    } else if c == 'u' {
        match hex4_exec(t, i + 1) {
            None => None,
            Some(n) => {
                if 0xDC00 <= n && n <= 0xDFFF {
                    None
                } else if 0xD800 <= n && n <= 0xDBFF {
                    if t.len() - i > 6 && t[i + 5] == '\\' && t[i + 6] == 'u' {
                        match hex4_exec(t, i + 7) {
                            Some(n2) => if 0xDC00 <= n2 && n2 <= 0xDFFF {
                                let code: u32 = (n - 0xD800) * 1024 + (n2 - 0xDC00) + 0x10000;
                                match char_from_u32(code) {
                                    Some(ch) => {
                                        proof {
                                            vstd::utf8::char_u32_cast(ch, code);
                                        }
                                        assert(code == ((n - 0xD800) * 1024 + (n2 - 0xDC00) + 0x10000) as u32);
                                        Some((ch, i + 11))
                                    },
                                    None => None,
                                }
                            } else {
                                None
                            },
                            None => None,
                        }
                    } else {
                        None
                    }
                } else {
                    match char_from_u32(n) {
                        Some(ch) => {
                            proof {
                                vstd::utf8::char_u32_cast(ch, n);
                            }
                            Some((ch, i + 5))
                        },
                        None => None,
                    }
                }
            },
        }
    } else {
        None
    }
}

pub open spec fn with_prefix(a: Seq<char>, r: Option<(Seq<char>, int)>) -> Option<(Seq<char>, int)> {
    match r {
        Some((s, e)) => Some((a + s, e)),
        None => None,
    }
}

proof fn lemma_with_prefix(a: Seq<char>, c: char, r: Option<(Seq<char>, int)>)
    ensures
        with_prefix(a, with_prefix(seq![c], r)) == with_prefix(a.push(c), r),
{
    match r {
        Some((s, e)) => {
            assert(a + (seq![c] + s) =~= a.push(c) + s);
        },
        None => {},
    }
}

/// Decodes the string whose opening quote stands just before `i`.
pub(crate) fn parse_str_exec(t: &Vec<char>, i: usize) -> (r: Option<(String, usize)>)
    requires
        i <= t.len(),
    ensures
        r matches Some((s, e)) ==> parse_str(t@, i as int) == Some((s@, e as int)) && i < e <= t.len(),
        r is None ==> parse_str(t@, i as int) is None,
{
    let mut acc = String::new();
    let mut j = i;
    assert(with_prefix(acc@, parse_str(t@, i as int)) == parse_str(t@, i as int)) by {
        match parse_str(t@, i as int) {
            Some((s, e)) => {
                assert(acc@ + s =~= s);
            },
            None => {},
        }
    }
    loop
        invariant
            i <= j <= t.len(),
            parse_str(t@, i as int) == with_prefix(acc@, parse_str(t@, j as int)),
        decreases t.len() - j,
    {
        if j >= t.len() {
            return None;
        }
        let c = t[j];
        if c == '"' {
            assert(acc@ + Seq::<char>::empty() =~= acc@);
            return Some((acc, j + 1));
        }
        if c == '\\' {
            match escape_exec(t, j + 1) {
                None => {
                    return None;
                },
                Some((ch, k)) => {
                    proof {
                        lemma_with_prefix(acc@, ch, parse_str(t@, k as int));
                    }
                    push_char(&mut acc, ch);
                    j = k;
                },
            }
        } else if (c as u32) < 0x20 {
            return None;
        } else {
            proof {
                lemma_with_prefix(acc@, c, parse_str(t@, j + 1));
            }
            push_char(&mut acc, c);
            j += 1;
        }
    }
}

fn skip_escape_exec(t: &Vec<char>, i: usize) -> (r: Option<usize>)
    ensures
        r matches Some(j) ==> skip_escape(t@, i as int) == Some(j as int) && i < j <= t.len(),
        r is None ==> skip_escape(t@, i as int) is None,
{
    if i >= t.len() {
        return None;
    }
    let c = t[i];
    if c == '"' || c == '\\' || c == '/' || c == 'b' || c == 'f' || c == 'n' || c == 'r' || c
        == 't' {
        Some(i + 1)
    } else if c == 'u' && hex4_exec(t, i + 1).is_some() {
        Some(i + 5)
    } else {
        None
    }
}

/// Position after a string opened just before `i`, escapes checked for form.
pub(crate) fn skip_str_exec(t: &Vec<char>, i: usize) -> (r: Option<usize>)
    requires
        i <= t.len(),
    ensures
        r matches Some(e) ==> skip_str(t@, i as int) == Some(e as int) && i < e <= t.len(),
        r is None ==> skip_str(t@, i as int) is None,
{
    let mut j = i;
    loop
        invariant
            i <= j <= t.len(),
            skip_str(t@, i as int) == skip_str(t@, j as int),
        decreases t.len() - j,
    {
        if j >= t.len() {
            return None;
        }
        let c = t[j];
        if c == '"' {
            return Some(j + 1);
        }
        if c == '\\' {
            match skip_escape_exec(t, j + 1) {
                None => {
                    return None;
                },
                Some(k) => {
                    j = k;
                },
            }
        } else if (c as u32) < 0x20 {
            return None;
        } else {
            j += 1;
        }
    }
}

/// Position after a string opened just before `i` that holds no escape and no
/// control character.
pub(crate) fn plain_str_end_exec(t: &Vec<char>, i: usize) -> (r: Option<usize>)
    requires
        i <= t.len(),
    ensures
        r matches Some(e) ==> plain_str_end(t@, i as int) == Some(e as int) && i < e <= t.len(),
        r is None ==> plain_str_end(t@, i as int) is None,
{
    let mut j = i;
    loop
        invariant
            i <= j <= t.len(),
            plain_str_end(t@, i as int) == plain_str_end(t@, j as int),
        decreases t.len() - j,
    {
        if j >= t.len() {
            return None;
        }
        let c = t[j];
        if c == '"' {
            return Some(j + 1);
        }
        if c == '\\' || (c as u32) < 0x20 {
            return None;
        }
        j += 1;
    }
}

/// Position after the number that starts at `i`.
pub(crate) fn number_end_exec(t: &Vec<char>, i: usize) -> (r: Option<usize>)
    requires
        i <= t.len(),
    ensures
        r matches Some(e) ==> number_end(t@, i as int) == Some(e as int) && i < e <= t.len(),
        r is None ==> number_end(t@, i as int) is None,
{
    let n = t.len();
    let j = if i < n && t[i] == '-' {
        i + 1
    } else {
        i
    };
    if j >= n {
        return None;
    }
    if !is_digit_exec(t[j]) {
        return None;
    }
    let k = if t[j] == '0' {
        j + 1
    } else {
        let d = digit_run_exec(t, j);
        j + d
    };
    proof {
        lemma_digit_run_bound(t@, j as int);
    }
    if t[j] == '0' && k < n && is_digit_exec(t[k]) {
        return None;
    }
    let has_frac = k < n && t[k] == '.';
    let k2 = if has_frac {
        let d = digit_run_exec(t, k + 1);
        if d == 0 {
            return None;
        }
        k + 1 + d
    } else {
        k
    };
    if k2 < n && ci_exec(t[k2], 'e', 'E') {
        let s = if k2 + 1 < n && (t[k2 + 1] == '+' || t[k2 + 1] == '-') {
            k2 + 2
        } else {
            k2 + 1
        };
        let d = digit_run_exec(t, s);
        if d == 0 {
            return None;
        }
        Some(s + d)
    } else {
        Some(k2)
    }
}

fn literal_at_exec(t: &Vec<char>, i: usize, w: &[char]) -> (r: bool)
    ensures
        r == literal_at(t@, i as int, w@),
{
    if i > t.len() || t.len() - i < w.len() {
        return false;
    }
    let mut k: usize = 0;
    while k < w.len()
        invariant
            i + w.len() <= t.len(),
            k <= w.len(),
            forall|m: int| 0 <= m < k ==> t@[i + m] == w@[m],
        decreases w.len() - k,
    {
        if t[i + k] != w[k] {
            assert(t@.subrange(i as int, i + w.len())[k as int] != w@[k as int]);
            return false;
        }
        k += 1;
    }
    assert(t@.subrange(i as int, i + w.len()) =~= w@);
    true
}

/// The characters `t[start..end]` as a string.
pub(crate) fn chars_to_string(t: &Vec<char>, start: usize, end: usize) -> (r: String)
    requires
        start <= end <= t.len(),
    ensures
        r@ == t@.subrange(start as int, end as int),
{
    let mut s = String::new();
    let mut k = start;
    while k < end
        invariant
            start <= k <= end <= t.len(),
            s@ =~= t@.subrange(start as int, k as int),
        decreases end - k,
    {
        push_char(&mut s, t[k]);
        k += 1;
    }
    s
}

/// The end of the number that starts at `p`, given whether `serde_json` accepts
/// its text as a value (`accepted`); the loose check takes any number as written.
pub fn checked_number_end(t: &Vec<char>, p: usize, strict: bool, accepted: bool) -> (r: Option<usize>)
    requires
        p <= t.len(),
    ensures
        r == match number_end(t@, p as int) {
            Some(e) => if !strict || accepted {
                Some(e as usize)
            } else {
                None
            },
            None => None,
        },
        r matches Some(e) ==> number_end(t@, p as int) == Some(e as int) && p < e <= t.len(),
{
    match number_end_exec(t, p) {
        Some(e) => if !strict || accepted {
            Some(e)
        } else {
            None
        },
        None => None,
    }
}

fn scalar_end_exec(t: &Vec<char>, p: usize, strict: bool) -> (r: Option<usize>)
    requires
        p <= t.len(),
    ensures
        r matches Some(e) ==> scalar_end(t@, p as int, strict) == Some(e as int) && p < e <= t.len(),
        r is None ==> scalar_end(t@, p as int, strict) is None,
{
    if p >= t.len() {
        return None;
    }
    let c = t[p];
    if c == 'n' {
        let w = ['n', 'u', 'l', 'l'];
        assert(w@ =~= seq!['n', 'u', 'l', 'l']);
        if literal_at_exec(t, p, w.as_slice()) {
            Some(p + 4)
        } else {
            None
        }
    } else if c == 't' {
        let w = ['t', 'r', 'u', 'e'];
        assert(w@ =~= seq!['t', 'r', 'u', 'e']);
        if literal_at_exec(t, p, w.as_slice()) {
            Some(p + 4)
        } else {
            None
        }
    } else if c == 'f' {
        let w = ['f', 'a', 'l', 's', 'e'];
        assert(w@ =~= seq!['f', 'a', 'l', 's', 'e']);
        if literal_at_exec(t, p, w.as_slice()) {
            Some(p + 5)
        } else {
            None
        }
    } else if c == '-' || is_digit_exec(c) {
        match number_end_exec(t, p) {
            Some(e) => {
                let accepted = if strict {
                    let text = chars_to_string(t, p, e);
                    number_accepted(text.as_str())
                } else {
                    true
                };
                checked_number_end(t, p, strict, accepted)
            },
            None => None,
        }
    } else if c == '"' {
        if strict {
            match parse_str_exec(t, p + 1) {
                Some((_s, e)) => Some(e),
                None => None,
            }
        } else {
            skip_str_exec(t, p + 1)
        }
    } else {
        None
    }
}

/// Position after the JSON value that starts at or after `i`: checked loosely
/// (`strict == false`) or strictly.
pub(crate) fn value_end_exec(t: &Vec<char>, i: usize, strict: bool) -> (r: Option<usize>)
    requires
        i <= t.len(),
    ensures
        r matches Some(e) ==> value_end(t@, i as int, strict) == Some(e as int) && i < e <= t.len(),
        r is None ==> value_end(t@, i as int, strict) is None,
{
    let mut pos = i;
    let mut stack: Vec<char> = Vec::new();
    let mut mode = ScanMode::Value;
    loop
        invariant
            pos <= t.len(),
            value_end(t@, i as int, strict) == scan(t@, pos as int, stack@, mode, strict),
            forall|k: int| 0 <= k < stack@.len() ==> #[trigger] stack@[k] == '[' || stack@[k] == '{',
            (mode == ScanMode::Value && pos == i && stack@.len() == 0) || pos > i,
            mode == ScanMode::Opened || mode == ScanMode::Key ==> stack@.len() > 0,
        decreases t.len() - pos, scan_rank(mode),
    {
        match mode {
            ScanMode::Value => {
                let p = skip_ws_exec(t, pos);
                if p >= t.len() {
                    return None;
                }
                let c = t[p];
                if c == '[' || c == '{' {
                    if strict && stack.len() >= DEPTH_LIMIT {
                        return None;
                    }
                    stack.push(c);
                    pos = p + 1;
                    mode = ScanMode::Opened;
                } else {
                    match scalar_end_exec(t, p, strict) {
                        Some(e) => {
                            pos = e;
                            mode = ScanMode::After;
                        },
                        None => {
                            return None;
                        },
                    }
                }
            },
            ScanMode::Opened => {
                let q = skip_ws_exec(t, pos);
                if q >= t.len() {
                    return None;
                }
                let top = stack[stack.len() - 1];
                let cl = if top == '[' {
                    ']'
                } else {
                    '}'
                };
                if t[q] == cl {
                    if stack.len() == 1 {
                        return Some(q + 1);
                    }
                    stack.pop();
                    pos = q + 1;
                    mode = ScanMode::After;
                } else if top == '[' {
                    pos = q;
                    mode = ScanMode::Value;
                } else {
                    pos = q;
                    mode = ScanMode::Key;
                }
            },
            ScanMode::After => {
                if stack.len() == 0 {
                    return Some(pos);
                }
                let q = skip_ws_exec(t, pos);
                if q >= t.len() {
                    return None;
                }
                let top = stack[stack.len() - 1];
                let cl = if top == '[' {
                    ']'
                } else {
                    '}'
                };
                if t[q] == ',' {
                    pos = q + 1;
                    mode = if top == '[' {
                        ScanMode::Value
                    } else {
                        ScanMode::Key
                    };
                } else if t[q] == cl {
                    if stack.len() == 1 {
                        return Some(q + 1);
                    }
                    stack.pop();
                    pos = q + 1;
                    mode = ScanMode::After;
                } else {
                    return None;
                }
            },
            ScanMode::Key => {
                let q = skip_ws_exec(t, pos);
                if q >= t.len() || t[q] != '"' {
                    return None;
                }
                let e = if strict {
                    match parse_str_exec(t, q + 1) {
                        Some((_s, e)) => Some(e),
                        None => None,
                    }
                } else {
                    skip_str_exec(t, q + 1)
                };
                match e {
                    Some(e) => {
                        let c = skip_ws_exec(t, e);
                        if c < t.len() && t[c] == ':' {
                            pos = c + 1;
                            mode = ScanMode::Value;
                        } else {
                            return None;
                        }
                    },
                    None => {
                        return None;
                    },
                }
            },
        }
    }
}

} // verus!
