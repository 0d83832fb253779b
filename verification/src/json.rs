//! Byte-level JSON lexing for the wire envelope.
//!
//! The wire format is a flat JSON object. This module gives the grammar a
//! direct mathematical definition (the `spec` functions) and executable
//! scanners and parsers proved equal to it. Payload fields (`options`,
//! `data`) are captured as raw spans, so the scanner must be able to walk
//! any JSON value; typed fields (strings, numbers, booleans) get exact
//! parsers.

use vstd::prelude::*;

pub mod lemmas;

verus! {

pub const QUOTE: u8 = '"' as u8;
pub const BACKSLASH: u8 = '\\' as u8;
pub const LBRACE: u8 = '{' as u8;
pub const RBRACE: u8 = '}' as u8;
pub const LBRACKET: u8 = '[' as u8;
pub const RBRACKET: u8 = ']' as u8;
pub const COLON: u8 = ':' as u8;
pub const COMMA: u8 = ',' as u8;

pub open spec fn is_ws(b: u8) -> bool {
    b == 0x20 || b == 0x09 || b == 0x0a || b == 0x0d
}

pub open spec fn is_digit(b: u8) -> bool {
    0x30 <= b && b <= 0x39
}

/// Bytes that may continue a (loosely scanned) number token.
pub open spec fn is_number_byte(b: u8) -> bool {
    is_digit(b) || b == '-' as u8 || b == '+' as u8 || b == '.' as u8 || b == 'e' as u8
        || b == 'E' as u8
}

/// First position at or after `p` holding a non-whitespace byte (or the end).
pub open spec fn skip_ws(s: Seq<u8>, p: int) -> int
    decreases s.len() - p,
{
    if 0 <= p && p < s.len() && is_ws(s[p]) {
        skip_ws(s, p + 1)
    } else {
        p
    }
}

/// Position just past the closing quote of a string whose content starts at
/// `p` (the opening quote already consumed). Escaped pairs are skipped.
pub open spec fn scan_string(s: Seq<u8>, p: int) -> Option<int>
    decreases s.len() - p,
{
    if p < 0 || p >= s.len() {
        None
    } else if s[p] == QUOTE {
        Some(p + 1)
    } else if s[p] == BACKSLASH {
        if p + 1 < s.len() {
            scan_string(s, p + 2)
        } else {
            None
        }
    } else {
        scan_string(s, p + 1)
    }
}

/// End of the number token whose continuation starts at `p`.
pub open spec fn scan_number(s: Seq<u8>, p: int) -> int
    decreases s.len() - p,
{
    if 0 <= p && p < s.len() && is_number_byte(s[p]) {
        scan_number(s, p + 1)
    } else {
        p
    }
}

pub open spec fn lit_true() -> Seq<u8> {
    seq!['t' as u8, 'r' as u8, 'u' as u8, 'e' as u8]
}

pub open spec fn lit_false() -> Seq<u8> {
    seq!['f' as u8, 'a' as u8, 'l' as u8, 's' as u8, 'e' as u8]
}

pub open spec fn lit_null() -> Seq<u8> {
    seq!['n' as u8, 'u' as u8, 'l' as u8, 'l' as u8]
}

pub open spec fn match_at(s: Seq<u8>, p: int, w: Seq<u8>) -> bool {
    0 <= p && p + w.len() <= s.len() && s.subrange(p, p + w.len() as int) == w
}

/// End of the JSON value starting exactly at `p` (no leading whitespace).
pub open spec fn scan_value(s: Seq<u8>, p: int) -> Option<int>
    decreases s.len() - p, 0int,
{
    if p < 0 || p >= s.len() {
        None
    } else if s[p] == QUOTE {
        scan_string(s, p + 1)
    } else if s[p] == LBRACE {
        scan_object(s, p + 1)
    } else if s[p] == LBRACKET {
        scan_array(s, p + 1)
    } else if s[p] == 't' as u8 {
        if match_at(s, p, lit_true()) {
            Some(p + 4)
        } else {
            None
        }
    } else if s[p] == 'f' as u8 {
        if match_at(s, p, lit_false()) {
            Some(p + 5)
        } else {
            None
        }
    } else if s[p] == 'n' as u8 {
        if match_at(s, p, lit_null()) {
            Some(p + 4)
        } else {
            None
        }
    } else if s[p] == '-' as u8 || is_digit(s[p]) {
        Some(scan_number(s, p + 1))
    } else {
        None
    }
}

/// End of the object whose opening brace sits just before `p`.
pub open spec fn scan_object(s: Seq<u8>, p: int) -> Option<int>
    decreases s.len() - p, 2int,
{
    if p < 0 {
        None
    } else {
        let q = skip_ws(s, p);
        if q < p || q >= s.len() {
            None
        } else if s[q] == RBRACE {
            Some(q + 1)
        } else {
            scan_object_members(s, q)
        }
    }
}

/// Members of an object, starting at the quote of a key; ends past the
/// closing brace.
pub open spec fn scan_object_members(s: Seq<u8>, p: int) -> Option<int>
    decreases s.len() - p, 1int,
{
    if p < 0 || p >= s.len() || s[p] != QUOTE {
        None
    } else {
        match scan_string(s, p + 1) {
            None => None,
            Some(kend) => {
                let c = skip_ws(s, kend);
                if c < kend || c >= s.len() || s[c] != COLON {
                    None
                } else {
                    let v = skip_ws(s, c + 1);
                    if v <= p || v < c + 1 || v > s.len() {
                        None
                    } else {
                        match scan_value(s, v) {
                            None => None,
                            Some(vend) => {
                                let t = skip_ws(s, vend);
                                if t < vend || t >= s.len() {
                                    None
                                } else if s[t] == RBRACE {
                                    Some(t + 1)
                                } else if s[t] == COMMA {
                                    let n = skip_ws(s, t + 1);
                                    if n <= p || n > s.len() {
                                        None
                                    } else {
                                        scan_object_members(s, n)
                                    }
                                } else {
                                    None
                                }
                            },
                        }
                    }
                }
            },
        }
    }
}

/// End of the array whose opening bracket sits just before `p`.
pub open spec fn scan_array(s: Seq<u8>, p: int) -> Option<int>
    decreases s.len() - p, 2int,
{
    if p < 0 {
        None
    } else {
        let q = skip_ws(s, p);
        if q < p || q >= s.len() {
            None
        } else if s[q] == RBRACKET {
            Some(q + 1)
        } else {
            scan_array_elems(s, q)
        }
    }
}

/// Elements of an array, starting at the first byte of an element; ends past
/// the closing bracket.
pub open spec fn scan_array_elems(s: Seq<u8>, p: int) -> Option<int>
    decreases s.len() - p, 1int,
{
    if p < 0 || p >= s.len() {
        None
    } else {
        match scan_value(s, p) {
            None => None,
            Some(e) => {
                if e <= p {
                    None
                } else {
                    let t = skip_ws(s, e);
                    if t < e || t >= s.len() {
                        None
                    } else if s[t] == RBRACKET {
                        Some(t + 1)
                    } else if s[t] == COMMA {
                        let n = skip_ws(s, t + 1);
                        if n <= p || n > s.len() {
                            None
                        } else {
                            scan_array_elems(s, n)
                        }
                    } else {
                        None
                    }
                }
            },
        }
    }
}

pub open spec fn hex_val(b: u8) -> Option<u8> {
    if is_digit(b) {
        Some((b - 0x30) as u8)
    } else if 'a' as u8 <= b && b <= 'f' as u8 {
        Some((b - 'a' as u8 + 10) as u8)
    } else if 'A' as u8 <= b && b <= 'F' as u8 {
        Some((b - 'A' as u8 + 10) as u8)
    } else {
        None
    }
}

/// The byte produced by a two-character escape `\x`.
pub open spec fn unescape_byte(b: u8) -> Option<u8> {
    if b == QUOTE {
        Some(QUOTE)
    } else if b == BACKSLASH {
        Some(BACKSLASH)
    } else if b == '/' as u8 {
        Some('/' as u8)
    } else if b == 'b' as u8 {
        Some(0x08)
    } else if b == 'f' as u8 {
        Some(0x0c)
    } else if b == 'n' as u8 {
        Some(0x0a)
    } else if b == 'r' as u8 {
        Some(0x0d)
    } else if b == 't' as u8 {
        Some(0x09)
    } else {
        None
    }
}

/// String content from `p` (after the opening quote) up to the closing
/// quote, with escapes decoded onto `acc`. Only `\u00XX` forms are accepted
/// among `\u` escapes: the envelope works on bytes.
pub open spec fn parse_string_body(s: Seq<u8>, p: int, acc: Seq<u8>) -> Option<(Seq<u8>, int)>
    decreases s.len() - p,
{
    if p < 0 || p >= s.len() {
        None
    } else if s[p] == QUOTE {
        Some((acc, p + 1))
    } else if s[p] == BACKSLASH {
        if p + 1 < s.len() {
            let e = s[p + 1];
            if e == 'u' as u8 {
                if p + 6 <= s.len() {
                    match (hex_val(s[p + 2]), hex_val(s[p + 3]), hex_val(s[p + 4]), hex_val(
                        s[p + 5],
                    )) {
                        (Some(h1), Some(h2), Some(h3), Some(h4)) => {
                            if h1 == 0 && h2 == 0 {
                                parse_string_body(s, p + 6, acc.push((h3 * 16 + h4) as u8))
                            } else {
                                None
                            }
                        },
                        _ => None,
                    }
                } else {
                    None
                }
            } else {
                match unescape_byte(e) {
                    Some(c) => parse_string_body(s, p + 2, acc.push(c)),
                    None => None,
                }
            }
        } else {
            None
        }
    } else if s[p] < 0x20 {
        None
    } else {
        parse_string_body(s, p + 1, acc.push(s[p]))
    }
}

/// A whole string token at `p` (at its opening quote): content and end.
pub open spec fn parse_string(s: Seq<u8>, p: int) -> Option<(Seq<u8>, int)> {
    if 0 <= p && p < s.len() && s[p] == QUOTE {
        parse_string_body(s, p + 1, Seq::empty())
    } else {
        None
    }
}

/// Largest `acc` so that one more digit still fits in a `u64`.
pub const U64_CUT: u64 = 1844674407370955161;

pub open spec fn parse_u64_loop(s: Seq<u8>, p: int, acc: u64) -> Option<(u64, int)>
    decreases s.len() - p,
{
    if 0 <= p && p < s.len() && is_digit(s[p]) {
        let d = (s[p] - 0x30) as u64;
        if acc > U64_CUT || (acc == U64_CUT && d > 5) {
            None
        } else {
            parse_u64_loop(s, p + 1, (acc * 10 + d) as u64)
        }
    } else {
        Some((acc, p))
    }
}

/// An unsigned decimal at `p`: no sign, no leading zero, must fit in `u64`.
pub open spec fn parse_u64_at(s: Seq<u8>, p: int) -> Option<(u64, int)> {
    if 0 <= p && p < s.len() && is_digit(s[p]) {
        if s[p] == 0x30 {
            if p + 1 < s.len() && is_digit(s[p + 1]) {
                None
            } else {
                Some((0, p + 1))
            }
        } else {
            parse_u64_loop(s, p, 0)
        }
    } else {
        None
    }
}

/// No control bytes: such text can stand inside a JSON string with only
/// quotes and backslashes escaped.
pub open spec fn no_ctrl(s: Seq<u8>) -> bool {
    forall|i: int| 0 <= i && i < s.len() ==> #[trigger] s[i] >= 0x20
}

/// The lower-case hex digit for a value below sixteen.
pub open spec fn hex_digit(n: u8) -> u8 {
    if n < 10 {
        (0x30 + n) as u8
    } else {
        ('a' as u8 + (n - 10)) as u8
    }
}

/// How one byte is written inside a JSON string: quotes and backslashes are
/// escaped, control bytes become `\u00XX`, everything else stands as
/// itself.
pub open spec fn esc_byte(b: u8) -> Seq<u8> {
    if b == QUOTE {
        seq![BACKSLASH, QUOTE]
    } else if b == BACKSLASH {
        seq![BACKSLASH, BACKSLASH]
    } else if b < 0x20 {
        seq![
            BACKSLASH, 'u' as u8, '0' as u8, '0' as u8, hex_digit((b / 16) as u8), hex_digit(
                (b % 16) as u8,
            ),
        ]
    } else {
        seq![b]
    }
}

pub open spec fn escape(s: Seq<u8>) -> Seq<u8>
    decreases s.len(),
{
    if s.len() == 0 {
        Seq::empty()
    } else {
        esc_byte(s[0]) + escape(s.skip(1))
    }
}

/// Decimal digits of `n`, most significant first.
pub open spec fn u64_digits(n: u64) -> Seq<u8>
    decreases n,
{
    if n < 10 {
        seq![(0x30 + n) as u8]
    } else {
        u64_digits(n / 10).push((0x30 + n % 10) as u8)
    }
}

// ---------------------------------------------------------------------------
// Executable mirrors
// ---------------------------------------------------------------------------

pub fn exec_is_ws(b: u8) -> (r: bool)
    ensures
        r == is_ws(b),
{
    b == 0x20 || b == 0x09 || b == 0x0a || b == 0x0d
}

pub fn exec_is_digit(b: u8) -> (r: bool)
    ensures
        r == is_digit(b),
{
    0x30 <= b && b <= 0x39
}

pub fn exec_is_number_byte(b: u8) -> (r: bool)
    ensures
        r == is_number_byte(b),
{
    exec_is_digit(b) || b == '-' as u8 || b == '+' as u8 || b == '.' as u8 || b == 'e' as u8
        || b == 'E' as u8
}

pub fn exec_skip_ws(s: &[u8], p: usize) -> (r: usize)
    requires
        p <= s@.len(),
    ensures
        r as int == skip_ws(s@, p as int),
        p <= r && r <= s@.len(),
    decreases s@.len() - p,
{
    if p < s.len() && exec_is_ws(s[p]) {
        exec_skip_ws(s, p + 1)
    } else {
        p
    }
}

pub fn exec_scan_string(s: &[u8], p: usize) -> (r: Option<usize>)
    requires
        p <= s@.len(),
    ensures
        match r {
            Some(e) => scan_string(s@, p as int) == Some(e as int) && p < e && e <= s@.len(),
            None => scan_string(s@, p as int) is None,
        },
    decreases s@.len() - p,
{
    if p >= s.len() {
        None
    } else if s[p] == QUOTE {
        Some(p + 1)
    } else if s[p] == BACKSLASH {
        if p + 1 < s.len() {
            exec_scan_string(s, p + 2)
        } else {
            None
        }
    } else {
        exec_scan_string(s, p + 1)
    }
}

pub fn exec_scan_number(s: &[u8], p: usize) -> (r: usize)
    requires
        p <= s@.len(),
    ensures
        r as int == scan_number(s@, p as int),
        p <= r && r <= s@.len(),
    decreases s@.len() - p,
{
    if p < s.len() && exec_is_number_byte(s[p]) {
        exec_scan_number(s, p + 1)
    } else {
        p
    }
}

fn exec_match_word(s: &[u8], p: usize, w: &[u8]) -> (r: bool)
    requires
        p <= s@.len(),
    ensures
        r == match_at(s@, p as int, w@),
{
    let slen = s.len();
    if slen - p < w.len() {
        assert(!match_at(s@, p as int, w@));
        return false;
    }
    let mut i: usize = 0;
    while i < w.len()
        invariant
            0 <= i && i <= w@.len(),
            p + w@.len() <= slen,
            slen == s@.len(),
            forall|j: int| 0 <= j && j < i ==> s@[p + j] == w@[j],
        decreases w@.len() - i,
    {
        if s[p + i] != w[i] {
            assert(s@.subrange(p as int, p + w@.len() as int)[i as int] != w@[i as int]);
            return false;
        }
        i = i + 1;
    }
    assert(s@.subrange(p as int, p + w@.len() as int) =~= w@);
    true
}

pub fn exec_scan_value(s: &[u8], p: usize) -> (r: Option<usize>)
    requires
        p <= s@.len(),
    ensures
        match r {
            Some(e) => scan_value(s@, p as int) == Some(e as int) && p < e && e <= s@.len(),
            None => scan_value(s@, p as int) is None,
        },
    decreases s@.len() - p, 0int,
{
    if p >= s.len() {
        None
    } else if s[p] == QUOTE {
        exec_scan_string(s, p + 1)
    } else if s[p] == LBRACE {
        exec_scan_object(s, p + 1)
    } else if s[p] == LBRACKET {
        exec_scan_array(s, p + 1)
    } else if s[p] == 't' as u8 {
        let w = vec!['t' as u8, 'r' as u8, 'u' as u8, 'e' as u8];
        assert(w@ =~= lit_true());
        if exec_match_word(s, p, w.as_slice()) {
            Some(p + 4)
        } else {
            None
        }
    } else if s[p] == 'f' as u8 {
        let w = vec!['f' as u8, 'a' as u8, 'l' as u8, 's' as u8, 'e' as u8];
        assert(w@ =~= lit_false());
        if exec_match_word(s, p, w.as_slice()) {
            Some(p + 5)
        } else {
            None
        }
    } else if s[p] == 'n' as u8 {
        let w = vec!['n' as u8, 'u' as u8, 'l' as u8, 'l' as u8];
        assert(w@ =~= lit_null());
        if exec_match_word(s, p, w.as_slice()) {
            Some(p + 4)
        } else {
            None
        }
    } else if s[p] == '-' as u8 || exec_is_digit(s[p]) {
        Some(exec_scan_number(s, p + 1))
    } else {
        None
    }
}

pub fn exec_scan_object(s: &[u8], p: usize) -> (r: Option<usize>)
    requires
        p <= s@.len(),
    ensures
        match r {
            Some(e) => scan_object(s@, p as int) == Some(e as int) && p <= e && e <= s@.len(),
            None => scan_object(s@, p as int) is None,
        },
    decreases s@.len() - p, 2int,
{
    let q = exec_skip_ws(s, p);
    if q >= s.len() {
        None
    } else if s[q] == RBRACE {
        Some(q + 1)
    } else {
        exec_scan_object_members(s, q)
    }
}

pub fn exec_scan_object_members(s: &[u8], p: usize) -> (r: Option<usize>)
    requires
        p <= s@.len(),
    ensures
        match r {
            Some(e) => scan_object_members(s@, p as int) == Some(e as int) && p <= e && e
                <= s@.len(),
            None => scan_object_members(s@, p as int) is None,
        },
    decreases s@.len() - p, 1int,
{
    if p >= s.len() || s[p] != QUOTE {
        return None;
    }
    let kend = match exec_scan_string(s, p + 1) {
        None => {
            return None;
        },
        Some(kend) => kend,
    };
    let c = exec_skip_ws(s, kend);
    if c >= s.len() || s[c] != COLON {
        return None;
    }
    let v = exec_skip_ws(s, c + 1);
    let vend = match exec_scan_value(s, v) {
        None => {
            return None;
        },
        Some(vend) => vend,
    };
    let t = exec_skip_ws(s, vend);
    if t >= s.len() {
        None
    } else if s[t] == RBRACE {
        Some(t + 1)
    } else if s[t] == COMMA {
        let n = exec_skip_ws(s, t + 1);
        exec_scan_object_members(s, n)
    } else {
        None
    }
}

pub fn exec_scan_array(s: &[u8], p: usize) -> (r: Option<usize>)
    requires
        p <= s@.len(),
    ensures
        match r {
            Some(e) => scan_array(s@, p as int) == Some(e as int) && p <= e && e <= s@.len(),
            None => scan_array(s@, p as int) is None,
        },
    decreases s@.len() - p, 2int,
{
    let q = exec_skip_ws(s, p);
    if q >= s.len() {
        None
    } else if s[q] == RBRACKET {
        Some(q + 1)
    } else {
        exec_scan_array_elems(s, q)
    }
}

pub fn exec_scan_array_elems(s: &[u8], p: usize) -> (r: Option<usize>)
    requires
        p <= s@.len(),
    ensures
        match r {
            Some(e) => scan_array_elems(s@, p as int) == Some(e as int) && p <= e && e
                <= s@.len(),
            None => scan_array_elems(s@, p as int) is None,
        },
    decreases s@.len() - p, 1int,
{
    let e = match exec_scan_value(s, p) {
        None => {
            return None;
        },
        Some(e) => e,
    };
    let t = exec_skip_ws(s, e);
    if t >= s.len() {
        None
    } else if s[t] == RBRACKET {
        Some(t + 1)
    } else if s[t] == COMMA {
        let n = exec_skip_ws(s, t + 1);
        exec_scan_array_elems(s, n)
    } else {
        None
    }
}

fn exec_hex_val(b: u8) -> (r: Option<u8>)
    ensures
        r == hex_val(b),
{
    if 0x30 <= b && b <= 0x39 {
        Some(b - 0x30)
    } else if 'a' as u8 <= b && b <= 'f' as u8 {
        Some(b - 'a' as u8 + 10)
    } else if 'A' as u8 <= b && b <= 'F' as u8 {
        Some(b - 'A' as u8 + 10)
    } else {
        None
    }
}

fn exec_unescape_byte(b: u8) -> (r: Option<u8>)
    ensures
        r == unescape_byte(b),
{
    if b == QUOTE {
        Some(QUOTE)
    } else if b == BACKSLASH {
        Some(BACKSLASH)
    } else if b == '/' as u8 {
        Some('/' as u8)
    } else if b == 'b' as u8 {
        Some(0x08)
    } else if b == 'f' as u8 {
        Some(0x0c)
    } else if b == 'n' as u8 {
        Some(0x0a)
    } else if b == 'r' as u8 {
        Some(0x0d)
    } else if b == 't' as u8 {
        Some(0x09)
    } else {
        None
    }
}

fn exec_parse_string_body(s: &[u8], p: usize, acc: Vec<u8>) -> (r: Option<(Vec<u8>, usize)>)
    requires
        p <= s@.len(),
    ensures
        match r {
            Some((x, e)) => parse_string_body(s@, p as int, acc@) == Some((x@, e as int)) && p < e
                && e <= s@.len(),
            None => parse_string_body(s@, p as int, acc@) is None,
        },
    decreases s@.len() - p,
{
    if p >= s.len() {
        None
    } else if s[p] == QUOTE {
        Some((acc, p + 1))
    } else if s[p] == BACKSLASH {
        if p + 1 < s.len() {
            let e = s[p + 1];
            if e == 'u' as u8 {
                if s.len() - p >= 6 {
                    let h1 = exec_hex_val(s[p + 2]);
                    let h2 = exec_hex_val(s[p + 3]);
                    let h3 = exec_hex_val(s[p + 4]);
                    let h4 = exec_hex_val(s[p + 5]);
                    match (h1, h2, h3, h4) {
                        (Some(h1), Some(h2), Some(h3), Some(h4)) => {
                            if h1 == 0 && h2 == 0 {
                                let mut acc = acc;
                                assert(h3 < 16 && h4 < 16);
                                acc.push(h3 * 16 + h4);
                                exec_parse_string_body(s, p + 6, acc)
                            } else {
                                None
                            }
                        },
                        _ => None,
                    }
                } else {
                    None
                }
            } else {
                match exec_unescape_byte(e) {
                    Some(c) => {
                        let mut acc = acc;
                        acc.push(c);
                        exec_parse_string_body(s, p + 2, acc)
                    },
                    None => None,
                }
            }
        } else {
            None
        }
    } else if s[p] < 0x20 {
        None
    } else {
        let mut acc = acc;
        acc.push(s[p]);
        exec_parse_string_body(s, p + 1, acc)
    }
}

pub fn exec_parse_string(s: &[u8], p: usize) -> (r: Option<(Vec<u8>, usize)>)
    requires
        p <= s@.len(),
    ensures
        match r {
            Some((x, e)) => parse_string(s@, p as int) == Some((x@, e as int)) && p < e && e
                <= s@.len(),
            None => parse_string(s@, p as int) is None,
        },
{
    if p < s.len() && s[p] == QUOTE {
        exec_parse_string_body(s, p + 1, Vec::new())
    } else {
        None
    }
}

fn exec_parse_u64_loop(s: &[u8], p: usize, acc: u64) -> (r: Option<(u64, usize)>)
    requires
        p <= s@.len(),
    ensures
        match r {
            Some((n, e)) => parse_u64_loop(s@, p as int, acc) == Some((n, e as int)) && p <= e && e
                <= s@.len(),
            None => parse_u64_loop(s@, p as int, acc) is None,
        },
    decreases s@.len() - p,
{
    if p < s.len() && exec_is_digit(s[p]) {
        let d = (s[p] - 0x30) as u64;
        if acc > U64_CUT || (acc == U64_CUT && d > 5) {
            None
        } else {
            exec_parse_u64_loop(s, p + 1, acc * 10 + d)
        }
    } else {
        Some((acc, p))
    }
}

pub fn exec_parse_u64(s: &[u8], p: usize) -> (r: Option<(u64, usize)>)
    requires
        p <= s@.len(),
    ensures
        match r {
            Some((n, e)) => parse_u64_at(s@, p as int) == Some((n, e as int)) && p <= e && e
                <= s@.len(),
            None => parse_u64_at(s@, p as int) is None,
        },
{
    if p < s.len() && exec_is_digit(s[p]) {
        if s[p] == 0x30 {
            if p + 1 < s.len() && exec_is_digit(s[p + 1]) {
                None
            } else {
                Some((0, p + 1))
            }
        } else {
            exec_parse_u64_loop(s, p, 0)
        }
    } else {
        None
    }
}

fn exec_hex_digit(n: u8) -> (r: u8)
    requires
        n < 16,
    ensures
        r == hex_digit(n),
{
    if n < 10 {
        0x30 + n
    } else {
        'a' as u8 + (n - 10)
    }
}

/// Appends the escaped form of `x` to `out`.
pub fn push_escaped(out: &mut Vec<u8>, x: &[u8])
    ensures
        final(out)@ == old(out)@ + escape(x@),
{
    let mut i: usize = 0;
    while i < x.len()
        invariant
            i <= x@.len(),
            out@ == old(out)@ + escape(x@.take(i as int)),
        decreases x@.len() - i,
    {
        let b = x[i];
        if b == QUOTE {
            out.push(BACKSLASH);
            out.push(QUOTE);
        } else if b == BACKSLASH {
            out.push(BACKSLASH);
            out.push(BACKSLASH);
        } else if b < 0x20 {
            out.push(BACKSLASH);
            out.push('u' as u8);
            out.push('0' as u8);
            out.push('0' as u8);
            out.push(exec_hex_digit(b / 16));
            out.push(exec_hex_digit(b % 16));
        } else {
            out.push(b);
        }
        proof {
            lemma_escape_snoc(x@.take(i as int), b);
            assert(x@.take(i + 1) =~= x@.take(i as int).push(b));
        }
        i = i + 1;
    }
    proof {
        assert(x@.take(x@.len() as int) =~= x@);
    }
}

/// Appends the decimal digits of `n` to `out`.
pub fn push_u64(out: &mut Vec<u8>, n: u64)
    ensures
        final(out)@ == old(out)@ + u64_digits(n),
    decreases n,
{
    if n < 10 {
        out.push(0x30 + n as u8);
        assert(old(out)@ + u64_digits(n) =~= out@);
    } else {
        push_u64(out, n / 10);
        out.push(0x30 + (n % 10) as u8);
        assert(old(out)@ + u64_digits(n) =~= out@);
    }
}

/// `escape` distributes over appending one byte at the end.
pub proof fn lemma_escape_snoc(s: Seq<u8>, b: u8)
    ensures
        escape(s.push(b)) == escape(s) + esc_byte(b),
    decreases s.len(),
{
    if s.len() == 0 {
        assert(s.push(b).skip(1) =~= Seq::<u8>::empty());
        assert(escape(s.push(b)) == esc_byte(b) + escape(Seq::<u8>::empty()));
        assert(esc_byte(b) + Seq::<u8>::empty() =~= Seq::<u8>::empty() + esc_byte(b));
        assert(escape(s.push(b)) == escape(s) + esc_byte(b));
    } else {
        lemma_escape_snoc(s.skip(1), b);
        assert(s.push(b).skip(1) =~= s.skip(1).push(b));
        assert(escape(s.push(b)) == esc_byte(s[0]) + escape(s.skip(1).push(b)));
        assert(esc_byte(s[0]) + (escape(s.skip(1)) + esc_byte(b)) =~= (esc_byte(s[0]) + escape(
            s.skip(1),
        )) + esc_byte(b));
        assert(escape(s) == esc_byte(s[0]) + escape(s.skip(1)));
        assert(escape(s.push(b)) == escape(s) + esc_byte(b));
    }
}

} // verus!
