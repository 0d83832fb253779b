//! Facts about the JSON scanners: bounds of the positions they return, and
//! locality — a scanner's verdict on a value depends only on the value's own
//! bytes (plus, for numbers, the byte that ends the token). Locality is what
//! lets an opaque payload be spliced into an envelope and read back intact.

use vstd::prelude::*;

use crate::json::{
    esc_byte, escape, is_digit, is_number_byte, is_ws, lit_false, lit_null, lit_true, match_at,
    no_ctrl, parse_string_body, parse_u64_at, parse_u64_loop, scan_array, scan_array_elems,
    scan_number, scan_object, scan_object_members, scan_string, scan_value, skip_ws, u64_digits,
    unescape_byte, BACKSLASH, COLON, COMMA, LBRACE, LBRACKET, QUOTE, RBRACE, RBRACKET, U64_CUT,
};

verus! {

/// `n` bytes of `s1` starting at `p1` equal those of `s2` starting at `p2`.
pub open spec fn bytes_match(s1: Seq<u8>, p1: int, s2: Seq<u8>, p2: int, n: int) -> bool {
    0 <= p1 && 0 <= p2 && 0 <= n && p1 + n <= s1.len() && p2 + n <= s2.len() && (forall|i: int|
        0 <= i && i < n ==> s1[p1 + i] == #[trigger] s2[p2 + i])
}

pub proof fn lemma_skip_ws_bounds(s: Seq<u8>, p: int)
    requires
        0 <= p,
    ensures
        p <= skip_ws(s, p),
        p <= s.len() ==> skip_ws(s, p) <= s.len(),
        skip_ws(s, p) < s.len() ==> !is_ws(s[skip_ws(s, p)]),
    decreases s.len() - p,
{
    if p < s.len() && is_ws(s[p]) {
        lemma_skip_ws_bounds(s, p + 1);
    }
}

pub proof fn lemma_scan_string_bounds(s: Seq<u8>, p: int, e: int)
    requires
        scan_string(s, p) == Some(e),
    ensures
        p < e && e <= s.len(),
    decreases s.len() - p,
{
    if s[p] == QUOTE {
    } else if s[p] == BACKSLASH {
        lemma_scan_string_bounds(s, p + 2, e);
    } else {
        lemma_scan_string_bounds(s, p + 1, e);
    }
}

pub proof fn lemma_scan_number_bounds(s: Seq<u8>, p: int)
    requires
        0 <= p && p <= s.len(),
    ensures
        p <= scan_number(s, p) && scan_number(s, p) <= s.len(),
        scan_number(s, p) < s.len() ==> !is_number_byte(s[scan_number(s, p)]),
    decreases s.len() - p,
{
    if p < s.len() && is_number_byte(s[p]) {
        lemma_scan_number_bounds(s, p + 1);
    }
}

pub proof fn lemma_scan_value_bounds(s: Seq<u8>, p: int, e: int)
    requires
        scan_value(s, p) == Some(e),
    ensures
        p < e && e <= s.len(),
    decreases s.len() - p, 0int,
{
    if s[p] == QUOTE {
        lemma_scan_string_bounds(s, p + 1, e);
    } else if s[p] == LBRACE {
        lemma_scan_object_bounds(s, p + 1, e);
    } else if s[p] == LBRACKET {
        lemma_scan_array_bounds(s, p + 1, e);
    } else if s[p] == '-' as u8 || is_digit(s[p]) {
        lemma_scan_number_bounds(s, p + 1);
    }
}

pub proof fn lemma_scan_object_bounds(s: Seq<u8>, p: int, e: int)
    requires
        scan_object(s, p) == Some(e),
    ensures
        p <= e && e <= s.len(),
    decreases s.len() - p, 2int,
{
    let q = skip_ws(s, p);
    lemma_skip_ws_bounds(s, p);
    if s[q] == RBRACE {
    } else {
        lemma_scan_object_members_bounds(s, q, e);
    }
}

pub proof fn lemma_scan_object_members_bounds(s: Seq<u8>, p: int, e: int)
    requires
        scan_object_members(s, p) == Some(e),
    ensures
        p < e && e <= s.len(),
    decreases s.len() - p, 1int,
{
    let kend = scan_string(s, p + 1)->Some_0;
    lemma_scan_string_bounds(s, p + 1, kend);
    let c = skip_ws(s, kend);
    let v = skip_ws(s, c + 1);
    let vend = scan_value(s, v)->Some_0;
    lemma_scan_value_bounds(s, v, vend);
    let t = skip_ws(s, vend);
    lemma_skip_ws_bounds(s, vend);
    if s[t] == RBRACE {
    } else {
        let n = skip_ws(s, t + 1);
        lemma_scan_object_members_bounds(s, n, e);
    }
}

pub proof fn lemma_scan_array_bounds(s: Seq<u8>, p: int, e: int)
    requires
        scan_array(s, p) == Some(e),
    ensures
        p <= e && e <= s.len(),
    decreases s.len() - p, 2int,
{
    let q = skip_ws(s, p);
    lemma_skip_ws_bounds(s, p);
    if s[q] == RBRACKET {
    } else {
        lemma_scan_array_elems_bounds(s, q, e);
    }
}

pub proof fn lemma_scan_array_elems_bounds(s: Seq<u8>, p: int, e: int)
    requires
        scan_array_elems(s, p) == Some(e),
    ensures
        p < e && e <= s.len(),
    decreases s.len() - p, 1int,
{
    let ve = scan_value(s, p)->Some_0;
    lemma_scan_value_bounds(s, p, ve);
    let t = skip_ws(s, ve);
    lemma_skip_ws_bounds(s, ve);
    if s[t] == RBRACKET {
    } else {
        let n = skip_ws(s, t + 1);
        lemma_scan_array_elems_bounds(s, n, e);
    }
}

pub proof fn lemma_bytes_match_sub(
    s1: Seq<u8>,
    p1: int,
    s2: Seq<u8>,
    p2: int,
    n: int,
    a: int,
    m: int,
)
    requires
        bytes_match(s1, p1, s2, p2, n),
        p1 <= a,
        0 <= m,
        a + m <= p1 + n,
    ensures
        bytes_match(s1, a, s2, a + (p2 - p1), m),
{
    assert forall|i: int| 0 <= i && i < m implies s1[a + i] == #[trigger] s2[a + (p2 - p1)
        + i] by {
        let j = a - p1 + i;
        assert(s1[p1 + j] == s2[p2 + j]);
        assert(p1 + j == a + i);
        assert(p2 + j == a + (p2 - p1) + i);
    }
}

pub proof fn lemma_bytes_match_at(s1: Seq<u8>, p1: int, s2: Seq<u8>, p2: int, n: int, x: int)
    requires
        bytes_match(s1, p1, s2, p2, n),
        p1 <= x && x < p1 + n,
    ensures
        s1[x] == s2[x + (p2 - p1)],
{
    let j = x - p1;
    assert(s1[p1 + j] == s2[p2 + j]);
}

pub proof fn lemma_skip_ws_frame(s1: Seq<u8>, p1: int, s2: Seq<u8>, p2: int, n: int)
    requires
        bytes_match(s1, p1, s2, p2, n),
        skip_ws(s1, p1) - p1 < n,
    ensures
        skip_ws(s2, p2) == p2 + (skip_ws(s1, p1) - p1),
    decreases n,
{
    lemma_skip_ws_bounds(s1, p1);
    let q1 = skip_ws(s1, p1);
    if q1 == p1 {
        // n >= 1, so p1 is in range and not whitespace
        assert(s1[p1] == s2[p2]) by {
            lemma_bytes_match_at(s1, p1, s2, p2, n, p1);
        }
        assert(!is_ws(s1[p1]));
    } else {
        assert(is_ws(s1[p1]));
        assert(s1[p1] == s2[p2]) by {
            lemma_bytes_match_at(s1, p1, s2, p2, n, p1);
        }
        lemma_bytes_match_sub(s1, p1, s2, p2, n, p1 + 1, n - 1);
        lemma_skip_ws_frame(s1, p1 + 1, s2, p2 + 1, n - 1);
    }
}

pub proof fn lemma_scan_string_frame(s1: Seq<u8>, p1: int, e1: int, s2: Seq<u8>, p2: int)
    requires
        scan_string(s1, p1) == Some(e1),
        bytes_match(s1, p1, s2, p2, e1 - p1),
    ensures
        scan_string(s2, p2) == Some(p2 + (e1 - p1)),
    decreases s1.len() - p1,
{
    lemma_scan_string_bounds(s1, p1, e1);
    assert(s1[p1] == s2[p2]) by {
        lemma_bytes_match_at(s1, p1, s2, p2, e1 - p1, p1);
    }
    if s1[p1] == QUOTE {
    } else if s1[p1] == BACKSLASH {
        lemma_scan_string_bounds(s1, p1 + 2, e1);
        lemma_bytes_match_at(s1, p1, s2, p2, e1 - p1, p1 + 1);
        lemma_bytes_match_sub(s1, p1, s2, p2, e1 - p1, p1 + 2, e1 - (p1 + 2));
        lemma_scan_string_frame(s1, p1 + 2, e1, s2, p2 + 2);
    } else {
        lemma_scan_string_bounds(s1, p1 + 1, e1);
        lemma_bytes_match_sub(s1, p1, s2, p2, e1 - p1, p1 + 1, e1 - (p1 + 1));
        lemma_scan_string_frame(s1, p1 + 1, e1, s2, p2 + 1);
    }
}

pub proof fn lemma_scan_number_frame(s1: Seq<u8>, p1: int, s2: Seq<u8>, p2: int, n: int)
    requires
        0 <= p1 && p1 <= s1.len(),
        bytes_match(s1, p1, s2, p2, n),
        scan_number(s1, p1) - p1 <= n,
        p2 + (scan_number(s1, p1) - p1) == s2.len() || !is_number_byte(
            s2[p2 + (scan_number(s1, p1) - p1)],
        ),
    ensures
        scan_number(s2, p2) == p2 + (scan_number(s1, p1) - p1),
    decreases n,
{
    lemma_scan_number_bounds(s1, p1);
    let q1 = scan_number(s1, p1);
    if q1 == p1 {
    } else {
        assert(is_number_byte(s1[p1]));
        assert(s1[p1] == s2[p2]) by {
            lemma_bytes_match_at(s1, p1, s2, p2, n, p1);
        }
        lemma_bytes_match_sub(s1, p1, s2, p2, n, p1 + 1, n - 1);
        lemma_scan_number_frame(s1, p1 + 1, s2, p2 + 1, n - 1);
    }
}

/// Scanning a complete value reads only the value's own bytes, plus — when
/// the value is a number — the byte that ends the token.
pub proof fn lemma_scan_value_frame(s1: Seq<u8>, p1: int, e1: int, s2: Seq<u8>, p2: int)
    requires
        scan_value(s1, p1) == Some(e1),
        bytes_match(s1, p1, s2, p2, e1 - p1),
        p2 + (e1 - p1) == s2.len() || !is_number_byte(s2[p2 + (e1 - p1)]),
    ensures
        scan_value(s2, p2) == Some(p2 + (e1 - p1)),
    decreases s1.len() - p1, 0int,
{
    lemma_scan_value_bounds(s1, p1, e1);
    let off = p2 - p1;
    assert(s1[p1] == s2[p2]) by {
        lemma_bytes_match_at(s1, p1, s2, p2, e1 - p1, p1);
    }
    if s1[p1] == QUOTE {
        lemma_scan_string_bounds(s1, p1 + 1, e1);
        lemma_bytes_match_sub(s1, p1, s2, p2, e1 - p1, p1 + 1, e1 - (p1 + 1));
        lemma_scan_string_frame(s1, p1 + 1, e1, s2, p2 + 1);
    } else if s1[p1] == LBRACE {
        lemma_scan_object_bounds(s1, p1 + 1, e1);
        lemma_bytes_match_sub(s1, p1, s2, p2, e1 - p1, p1 + 1, e1 - (p1 + 1));
        lemma_scan_object_frame(s1, p1 + 1, e1, s2, p2 + 1);
    } else if s1[p1] == LBRACKET {
        lemma_scan_array_bounds(s1, p1 + 1, e1);
        lemma_bytes_match_sub(s1, p1, s2, p2, e1 - p1, p1 + 1, e1 - (p1 + 1));
        lemma_scan_array_frame(s1, p1 + 1, e1, s2, p2 + 1);
    } else if s1[p1] == 't' as u8 || s1[p1] == 'f' as u8 || s1[p1] == 'n' as u8 {
        let w = if s1[p1] == 't' as u8 {
            lit_true()
        } else if s1[p1] == 'f' as u8 {
            lit_false()
        } else {
            lit_null()
        };
        assert(match_at(s1, p1, w));
        assert(e1 == p1 + w.len());
        assert forall|i: int| 0 <= i && i < w.len() implies #[trigger] s2.subrange(
            p2,
            p2 + w.len() as int,
        )[i] == w[i] by {
            lemma_bytes_match_at(s1, p1, s2, p2, e1 - p1, p1 + i);
            assert(s1.subrange(p1, p1 + w.len() as int)[i] == w[i]);
            assert(s2[p2 + i] == s1[p1 + i]);
        }
        assert(s2.subrange(p2, p2 + w.len() as int) =~= w);
        assert(match_at(s2, p2, w));
    } else {
        assert(s1[p1] == '-' as u8 || is_digit(s1[p1]));
        lemma_scan_number_bounds(s1, p1 + 1);
        assert(e1 == scan_number(s1, p1 + 1));
        lemma_bytes_match_sub(s1, p1, s2, p2, e1 - p1, p1 + 1, e1 - (p1 + 1));
        lemma_scan_number_frame(s1, p1 + 1, s2, p2 + 1, e1 - (p1 + 1));
    }
}

pub proof fn lemma_scan_object_frame(s1: Seq<u8>, p1: int, e1: int, s2: Seq<u8>, p2: int)
    requires
        scan_object(s1, p1) == Some(e1),
        bytes_match(s1, p1, s2, p2, e1 - p1),
    ensures
        scan_object(s2, p2) == Some(p2 + (e1 - p1)),
    decreases s1.len() - p1, 2int,
{
    let off = p2 - p1;
    lemma_scan_object_bounds(s1, p1, e1);
    lemma_skip_ws_bounds(s1, p1);
    let q1 = skip_ws(s1, p1);
    if s1[q1] == RBRACE {
        assert(e1 == q1 + 1);
        lemma_skip_ws_frame(s1, p1, s2, p2, e1 - p1);
        lemma_bytes_match_at(s1, p1, s2, p2, e1 - p1, q1);
    } else {
        lemma_scan_object_members_bounds(s1, q1, e1);
        lemma_skip_ws_frame(s1, p1, s2, p2, e1 - p1);
        lemma_bytes_match_sub(s1, p1, s2, p2, e1 - p1, q1, e1 - q1);
        lemma_scan_object_members_frame(s1, q1, e1, s2, q1 + off);
        lemma_bytes_match_at(s1, p1, s2, p2, e1 - p1, q1);
    }
}

pub proof fn lemma_scan_object_members_frame(s1: Seq<u8>, p1: int, e1: int, s2: Seq<u8>, p2: int)
    requires
        scan_object_members(s1, p1) == Some(e1),
        bytes_match(s1, p1, s2, p2, e1 - p1),
    ensures
        scan_object_members(s2, p2) == Some(p2 + (e1 - p1)),
    decreases s1.len() - p1, 1int,
{
    let off = p2 - p1;
    lemma_scan_object_members_bounds(s1, p1, e1);
    let kend1 = scan_string(s1, p1 + 1)->Some_0;
    lemma_scan_string_bounds(s1, p1 + 1, kend1);
    let c1 = skip_ws(s1, kend1);
    lemma_skip_ws_bounds(s1, kend1);
    assert(s1[c1] == COLON);
    let v1 = skip_ws(s1, c1 + 1);
    lemma_skip_ws_bounds(s1, c1 + 1);
    let vend1 = scan_value(s1, v1)->Some_0;
    lemma_scan_value_bounds(s1, v1, vend1);
    let t1 = skip_ws(s1, vend1);
    lemma_skip_ws_bounds(s1, vend1);
    assert(t1 < s1.len() && (s1[t1] == RBRACE || s1[t1] == COMMA));

    // order of the inner positions, and that all stay below e1
    assert(p1 + 1 <= kend1 && kend1 <= c1 && c1 < v1 && v1 <= vend1 && vend1 <= t1);
    assert(t1 < e1) by {
        if s1[t1] == RBRACE {
        } else {
            let n1 = skip_ws(s1, t1 + 1);
            lemma_skip_ws_bounds(s1, t1 + 1);
            lemma_scan_object_members_bounds(s1, n1, e1);
        }
    }

    // the key quote
    lemma_bytes_match_at(s1, p1, s2, p2, e1 - p1, p1);
    // the key string
    lemma_bytes_match_sub(s1, p1, s2, p2, e1 - p1, p1 + 1, kend1 - (p1 + 1));
    lemma_scan_string_frame(s1, p1 + 1, kend1, s2, p1 + 1 + off);
    // whitespace up to the colon, and the colon itself
    lemma_bytes_match_sub(s1, p1, s2, p2, e1 - p1, kend1, e1 - kend1);
    lemma_skip_ws_frame(s1, kend1, s2, kend1 + off, e1 - kend1);
    lemma_bytes_match_at(s1, p1, s2, p2, e1 - p1, c1);
    // whitespace up to the value
    lemma_bytes_match_sub(s1, p1, s2, p2, e1 - p1, c1 + 1, e1 - (c1 + 1));
    lemma_skip_ws_frame(s1, c1 + 1, s2, c1 + 1 + off, e1 - (c1 + 1));
    // the value: its end byte in s1 is whitespace or a separator, so the
    // matched copy in s2 ends the number token as well
    assert(!is_number_byte(s1[vend1])) by {
        if t1 == vend1 {
        } else {
            assert(is_ws(s1[vend1]));
        }
    }
    lemma_bytes_match_at(s1, p1, s2, p2, e1 - p1, vend1);
    lemma_bytes_match_sub(s1, p1, s2, p2, e1 - p1, v1, vend1 - v1);
    lemma_scan_value_frame(s1, v1, vend1, s2, v1 + off);
    // whitespace up to the separator
    lemma_bytes_match_sub(s1, p1, s2, p2, e1 - p1, vend1, e1 - vend1);
    lemma_skip_ws_frame(s1, vend1, s2, vend1 + off, e1 - vend1);
    lemma_bytes_match_at(s1, p1, s2, p2, e1 - p1, t1);
    if s1[t1] == RBRACE {
        assert(e1 == t1 + 1);
    } else {
        let n1 = skip_ws(s1, t1 + 1);
        lemma_skip_ws_bounds(s1, t1 + 1);
        lemma_scan_object_members_bounds(s1, n1, e1);
        lemma_bytes_match_sub(s1, p1, s2, p2, e1 - p1, t1 + 1, e1 - (t1 + 1));
        lemma_skip_ws_frame(s1, t1 + 1, s2, t1 + 1 + off, e1 - (t1 + 1));
        lemma_bytes_match_sub(s1, p1, s2, p2, e1 - p1, n1, e1 - n1);
        lemma_scan_object_members_frame(s1, n1, e1, s2, n1 + off);
    }
}

pub proof fn lemma_scan_array_frame(s1: Seq<u8>, p1: int, e1: int, s2: Seq<u8>, p2: int)
    requires
        scan_array(s1, p1) == Some(e1),
        bytes_match(s1, p1, s2, p2, e1 - p1),
    ensures
        scan_array(s2, p2) == Some(p2 + (e1 - p1)),
    decreases s1.len() - p1, 2int,
{
    let off = p2 - p1;
    lemma_scan_array_bounds(s1, p1, e1);
    lemma_skip_ws_bounds(s1, p1);
    let q1 = skip_ws(s1, p1);
    if s1[q1] == RBRACKET {
        assert(e1 == q1 + 1);
        lemma_skip_ws_frame(s1, p1, s2, p2, e1 - p1);
        lemma_bytes_match_at(s1, p1, s2, p2, e1 - p1, q1);
    } else {
        lemma_scan_array_elems_bounds(s1, q1, e1);
        lemma_skip_ws_frame(s1, p1, s2, p2, e1 - p1);
        lemma_bytes_match_sub(s1, p1, s2, p2, e1 - p1, q1, e1 - q1);
        lemma_scan_array_elems_frame(s1, q1, e1, s2, q1 + off);
        lemma_bytes_match_at(s1, p1, s2, p2, e1 - p1, q1);
    }
}

pub proof fn lemma_scan_array_elems_frame(s1: Seq<u8>, p1: int, e1: int, s2: Seq<u8>, p2: int)
    requires
        scan_array_elems(s1, p1) == Some(e1),
        bytes_match(s1, p1, s2, p2, e1 - p1),
    ensures
        scan_array_elems(s2, p2) == Some(p2 + (e1 - p1)),
    decreases s1.len() - p1, 1int,
{
    let off = p2 - p1;
    lemma_scan_array_elems_bounds(s1, p1, e1);
    let ve1 = scan_value(s1, p1)->Some_0;
    lemma_scan_value_bounds(s1, p1, ve1);
    let t1 = skip_ws(s1, ve1);
    lemma_skip_ws_bounds(s1, ve1);
    assert(t1 < s1.len() && (s1[t1] == RBRACKET || s1[t1] == COMMA));
    assert(p1 < ve1 && ve1 <= t1);
    assert(t1 < e1) by {
        if s1[t1] == RBRACKET {
        } else {
            let n1 = skip_ws(s1, t1 + 1);
            lemma_skip_ws_bounds(s1, t1 + 1);
            lemma_scan_array_elems_bounds(s1, n1, e1);
        }
    }

    assert(!is_number_byte(s1[ve1])) by {
        if t1 == ve1 {
        } else {
            assert(is_ws(s1[ve1]));
        }
    }
    lemma_bytes_match_at(s1, p1, s2, p2, e1 - p1, ve1);
    lemma_bytes_match_sub(s1, p1, s2, p2, e1 - p1, p1, ve1 - p1);
    lemma_scan_value_frame(s1, p1, ve1, s2, p2);
    lemma_bytes_match_sub(s1, p1, s2, p2, e1 - p1, ve1, e1 - ve1);
    lemma_skip_ws_frame(s1, ve1, s2, ve1 + off, e1 - ve1);
    lemma_bytes_match_at(s1, p1, s2, p2, e1 - p1, t1);
    if s1[t1] == RBRACKET {
        assert(e1 == t1 + 1);
    } else {
        let n1 = skip_ws(s1, t1 + 1);
        lemma_skip_ws_bounds(s1, t1 + 1);
        lemma_scan_array_elems_bounds(s1, n1, e1);
        lemma_bytes_match_sub(s1, p1, s2, p2, e1 - p1, t1 + 1, e1 - (t1 + 1));
        lemma_skip_ws_frame(s1, t1 + 1, s2, t1 + 1 + off, e1 - (t1 + 1));
        lemma_bytes_match_sub(s1, p1, s2, p2, e1 - p1, n1, e1 - n1);
        lemma_scan_array_elems_frame(s1, n1, e1, s2, n1 + off);
    }
}

// ---------------------------------------------------------------------------
// Reading back what the encoder wrote
// ---------------------------------------------------------------------------

/// Escaping text without control bytes and parsing it back is the identity.
pub proof fn lemma_parse_string_escape(s: Seq<u8>, p: int, x: Seq<u8>, acc: Seq<u8>)
    requires
        no_ctrl(x),
        0 <= p,
        p + escape(x).len() < s.len(),
        s.subrange(p, p + escape(x).len() as int) == escape(x),
        s[p + escape(x).len()] == QUOTE,
    ensures
        parse_string_body(s, p, acc) == Some((acc + x, p + escape(x).len() + 1)),
    decreases x.len(),
{
    if x.len() == 0 {
        assert(escape(x).len() == 0);
        assert(acc + x =~= acc);
    } else {
        let b = x[0];
        let rest = x.skip(1);
        assert(escape(x) == esc_byte(b) + escape(rest));
        let k = esc_byte(b).len() as int;
        assert(escape(x).len() == k + escape(rest).len());
        assert forall|i: int| 0 <= i && i < escape(x).len() implies #[trigger] s[p + i] == escape(
            x,
        )[i] by {
            assert(s.subrange(p, p + escape(x).len() as int)[i] == s[p + i]);
        }
        assert(no_ctrl(rest)) by {
            assert(forall|i: int| 0 <= i && i < rest.len() ==> rest[i] == #[trigger] x[i + 1]);
        }
        assert(s.subrange(p + k, p + k + escape(rest).len() as int) =~= escape(rest)) by {
            assert forall|i: int| 0 <= i && i < escape(rest).len() implies s.subrange(
                p + k,
                p + k + escape(rest).len() as int,
            )[i] == escape(rest)[i] by {
                assert(s[p + (k + i)] == escape(x)[k + i]);
                assert(escape(x)[k + i] == escape(rest)[i]);
            }
        }
        assert(s[p + 0] == escape(x)[0]);
        if b == QUOTE || b == BACKSLASH {
            assert(k == 2);
            assert(escape(x)[0] == BACKSLASH && escape(x)[1] == b);
            assert(s[p] == BACKSLASH && s[p + 1] == b);
            assert(unescape_byte(b) == Some(b));
            assert(b != 'u' as u8);
            lemma_parse_string_escape(s, p + 2, rest, acc.push(b));
            assert(acc.push(b) + rest =~= acc + x);
        } else {
            assert(k == 1);
            assert(escape(x)[0] == b);
            assert(s[p] == b);
            assert(b >= 0x20 && b != QUOTE && b != BACKSLASH);
            lemma_parse_string_escape(s, p + 1, rest, acc.push(b));
            assert(acc.push(b) + rest =~= acc + x);
        }
    }
}

/// The raw scanner stops exactly at the closing quote of an escaped string.
pub proof fn lemma_scan_string_escape(s: Seq<u8>, p: int, x: Seq<u8>)
    requires
        no_ctrl(x),
        0 <= p,
        p + escape(x).len() < s.len(),
        s.subrange(p, p + escape(x).len() as int) == escape(x),
        s[p + escape(x).len()] == QUOTE,
    ensures
        scan_string(s, p) == Some(p + escape(x).len() + 1),
    decreases x.len(),
{
    if x.len() == 0 {
        assert(escape(x).len() == 0);
    } else {
        let b = x[0];
        let rest = x.skip(1);
        assert(escape(x) == esc_byte(b) + escape(rest));
        let k = esc_byte(b).len() as int;
        assert forall|i: int| 0 <= i && i < escape(x).len() implies #[trigger] s[p + i] == escape(
            x,
        )[i] by {
            assert(s.subrange(p, p + escape(x).len() as int)[i] == s[p + i]);
        }
        assert(no_ctrl(rest)) by {
            assert(forall|i: int| 0 <= i && i < rest.len() ==> rest[i] == #[trigger] x[i + 1]);
        }
        assert(s.subrange(p + k, p + k + escape(rest).len() as int) =~= escape(rest)) by {
            assert forall|i: int| 0 <= i && i < escape(rest).len() implies s.subrange(
                p + k,
                p + k + escape(rest).len() as int,
            )[i] == escape(rest)[i] by {
                assert(s[p + (k + i)] == escape(x)[k + i]);
                assert(escape(x)[k + i] == escape(rest)[i]);
            }
        }
        assert(s[p + 0] == escape(x)[0]);
        if b == QUOTE || b == BACKSLASH {
            assert(escape(x)[0] == BACKSLASH && escape(x)[1] == b);
            assert(s[p] == BACKSLASH && s[p + 1] == b);
            lemma_scan_string_escape(s, p + 2, rest);
        } else {
            assert(escape(x)[0] == b);
            assert(s[p] == b && b != QUOTE && b != BACKSLASH);
            lemma_scan_string_escape(s, p + 1, rest);
        }
    }
}

/// Text without quotes, backslashes or control bytes needs no escaping.
pub proof fn lemma_escape_plain(x: Seq<u8>)
    requires
        forall|i: int|
            0 <= i && i < x.len() ==> #[trigger] x[i] != QUOTE && x[i] != BACKSLASH && x[i]
                >= 0x20,
    ensures
        escape(x) == x,
    decreases x.len(),
{
    if x.len() == 0 {
        assert(escape(x) =~= x);
    } else {
        lemma_escape_plain(x.skip(1));
        assert(esc_byte(x[0]) =~= seq![x[0]]);
        assert(seq![x[0]] + x.skip(1) =~= x);
    }
}

// ---------------------------------------------------------------------------
// Decimal digits
// ---------------------------------------------------------------------------

/// Folding decimal digits onto an accumulator, with the same overflow rule
/// as `parse_u64_loop`.
pub open spec fn fold_digits(acc: u64, ds: Seq<u8>) -> Option<u64>
    decreases ds.len(),
{
    if ds.len() == 0 {
        Some(acc)
    } else {
        let d = (ds[0] - 0x30) as u64;
        if acc > U64_CUT || (acc == U64_CUT && d > 5) {
            None
        } else {
            fold_digits((acc * 10 + d) as u64, ds.skip(1))
        }
    }
}

pub proof fn lemma_parse_loop_digits(s: Seq<u8>, p: int, ds: Seq<u8>, acc: u64)
    requires
        0 <= p,
        p + ds.len() <= s.len(),
        s.subrange(p, p + ds.len() as int) == ds,
        forall|i: int| 0 <= i && i < ds.len() ==> is_digit(#[trigger] ds[i]),
        p + ds.len() == s.len() || !is_digit(s[p + ds.len()]),
    ensures
        parse_u64_loop(s, p, acc) == match fold_digits(acc, ds) {
            Some(v) => Some((v, p + ds.len() as int)),
            None => None,
        },
    decreases ds.len(),
{
    assert forall|i: int| 0 <= i && i < ds.len() implies #[trigger] s[p + i] == ds[i] by {
        assert(s.subrange(p, p + ds.len() as int)[i] == s[p + i]);
    }
    if ds.len() == 0 {
    } else {
        assert(s[p] == ds[0] && is_digit(s[p]));
        let d = (ds[0] - 0x30) as u64;
        if acc > U64_CUT || (acc == U64_CUT && d > 5) {
        } else {
            assert(s.subrange(p + 1, p + 1 + ds.skip(1).len() as int) =~= ds.skip(1)) by {
                assert forall|i: int| 0 <= i && i < ds.skip(1).len() implies s.subrange(
                    p + 1,
                    p + 1 + ds.skip(1).len() as int,
                )[i] == ds.skip(1)[i] by {
                    assert(s[p + (i + 1)] == ds[i + 1]);
                }
            }
            lemma_parse_loop_digits(s, p + 1, ds.skip(1), (acc * 10 + d) as u64);
        }
    }
}

pub proof fn lemma_fold_snoc(acc: u64, ds: Seq<u8>, d: u8)
    ensures
        fold_digits(acc, ds.push(d)) == match fold_digits(acc, ds) {
            Some(v) => {
                let dd = (d - 0x30) as u64;
                if v > U64_CUT || (v == U64_CUT && dd > 5) {
                    None
                } else {
                    Some((v * 10 + dd) as u64)
                }
            },
            None => None,
        },
    decreases ds.len(),
{
    if ds.len() == 0 {
        reveal_with_fuel(fold_digits, 3);
        assert(ds.push(d).skip(1) =~= Seq::<u8>::empty());
        assert(ds.push(d)[0] == d);
    } else {
        assert(ds.push(d)[0] == ds[0]);
        assert(ds.push(d).skip(1) =~= ds.skip(1).push(d));
        let d0 = #[verifier::truncate] ((ds[0] - 0x30) as u64);
        if acc > U64_CUT || (acc == U64_CUT && d0 > 5) {
        } else {
            let acc2 = #[verifier::truncate] ((acc * 10 + d0) as u64);
            assert(fold_digits(acc, ds.push(d)) == fold_digits(acc2, ds.skip(1).push(d)));
            assert(fold_digits(acc, ds) == fold_digits(acc2, ds.skip(1)));
            lemma_fold_snoc(acc2, ds.skip(1), d);
        }
    }
}

pub proof fn lemma_u64_digits_props(n: u64)
    ensures
        u64_digits(n).len() >= 1,
        forall|i: int| 0 <= i && i < u64_digits(n).len() ==> is_digit(#[trigger] u64_digits(n)[i]),
        n >= 1 ==> u64_digits(n)[0] != 0x30,
        n < 10 ==> u64_digits(n).len() == 1,
    decreases n,
{
    if n < 10 {
    } else {
        lemma_u64_digits_props(n / 10);
        assert(n / 10 >= 1) by (nonlinear_arith)
            requires
                n >= 10,
        ;
        assert(u64_digits(n) == u64_digits(n / 10).push((0x30 + n % 10) as u8));
        assert(u64_digits(n)[0] == u64_digits(n / 10)[0]);
        assert(0 <= n % 10 && n % 10 < 10) by (nonlinear_arith);
        assert forall|i: int| 0 <= i && i < u64_digits(n).len() implies is_digit(
            #[trigger] u64_digits(n)[i],
        ) by {
            if i < u64_digits(n / 10).len() {
                assert(u64_digits(n)[i] == u64_digits(n / 10)[i]);
            } else {
                assert(u64_digits(n)[i] == (0x30 + n % 10) as u8);
            }
        }
    }
}

pub proof fn lemma_fold_digits_value(n: u64)
    ensures
        fold_digits(0, u64_digits(n)) == Some(n),
    decreases n,
{
    if n < 10 {
        reveal_with_fuel(fold_digits, 3);
        assert(u64_digits(n) == seq![(0x30 + n) as u8]);
        assert(u64_digits(n).skip(1) =~= Seq::<u8>::empty());
        assert(fold_digits(0, u64_digits(n)) == Some(n));
    } else {
        lemma_fold_digits_value(n / 10);
        let last = (0x30 + n % 10) as u8;
        lemma_fold_snoc(0, u64_digits(n / 10), last);
        assert(n == 10 * (n / 10) + n % 10) by (nonlinear_arith);
        assert(0 <= n % 10 && n % 10 < 10) by (nonlinear_arith);
        assert(n / 10 <= U64_CUT) by (nonlinear_arith)
            requires
                n <= 0xffff_ffff_ffff_ffffu64,
        ;
        assert((n / 10 == U64_CUT) ==> n % 10 <= 5) by (nonlinear_arith)
            requires
                n <= 0xffff_ffff_ffff_ffffu64 && n == 10 * (n / 10) + n % 10,
        ;
        assert((last - 0x30) as u64 == n % 10);
        assert(u64_digits(n) == u64_digits(n / 10).push(last));
        assert(fold_digits(0, u64_digits(n)) == Some(((n / 10) * 10 + n % 10) as u64));
        assert((n / 10) * 10 + n % 10 == n);
    }
}

/// Parsing the decimal form of `n` standalone gives back `n`.
pub proof fn lemma_parse_u64_digits(n: u64)
    ensures
        parse_u64_at(u64_digits(n), 0) == Some((n, u64_digits(n).len() as int)),
{
    let ds = u64_digits(n);
    lemma_u64_digits_props(n);
    assert(ds.subrange(0, ds.len() as int) =~= ds);
    if n == 0 {
        assert(ds == seq![0x30u8]);
    } else if n < 10 {
        assert(ds == seq![(0x30 + n) as u8]);
        assert(ds[0] != 0x30);
        lemma_parse_loop_digits(ds, 0, ds, 0);
        lemma_fold_digits_value(n);
    } else {
        assert(ds[0] != 0x30);
        lemma_parse_loop_digits(ds, 0, ds, 0);
        lemma_fold_digits_value(n);
    }
}

/// A run of number bytes that ends at a non-number byte (or the end) is
/// consumed exactly.
pub proof fn lemma_scan_number_run(s: Seq<u8>, p: int, e: int)
    requires
        0 <= p && p <= e && e <= s.len(),
        forall|i: int| p <= i && i < e ==> is_number_byte(#[trigger] s[i]),
        e == s.len() || !is_number_byte(s[e]),
    ensures
        scan_number(s, p) == e,
    decreases e - p,
{
    if p < e {
        lemma_scan_number_run(s, p + 1, e);
    }
}

} // verus!
