//! The JSON codec for the wire envelope.
//!
//! Encoding writes a flat object with a `method` discriminator. Decoding
//! walks the members of a flat object, captures each known field as a raw
//! span, skips unknown fields, and then reads the typed fields out of their
//! spans. Missing required fields fail; unknown fields are ignored.

use vstd::prelude::*;

pub mod roundtrip;

use crate::json::{
    escape, lit_false, lit_true, no_ctrl, parse_string, parse_u64_at, scan_value, skip_ws,
    u64_digits, COLON, COMMA, LBRACE, QUOTE, RBRACE,
};
use crate::json::{
    exec_parse_string, exec_parse_u64, exec_scan_value, exec_skip_ws, push_escaped, push_u64,
};
use crate::message::{InputMessage, InputMessageView, OutputMessage, OutputMessageView};

verus! {

// ---------------------------------------------------------------------------
// Key and method names
// ---------------------------------------------------------------------------

pub open spec fn key_method() -> Seq<u8> {
    seq!['m' as u8, 'e' as u8, 't' as u8, 'h' as u8, 'o' as u8, 'd' as u8]
}

pub open spec fn key_correlation_id() -> Seq<u8> {
    seq![
        'c' as u8, 'o' as u8, 'r' as u8, 'r' as u8, 'e' as u8, 'l' as u8, 'a' as u8, 't' as u8,
        'i' as u8, 'o' as u8, 'n' as u8, '_' as u8, 'i' as u8, 'd' as u8,
    ]
}

pub open spec fn key_p_id() -> Seq<u8> {
    seq!['p' as u8, '_' as u8, 'i' as u8, 'd' as u8]
}

pub open spec fn key_type() -> Seq<u8> {
    seq!['t' as u8, 'y' as u8, 'p' as u8, 'e' as u8]
}

pub open spec fn key_id() -> Seq<u8> {
    seq!['i' as u8, 'd' as u8]
}

pub open spec fn key_options() -> Seq<u8> {
    seq!['o' as u8, 'p' as u8, 't' as u8, 'i' as u8, 'o' as u8, 'n' as u8, 's' as u8]
}

pub open spec fn key_data() -> Seq<u8> {
    seq!['d' as u8, 'a' as u8, 't' as u8, 'a' as u8]
}

pub open spec fn key_success() -> Seq<u8> {
    seq!['s' as u8, 'u' as u8, 'c' as u8, 'c' as u8, 'e' as u8, 's' as u8, 's' as u8]
}

pub open spec fn key_finished() -> Seq<u8> {
    seq!['f' as u8, 'i' as u8, 'n' as u8, 'i' as u8, 's' as u8, 'h' as u8, 'e' as u8, 'd' as u8]
}

pub open spec fn key_description() -> Seq<u8> {
    seq![
        'd' as u8, 'e' as u8, 's' as u8, 'c' as u8, 'r' as u8, 'i' as u8, 'p' as u8, 't' as u8,
        'i' as u8, 'o' as u8, 'n' as u8,
    ]
}

pub open spec fn m_connect() -> Seq<u8> {
    seq!['c' as u8, 'o' as u8, 'n' as u8, 'n' as u8, 'e' as u8, 'c' as u8, 't' as u8]
}

pub open spec fn m_create() -> Seq<u8> {
    seq!['c' as u8, 'r' as u8, 'e' as u8, 'a' as u8, 't' as u8, 'e' as u8]
}

pub open spec fn m_join() -> Seq<u8> {
    seq!['j' as u8, 'o' as u8, 'i' as u8, 'n' as u8]
}

pub open spec fn m_action() -> Seq<u8> {
    seq!['a' as u8, 'c' as u8, 't' as u8, 'i' as u8, 'o' as u8, 'n' as u8]
}

pub open spec fn m_diff() -> Seq<u8> {
    seq!['d' as u8, 'i' as u8, 'f' as u8, 'f' as u8]
}

pub open spec fn m_generic_error() -> Seq<u8> {
    seq![
        'g' as u8, 'e' as u8, 'n' as u8, 'e' as u8, 'r' as u8, 'i' as u8, 'c' as u8, '_' as u8,
        'e' as u8, 'r' as u8, 'r' as u8, 'o' as u8, 'r' as u8,
    ]
}

// ---------------------------------------------------------------------------
// What the encoder writes
// ---------------------------------------------------------------------------

/// A quoted, escaped string token.
pub open spec fn qstr(x: Seq<u8>) -> Seq<u8> {
    seq![QUOTE] + escape(x) + seq![QUOTE]
}

/// One object member: quoted key, colon, encoded value.
pub open spec fn member(key: Seq<u8>, val: Seq<u8>) -> Seq<u8> {
    seq![QUOTE] + key + seq![QUOTE, COLON] + val
}

pub open spec fn lit_bool(b: bool) -> Seq<u8> {
    if b {
        lit_true()
    } else {
        lit_false()
    }
}

pub open spec fn encode_input_view(m: InputMessageView) -> Seq<u8> {
    match m {
        InputMessageView::Connect { correlation_id, id } => seq![LBRACE] + member(
            key_method(),
            qstr(m_connect()),
        ) + seq![COMMA] + member(key_correlation_id(), qstr(correlation_id)) + seq![COMMA]
            + member(key_p_id(), u64_digits(id)) + seq![RBRACE],
        InputMessageView::Create { correlation_id, type_, id, options } => seq![LBRACE] + member(
            key_method(),
            qstr(m_create()),
        ) + seq![COMMA] + member(key_correlation_id(), qstr(correlation_id)) + seq![COMMA]
            + member(key_type(), qstr(type_)) + seq![COMMA] + member(key_id(), qstr(id)) + (
        match options {
            Some(o) => seq![COMMA] + member(key_options(), o),
            None => Seq::empty(),
        }) + seq![RBRACE],
        InputMessageView::Join { correlation_id, type_, id } => seq![LBRACE] + member(
            key_method(),
            qstr(m_join()),
        ) + seq![COMMA] + member(key_correlation_id(), qstr(correlation_id)) + seq![COMMA]
            + member(key_type(), qstr(type_)) + seq![COMMA] + member(key_id(), qstr(id))
            + seq![RBRACE],
        InputMessageView::Action { type_, id, data } => seq![LBRACE] + member(
            key_method(),
            qstr(m_action()),
        ) + seq![COMMA] + member(key_type(), qstr(type_)) + seq![COMMA] + member(
            key_id(),
            qstr(id),
        ) + (if data.len() == 0 {
            Seq::empty()
        } else {
            seq![COMMA] + member(key_data(), data)
        }) + seq![RBRACE],
    }
}

pub open spec fn encode_output_view(m: OutputMessageView) -> Seq<u8> {
    match m {
        OutputMessageView::Connect { correlation_id, success } => seq![LBRACE] + member(
            key_method(),
            qstr(m_connect()),
        ) + seq![COMMA] + member(key_correlation_id(), qstr(correlation_id)) + seq![COMMA]
            + member(key_success(), lit_bool(success)) + seq![RBRACE],
        OutputMessageView::Create { correlation_id, success } => seq![LBRACE] + member(
            key_method(),
            qstr(m_create()),
        ) + seq![COMMA] + member(key_correlation_id(), qstr(correlation_id)) + seq![COMMA]
            + member(key_success(), lit_bool(success)) + seq![RBRACE],
        OutputMessageView::Join { correlation_id, success } => seq![LBRACE] + member(
            key_method(),
            qstr(m_join()),
        ) + seq![COMMA] + member(key_correlation_id(), qstr(correlation_id)) + seq![COMMA]
            + member(key_success(), lit_bool(success)) + seq![RBRACE],
        OutputMessageView::Diff { type_, id, finished, data } => seq![LBRACE] + member(
            key_method(),
            qstr(m_diff()),
        ) + seq![COMMA] + member(key_type(), qstr(type_)) + seq![COMMA] + member(
            key_id(),
            qstr(id),
        ) + seq![COMMA] + member(key_finished(), lit_bool(finished)) + (if data.len() == 0 {
            Seq::empty()
        } else {
            seq![COMMA] + member(key_data(), data)
        }) + seq![RBRACE],
        OutputMessageView::GenericError { description } => seq![LBRACE] + member(
            key_method(),
            qstr(m_generic_error()),
        ) + seq![COMMA] + member(key_description(), qstr(description)) + seq![RBRACE],
    }
}

// ---------------------------------------------------------------------------
// What the decoder reads
// ---------------------------------------------------------------------------

/// Raw spans captured for the known fields of a flat envelope object.
pub struct FieldsView {
    pub method: Option<Seq<u8>>,
    pub correlation_id: Option<Seq<u8>>,
    pub p_id: Option<Seq<u8>>,
    pub type_: Option<Seq<u8>>,
    pub id: Option<Seq<u8>>,
    pub options: Option<Seq<u8>>,
    pub data: Option<Seq<u8>>,
    pub success: Option<Seq<u8>>,
    pub finished: Option<Seq<u8>>,
    pub description: Option<Seq<u8>>,
}

pub open spec fn empty_fields() -> FieldsView {
    FieldsView {
        method: None,
        correlation_id: None,
        p_id: None,
        type_: None,
        id: None,
        options: None,
        data: None,
        success: None,
        finished: None,
        description: None,
    }
}

/// Records a member under its key; a later occurrence of a key overwrites an
/// earlier one, and unknown keys are ignored.
pub open spec fn set_field(f: FieldsView, k: Seq<u8>, raw: Seq<u8>) -> FieldsView {
    if k == key_method() {
        FieldsView { method: Some(raw), ..f }
    } else if k == key_correlation_id() {
        FieldsView { correlation_id: Some(raw), ..f }
    } else if k == key_p_id() {
        FieldsView { p_id: Some(raw), ..f }
    } else if k == key_type() {
        FieldsView { type_: Some(raw), ..f }
    } else if k == key_id() {
        FieldsView { id: Some(raw), ..f }
    } else if k == key_options() {
        FieldsView { options: Some(raw), ..f }
    } else if k == key_data() {
        FieldsView { data: Some(raw), ..f }
    } else if k == key_success() {
        FieldsView { success: Some(raw), ..f }
    } else if k == key_finished() {
        FieldsView { finished: Some(raw), ..f }
    } else if k == key_description() {
        FieldsView { description: Some(raw), ..f }
    } else {
        f
    }
}

/// Walks the members of a flat object from the quote of a key to the closing
/// brace, capturing the raw span of each known field.
pub open spec fn member_loop(s: Seq<u8>, p: int, f: FieldsView) -> Option<FieldsView>
    decreases s.len() - p,
{
    match parse_string(s, p) {
        None => None,
        Some((k, kend)) => {
            if kend <= p {
                None
            } else {
                let c = skip_ws(s, kend);
                if c < kend || c >= s.len() || s[c] != COLON {
                    None
                } else {
                    let v = skip_ws(s, c + 1);
                    if v <= p || v > s.len() {
                        None
                    } else {
                        match scan_value(s, v) {
                            None => None,
                            Some(vend) => {
                                if vend > s.len() || vend <= v {
                                    None
                                } else {
                                    let f2 = set_field(f, k, s.subrange(v, vend));
                                    let t = skip_ws(s, vend);
                                    if t < vend || t >= s.len() {
                                        None
                                    } else if s[t] == RBRACE {
                                        Some(f2)
                                    } else if s[t] == COMMA {
                                        let n = skip_ws(s, t + 1);
                                        if n <= p || n > s.len() {
                                            None
                                        } else {
                                            member_loop(s, n, f2)
                                        }
                                    } else {
                                        None
                                    }
                                }
                            },
                        }
                    }
                }
            }
        },
    }
}

/// The fields of the flat object at the start of `s`. Bytes after the
/// closing brace are ignored.
pub open spec fn decode_fields(s: Seq<u8>) -> Option<FieldsView> {
    let p0 = skip_ws(s, 0);
    if p0 >= s.len() || s[p0] != LBRACE {
        None
    } else {
        let p1 = skip_ws(s, p0 + 1);
        if p1 >= s.len() {
            None
        } else if s[p1] == RBRACE {
            Some(empty_fields())
        } else {
            member_loop(s, p1, empty_fields())
        }
    }
}

/// A captured span read as a string: it must be one whole string token.
pub open spec fn str_field(v: Seq<u8>) -> Option<Seq<u8>> {
    match parse_string(v, 0) {
        Some((x, e)) => if e == v.len() {
            Some(x)
        } else {
            None
        },
        None => None,
    }
}

/// A captured span read as a `u64`: one whole unsigned decimal.
pub open spec fn u64_field(v: Seq<u8>) -> Option<u64> {
    match parse_u64_at(v, 0) {
        Some((n, e)) => if e == v.len() {
            Some(n)
        } else {
            None
        },
        None => None,
    }
}

pub open spec fn bool_field(v: Seq<u8>) -> Option<bool> {
    if v == lit_true() {
        Some(true)
    } else if v == lit_false() {
        Some(false)
    } else {
        None
    }
}

pub open spec fn input_from_fields(f: FieldsView) -> Option<InputMessageView> {
    match f.method {
        None => None,
        Some(mraw) => match str_field(mraw) {
            None => None,
            Some(m) => {
                if m == m_connect() {
                    match (f.correlation_id, f.p_id) {
                        (Some(craw), Some(praw)) => match (str_field(craw), u64_field(praw)) {
                            (Some(c), Some(n)) => Some(
                                InputMessageView::Connect { correlation_id: c, id: n },
                            ),
                            _ => None,
                        },
                        _ => None,
                    }
                } else if m == m_create() {
                    match (f.correlation_id, f.type_, f.id) {
                        (Some(craw), Some(traw), Some(iraw)) => match (
                            str_field(craw),
                            str_field(traw),
                            str_field(iraw),
                        ) {
                            (Some(c), Some(t), Some(i)) => Some(
                                InputMessageView::Create {
                                    correlation_id: c,
                                    type_: t,
                                    id: i,
                                    options: f.options,
                                },
                            ),
                            _ => None,
                        },
                        _ => None,
                    }
                } else if m == m_join() {
                    match (f.correlation_id, f.type_, f.id) {
                        (Some(craw), Some(traw), Some(iraw)) => match (
                            str_field(craw),
                            str_field(traw),
                            str_field(iraw),
                        ) {
                            (Some(c), Some(t), Some(i)) => Some(
                                InputMessageView::Join { correlation_id: c, type_: t, id: i },
                            ),
                            _ => None,
                        },
                        _ => None,
                    }
                } else if m == m_action() {
                    match (f.type_, f.id) {
                        (Some(traw), Some(iraw)) => match (str_field(traw), str_field(iraw)) {
                            (Some(t), Some(i)) => Some(
                                InputMessageView::Action {
                                    type_: t,
                                    id: i,
                                    data: match f.data {
                                        Some(d) => d,
                                        None => Seq::empty(),
                                    },
                                },
                            ),
                            _ => None,
                        },
                        _ => None,
                    }
                } else {
                    None
                }
            },
        },
    }
}

pub open spec fn output_from_fields(f: FieldsView) -> Option<OutputMessageView> {
    match f.method {
        None => None,
        Some(mraw) => match str_field(mraw) {
            None => None,
            Some(m) => {
                if m == m_connect() || m == m_create() || m == m_join() {
                    match (f.correlation_id, f.success) {
                        (Some(craw), Some(sraw)) => match (str_field(craw), bool_field(sraw)) {
                            (Some(c), Some(b)) => {
                                if m == m_connect() {
                                    Some(
                                        OutputMessageView::Connect {
                                            correlation_id: c,
                                            success: b,
                                        },
                                    )
                                } else if m == m_create() {
                                    Some(
                                        OutputMessageView::Create { correlation_id: c, success: b },
                                    )
                                } else {
                                    Some(OutputMessageView::Join { correlation_id: c, success: b })
                                }
                            },
                            _ => None,
                        },
                        _ => None,
                    }
                } else if m == m_diff() {
                    match (f.type_, f.id, f.finished) {
                        (Some(traw), Some(iraw), Some(fraw)) => match (
                            str_field(traw),
                            str_field(iraw),
                            bool_field(fraw),
                        ) {
                            (Some(t), Some(i), Some(fin)) => Some(
                                OutputMessageView::Diff {
                                    type_: t,
                                    id: i,
                                    finished: fin,
                                    data: match f.data {
                                        Some(d) => d,
                                        None => Seq::empty(),
                                    },
                                },
                            ),
                            _ => None,
                        },
                        _ => None,
                    }
                } else if m == m_generic_error() {
                    match f.description {
                        Some(draw) => match str_field(draw) {
                            Some(d) => Some(OutputMessageView::GenericError { description: d }),
                            None => None,
                        },
                        None => None,
                    }
                } else {
                    None
                }
            },
        },
    }
}

pub open spec fn decode_input_view(s: Seq<u8>) -> Option<InputMessageView> {
    match decode_fields(s) {
        None => None,
        Some(f) => input_from_fields(f),
    }
}

pub open spec fn decode_output_view(s: Seq<u8>) -> Option<OutputMessageView> {
    match decode_fields(s) {
        None => None,
        Some(f) => output_from_fields(f),
    }
}

// ---------------------------------------------------------------------------
// Executable decoding
// ---------------------------------------------------------------------------

fn bytes_eq(a: &[u8], b: &[u8]) -> (r: bool)
    ensures
        r == (a@ == b@),
{
    if a.len() != b.len() {
        assert(a@ != b@);
        return false;
    }
    let n = a.len();
    let mut i: usize = 0;
    while i < n
        invariant
            i <= n,
            n == a@.len() && n == b@.len(),
            forall|j: int| 0 <= j && j < i ==> a@[j] == b@[j],
        decreases n - i,
    {
        if a[i] != b[i] {
            return false;
        }
        i = i + 1;
    }
    assert(a@ =~= b@);
    true
}

fn copy_range(s: &[u8], a: usize, b: usize) -> (r: Vec<u8>)
    requires
        a <= b && b <= s@.len(),
    ensures
        r@ == s@.subrange(a as int, b as int),
{
    let mut r: Vec<u8> = Vec::new();
    let mut i: usize = a;
    while i < b
        invariant
            a <= i && i <= b && b <= s@.len(),
            r@ == s@.subrange(a as int, i as int),
        decreases b - i,
    {
        r.push(s[i]);
        assert(s@.subrange(a as int, i + 1 as int) =~= s@.subrange(a as int, i as int).push(
            s@[i as int],
        ));
        i = i + 1;
    }
    r
}

fn k_method() -> (r: Vec<u8>)
    ensures
        r@ == key_method(),
{
    let r = vec!['m' as u8, 'e' as u8, 't' as u8, 'h' as u8, 'o' as u8, 'd' as u8];
    proof {
        assert(r@ =~= key_method());
    }
    r
}

fn k_correlation_id() -> (r: Vec<u8>)
    ensures
        r@ == key_correlation_id(),
{
    let r = vec![
        'c' as u8, 'o' as u8, 'r' as u8, 'r' as u8, 'e' as u8, 'l' as u8, 'a' as u8, 't' as u8,
        'i' as u8, 'o' as u8, 'n' as u8, '_' as u8, 'i' as u8, 'd' as u8,
    ];
    proof {
        assert(r@ =~= key_correlation_id());
    }
    r
}

fn k_p_id() -> (r: Vec<u8>)
    ensures
        r@ == key_p_id(),
{
    let r = vec!['p' as u8, '_' as u8, 'i' as u8, 'd' as u8];
    proof {
        assert(r@ =~= key_p_id());
    }
    r
}

fn k_type() -> (r: Vec<u8>)
    ensures
        r@ == key_type(),
{
    let r = vec!['t' as u8, 'y' as u8, 'p' as u8, 'e' as u8];
    proof {
        assert(r@ =~= key_type());
    }
    r
}

fn k_id() -> (r: Vec<u8>)
    ensures
        r@ == key_id(),
{
    let r = vec!['i' as u8, 'd' as u8];
    proof {
        assert(r@ =~= key_id());
    }
    r
}

fn k_options() -> (r: Vec<u8>)
    ensures
        r@ == key_options(),
{
    let r = vec!['o' as u8, 'p' as u8, 't' as u8, 'i' as u8, 'o' as u8, 'n' as u8, 's' as u8];
    proof {
        assert(r@ =~= key_options());
    }
    r
}

fn k_data() -> (r: Vec<u8>)
    ensures
        r@ == key_data(),
{
    let r = vec!['d' as u8, 'a' as u8, 't' as u8, 'a' as u8];
    proof {
        assert(r@ =~= key_data());
    }
    r
}

fn k_success() -> (r: Vec<u8>)
    ensures
        r@ == key_success(),
{
    let r = vec!['s' as u8, 'u' as u8, 'c' as u8, 'c' as u8, 'e' as u8, 's' as u8, 's' as u8];
    proof {
        assert(r@ =~= key_success());
    }
    r
}

fn k_finished() -> (r: Vec<u8>)
    ensures
        r@ == key_finished(),
{
    let r = vec![
        'f' as u8, 'i' as u8, 'n' as u8, 'i' as u8, 's' as u8, 'h' as u8, 'e' as u8, 'd' as u8,
    ];
    proof {
        assert(r@ =~= key_finished());
    }
    r
}

fn k_description() -> (r: Vec<u8>)
    ensures
        r@ == key_description(),
{
    let r = vec![
        'd' as u8, 'e' as u8, 's' as u8, 'c' as u8, 'r' as u8, 'i' as u8, 'p' as u8, 't' as u8,
        'i' as u8, 'o' as u8, 'n' as u8,
    ];
    proof {
        assert(r@ =~= key_description());
    }
    r
}

fn k_m_connect() -> (r: Vec<u8>)
    ensures
        r@ == m_connect(),
{
    let r = vec!['c' as u8, 'o' as u8, 'n' as u8, 'n' as u8, 'e' as u8, 'c' as u8, 't' as u8];
    proof {
        assert(r@ =~= m_connect());
    }
    r
}

fn k_m_create() -> (r: Vec<u8>)
    ensures
        r@ == m_create(),
{
    let r = vec!['c' as u8, 'r' as u8, 'e' as u8, 'a' as u8, 't' as u8, 'e' as u8];
    proof {
        assert(r@ =~= m_create());
    }
    r
}

fn k_m_join() -> (r: Vec<u8>)
    ensures
        r@ == m_join(),
{
    let r = vec!['j' as u8, 'o' as u8, 'i' as u8, 'n' as u8];
    proof {
        assert(r@ =~= m_join());
    }
    r
}

fn k_m_action() -> (r: Vec<u8>)
    ensures
        r@ == m_action(),
{
    let r = vec!['a' as u8, 'c' as u8, 't' as u8, 'i' as u8, 'o' as u8, 'n' as u8];
    proof {
        assert(r@ =~= m_action());
    }
    r
}

fn k_m_diff() -> (r: Vec<u8>)
    ensures
        r@ == m_diff(),
{
    let r = vec!['d' as u8, 'i' as u8, 'f' as u8, 'f' as u8];
    proof {
        assert(r@ =~= m_diff());
    }
    r
}

fn k_m_generic_error() -> (r: Vec<u8>)
    ensures
        r@ == m_generic_error(),
{
    let r = vec![
        'g' as u8, 'e' as u8, 'n' as u8, 'e' as u8, 'r' as u8, 'i' as u8, 'c' as u8, '_' as u8,
        'e' as u8, 'r' as u8, 'r' as u8, 'o' as u8, 'r' as u8,
    ];
    proof {
        assert(r@ =~= m_generic_error());
    }
    r
}

fn k_lit_true() -> (r: Vec<u8>)
    ensures
        r@ == lit_true(),
{
    let r = vec!['t' as u8, 'r' as u8, 'u' as u8, 'e' as u8];
    proof {
        assert(r@ =~= lit_true());
    }
    r
}

fn k_lit_false() -> (r: Vec<u8>)
    ensures
        r@ == lit_false(),
{
    let r = vec!['f' as u8, 'a' as u8, 'l' as u8, 's' as u8, 'e' as u8];
    proof {
        assert(r@ =~= lit_false());
    }
    r
}

struct RawFields {
    method: Option<Vec<u8>>,
    correlation_id: Option<Vec<u8>>,
    p_id: Option<Vec<u8>>,
    type_: Option<Vec<u8>>,
    id: Option<Vec<u8>>,
    options: Option<Vec<u8>>,
    data: Option<Vec<u8>>,
    success: Option<Vec<u8>>,
    finished: Option<Vec<u8>>,
    description: Option<Vec<u8>>,
}

spec fn opt_view(o: Option<Vec<u8>>) -> Option<Seq<u8>> {
    match o {
        Some(v) => Some(v@),
        None => None,
    }
}

impl View for RawFields {
    type V = FieldsView;

    closed spec fn view(&self) -> FieldsView {
        FieldsView {
            method: opt_view(self.method),
            correlation_id: opt_view(self.correlation_id),
            p_id: opt_view(self.p_id),
            type_: opt_view(self.type_),
            id: opt_view(self.id),
            options: opt_view(self.options),
            data: opt_view(self.data),
            success: opt_view(self.success),
            finished: opt_view(self.finished),
            description: opt_view(self.description),
        }
    }
}

fn empty_raw_fields() -> (r: RawFields)
    ensures
        r@ == empty_fields(),
{
    RawFields {
        method: None,
        correlation_id: None,
        p_id: None,
        type_: None,
        id: None,
        options: None,
        data: None,
        success: None,
        finished: None,
        description: None,
    }
}

fn exec_set_field(f: RawFields, k: &Vec<u8>, raw: Vec<u8>) -> (r: RawFields)
    ensures
        r@ == set_field(f@, k@, raw@),
{
    if bytes_eq(k.as_slice(), k_method().as_slice()) {
        RawFields { method: Some(raw), ..f }
    } else if bytes_eq(k.as_slice(), k_correlation_id().as_slice()) {
        RawFields { correlation_id: Some(raw), ..f }
    } else if bytes_eq(k.as_slice(), k_p_id().as_slice()) {
        RawFields { p_id: Some(raw), ..f }
    } else if bytes_eq(k.as_slice(), k_type().as_slice()) {
        RawFields { type_: Some(raw), ..f }
    } else if bytes_eq(k.as_slice(), k_id().as_slice()) {
        RawFields { id: Some(raw), ..f }
    } else if bytes_eq(k.as_slice(), k_options().as_slice()) {
        RawFields { options: Some(raw), ..f }
    } else if bytes_eq(k.as_slice(), k_data().as_slice()) {
        RawFields { data: Some(raw), ..f }
    } else if bytes_eq(k.as_slice(), k_success().as_slice()) {
        RawFields { success: Some(raw), ..f }
    } else if bytes_eq(k.as_slice(), k_finished().as_slice()) {
        RawFields { finished: Some(raw), ..f }
    } else if bytes_eq(k.as_slice(), k_description().as_slice()) {
        RawFields { description: Some(raw), ..f }
    } else {
        f
    }
}

fn exec_member_loop(s: &[u8], p: usize, f: RawFields) -> (r: Option<RawFields>)
    requires
        p <= s@.len(),
    ensures
        match r {
            Some(f2) => member_loop(s@, p as int, f@) == Some(f2@),
            None => member_loop(s@, p as int, f@) is None,
        },
    decreases s@.len() - p,
{
    let (k, kend) = match exec_parse_string(s, p) {
        None => {
            return None;
        },
        Some(r) => r,
    };
    let c = exec_skip_ws(s, kend);
    if c >= s.len() || s[c] != COLON {
        return None;
    }
    let v = exec_skip_ws(s, c + 1);
    let vend = match exec_scan_value(s, v) {
        None => {
            return None;
        },
        Some(e) => e,
    };
    let raw = copy_range(s, v, vend);
    let f2 = exec_set_field(f, &k, raw);
    let t = exec_skip_ws(s, vend);
    if t >= s.len() {
        None
    } else if s[t] == RBRACE {
        Some(f2)
    } else if s[t] == COMMA {
        let n = exec_skip_ws(s, t + 1);
        if n <= p {
            None
        } else {
            exec_member_loop(s, n, f2)
        }
    } else {
        None
    }
}

fn exec_decode_fields(s: &[u8]) -> (r: Option<RawFields>)
    ensures
        match r {
            Some(f) => decode_fields(s@) == Some(f@),
            None => decode_fields(s@) is None,
        },
{
    let p0 = exec_skip_ws(s, 0);
    if p0 >= s.len() || s[p0] != LBRACE {
        return None;
    }
    let p1 = exec_skip_ws(s, p0 + 1);
    if p1 >= s.len() {
        None
    } else if s[p1] == RBRACE {
        Some(empty_raw_fields())
    } else {
        exec_member_loop(s, p1, empty_raw_fields())
    }
}

fn exec_str_field(v: &Vec<u8>) -> (r: Option<Vec<u8>>)
    ensures
        match r {
            Some(x) => str_field(v@) == Some(x@),
            None => str_field(v@) is None,
        },
{
    match exec_parse_string(v.as_slice(), 0) {
        Some((x, e)) => {
            if e == v.len() {
                Some(x)
            } else {
                None
            }
        },
        None => None,
    }
}

fn exec_u64_field(v: &Vec<u8>) -> (r: Option<u64>)
    ensures
        r == u64_field(v@),
{
    match exec_parse_u64(v.as_slice(), 0) {
        Some((n, e)) => {
            if e == v.len() {
                Some(n)
            } else {
                None
            }
        },
        None => None,
    }
}

fn exec_bool_field(v: &Vec<u8>) -> (r: Option<bool>)
    ensures
        r == bool_field(v@),
{
    if bytes_eq(v.as_slice(), k_lit_true().as_slice()) {
        Some(true)
    } else if bytes_eq(v.as_slice(), k_lit_false().as_slice()) {
        Some(false)
    } else {
        None
    }
}

impl InputMessage {
    /// Decodes the flat JSON envelope of a client-to-server message.
    pub fn decode(buf: &[u8]) -> (r: Option<InputMessage>)
        ensures
            match r {
                Some(m) => decode_input_view(buf@) == Some(m@),
                None => decode_input_view(buf@) is None,
            },
    {
        let f = match exec_decode_fields(buf) {
            None => {
                return None;
            },
            Some(f) => f,
        };
        let mraw = match f.method {
            None => {
                return None;
            },
            Some(ref mraw) => mraw,
        };
        let m = match exec_str_field(mraw) {
            None => {
                return None;
            },
            Some(m) => m,
        };
        if bytes_eq(m.as_slice(), k_m_connect().as_slice()) {
            match (&f.correlation_id, &f.p_id) {
                (Some(craw), Some(praw)) => match (exec_str_field(craw), exec_u64_field(praw)) {
                    (Some(c), Some(n)) => Some(InputMessage::Connect { correlation_id: c, id: n }),
                    _ => None,
                },
                _ => None,
            }
        } else if bytes_eq(m.as_slice(), k_m_create().as_slice()) {
            match (&f.correlation_id, &f.type_, &f.id) {
                (Some(craw), Some(traw), Some(iraw)) => match (
                    exec_str_field(craw),
                    exec_str_field(traw),
                    exec_str_field(iraw),
                ) {
                    (Some(c), Some(t), Some(i)) => Some(
                        InputMessage::Create {
                            correlation_id: c,
                            type_: t,
                            id: i,
                            options: f.options,
                        },
                    ),
                    _ => None,
                },
                _ => None,
            }
        } else if bytes_eq(m.as_slice(), k_m_join().as_slice()) {
            match (&f.correlation_id, &f.type_, &f.id) {
                (Some(craw), Some(traw), Some(iraw)) => match (
                    exec_str_field(craw),
                    exec_str_field(traw),
                    exec_str_field(iraw),
                ) {
                    (Some(c), Some(t), Some(i)) => Some(
                        InputMessage::Join { correlation_id: c, type_: t, id: i },
                    ),
                    _ => None,
                },
                _ => None,
            }
        } else if bytes_eq(m.as_slice(), k_m_action().as_slice()) {
            match (&f.type_, &f.id) {
                (Some(traw), Some(iraw)) => match (exec_str_field(traw), exec_str_field(iraw)) {
                    (Some(t), Some(i)) => Some(
                        InputMessage::Action {
                            type_: t,
                            id: i,
                            data: match f.data {
                                Some(d) => d,
                                None => Vec::new(),
                            },
                        },
                    ),
                    _ => None,
                },
                _ => None,
            }
        } else {
            None
        }
    }
}

impl OutputMessage {
    /// Decodes the flat JSON envelope of a server-to-client message.
    pub fn decode(buf: &[u8]) -> (r: Option<OutputMessage>)
        ensures
            match r {
                Some(m) => decode_output_view(buf@) == Some(m@),
                None => decode_output_view(buf@) is None,
            },
    {
        let f = match exec_decode_fields(buf) {
            None => {
                return None;
            },
            Some(f) => f,
        };
        let mraw = match f.method {
            None => {
                return None;
            },
            Some(ref mraw) => mraw,
        };
        let m = match exec_str_field(mraw) {
            None => {
                return None;
            },
            Some(m) => m,
        };
        let is_connect = bytes_eq(m.as_slice(), k_m_connect().as_slice());
        let is_create = bytes_eq(m.as_slice(), k_m_create().as_slice());
        let is_join = bytes_eq(m.as_slice(), k_m_join().as_slice());
        if is_connect || is_create || is_join {
            match (&f.correlation_id, &f.success) {
                (Some(craw), Some(sraw)) => match (exec_str_field(craw), exec_bool_field(sraw)) {
                    (Some(c), Some(b)) => {
                        if is_connect {
                            Some(OutputMessage::Connect { correlation_id: c, success: b })
                        } else if is_create {
                            Some(OutputMessage::Create { correlation_id: c, success: b })
                        } else {
                            Some(OutputMessage::Join { correlation_id: c, success: b })
                        }
                    },
                    _ => None,
                },
                _ => None,
            }
        } else if bytes_eq(m.as_slice(), k_m_diff().as_slice()) {
            match (&f.type_, &f.id, &f.finished) {
                (Some(traw), Some(iraw), Some(fraw)) => match (
                    exec_str_field(traw),
                    exec_str_field(iraw),
                    exec_bool_field(fraw),
                ) {
                    (Some(t), Some(i), Some(fin)) => Some(
                        OutputMessage::Diff {
                            type_: t,
                            id: i,
                            finished: fin,
                            data: match f.data {
                                Some(d) => d,
                                None => Vec::new(),
                            },
                        },
                    ),
                    _ => None,
                },
                _ => None,
            }
        } else if bytes_eq(m.as_slice(), k_m_generic_error().as_slice()) {
            match &f.description {
                Some(draw) => match exec_str_field(draw) {
                    Some(d) => Some(OutputMessage::GenericError { description: d }),
                    None => None,
                },
                None => None,
            }
        } else {
            None
        }
    }
}

// ---------------------------------------------------------------------------
// Executable encoding
// ---------------------------------------------------------------------------

/// Appends `"key":"escaped text"`.
fn push_member_text(out: &mut Vec<u8>, key: &Vec<u8>, text: &Vec<u8>)
    ensures
        final(out)@ == old(out)@ + member(key@, qstr(text@)),
{
    out.push(QUOTE);
    out.append(&mut key.clone());
    out.push(QUOTE);
    out.push(COLON);
    out.push(QUOTE);
    push_escaped(out, text.as_slice());
    out.push(QUOTE);
    assert(out@ =~= old(out)@ + member(key@, qstr(text@)));
}

/// Appends `"key":` followed by the raw value bytes.
fn push_member_raw(out: &mut Vec<u8>, key: &Vec<u8>, raw: &Vec<u8>)
    ensures
        final(out)@ == old(out)@ + member(key@, raw@),
{
    out.push(QUOTE);
    out.append(&mut key.clone());
    out.push(QUOTE);
    out.push(COLON);
    out.append(&mut raw.clone());
    assert(out@ =~= old(out)@ + member(key@, raw@));
}

/// Appends `"key":` followed by a decimal number.
fn push_member_u64(out: &mut Vec<u8>, key: &Vec<u8>, n: u64)
    ensures
        final(out)@ == old(out)@ + member(key@, u64_digits(n)),
{
    out.push(QUOTE);
    out.append(&mut key.clone());
    out.push(QUOTE);
    out.push(COLON);
    push_u64(out, n);
    assert(out@ =~= old(out)@ + member(key@, u64_digits(n)));
}

/// Appends `"key":` followed by a boolean literal.
fn push_member_bool(out: &mut Vec<u8>, key: &Vec<u8>, b: bool)
    ensures
        final(out)@ == old(out)@ + member(key@, lit_bool(b)),
{
    out.push(QUOTE);
    out.append(&mut key.clone());
    out.push(QUOTE);
    out.push(COLON);
    if b {
        out.append(&mut k_lit_true());
    } else {
        out.append(&mut k_lit_false());
    }
    assert(out@ =~= old(out)@ + member(key@, lit_bool(b)));
}

impl InputMessage {
    /// Encodes the flat JSON envelope of a client-to-server message.
    pub fn encode(&self) -> (r: Vec<u8>)
        ensures
            r@ == encode_input_view(self@),
    {
        let mut out: Vec<u8> = Vec::new();
        out.push(LBRACE);
        match self {
            InputMessage::Connect { correlation_id, id } => {
                push_member_text(&mut out, &k_method(), &k_m_connect());
                out.push(COMMA);
                push_member_text(&mut out, &k_correlation_id(), correlation_id);
                out.push(COMMA);
                push_member_u64(&mut out, &k_p_id(), *id);
            },
            InputMessage::Create { correlation_id, type_, id, options } => {
                push_member_text(&mut out, &k_method(), &k_m_create());
                out.push(COMMA);
                push_member_text(&mut out, &k_correlation_id(), correlation_id);
                out.push(COMMA);
                push_member_text(&mut out, &k_type(), type_);
                out.push(COMMA);
                push_member_text(&mut out, &k_id(), id);
                match options {
                    Some(o) => {
                        out.push(COMMA);
                        push_member_raw(&mut out, &k_options(), o);
                    },
                    None => {},
                }
            },
            InputMessage::Join { correlation_id, type_, id } => {
                push_member_text(&mut out, &k_method(), &k_m_join());
                out.push(COMMA);
                push_member_text(&mut out, &k_correlation_id(), correlation_id);
                out.push(COMMA);
                push_member_text(&mut out, &k_type(), type_);
                out.push(COMMA);
                push_member_text(&mut out, &k_id(), id);
            },
            InputMessage::Action { type_, id, data } => {
                push_member_text(&mut out, &k_method(), &k_m_action());
                out.push(COMMA);
                push_member_text(&mut out, &k_type(), type_);
                out.push(COMMA);
                push_member_text(&mut out, &k_id(), id);
                if data.len() > 0 {
                    out.push(COMMA);
                    push_member_raw(&mut out, &k_data(), data);
                }
            },
        }
        out.push(RBRACE);
        proof {
            assert(out@ =~= encode_input_view(self@));
        }
        out
    }
}

impl OutputMessage {
    /// Encodes the flat JSON envelope of a server-to-client message.
    pub fn encode(&self) -> (r: Vec<u8>)
        ensures
            r@ == encode_output_view(self@),
    {
        let mut out: Vec<u8> = Vec::new();
        out.push(LBRACE);
        match self {
            OutputMessage::Connect { correlation_id, success } => {
                push_member_text(&mut out, &k_method(), &k_m_connect());
                out.push(COMMA);
                push_member_text(&mut out, &k_correlation_id(), correlation_id);
                out.push(COMMA);
                push_member_bool(&mut out, &k_success(), *success);
            },
            OutputMessage::Create { correlation_id, success } => {
                push_member_text(&mut out, &k_method(), &k_m_create());
                out.push(COMMA);
                push_member_text(&mut out, &k_correlation_id(), correlation_id);
                out.push(COMMA);
                push_member_bool(&mut out, &k_success(), *success);
            },
            OutputMessage::Join { correlation_id, success } => {
                push_member_text(&mut out, &k_method(), &k_m_join());
                out.push(COMMA);
                push_member_text(&mut out, &k_correlation_id(), correlation_id);
                out.push(COMMA);
                push_member_bool(&mut out, &k_success(), *success);
            },
            OutputMessage::Diff { type_, id, finished, data } => {
                push_member_text(&mut out, &k_method(), &k_m_diff());
                out.push(COMMA);
                push_member_text(&mut out, &k_type(), type_);
                out.push(COMMA);
                push_member_text(&mut out, &k_id(), id);
                out.push(COMMA);
                push_member_bool(&mut out, &k_finished(), *finished);
                if data.len() > 0 {
                    out.push(COMMA);
                    push_member_raw(&mut out, &k_data(), data);
                }
            },
            OutputMessage::GenericError { description } => {
                push_member_text(&mut out, &k_method(), &k_m_generic_error());
                out.push(COMMA);
                push_member_text(&mut out, &k_description(), description);
            },
        }
        out.push(RBRACE);
        proof {
            assert(out@ =~= encode_output_view(self@));
        }
        out
    }
}

} // verus!
