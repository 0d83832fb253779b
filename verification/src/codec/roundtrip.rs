//! Decoding an envelope the encoder wrote gives back the same message.

use vstd::prelude::*;

use crate::codec::{
    bool_field, decode_fields, decode_input_view, decode_output_view, empty_fields,
    encode_input_view, encode_output_view, input_from_fields, key_correlation_id, key_data,
    key_description, key_finished, key_id, key_method, key_options, key_p_id, key_success,
    key_type, lit_bool, m_action, m_connect, m_create, m_diff, m_generic_error, m_join, member,
    member_loop, output_from_fields, qstr, set_field, str_field, u64_field, FieldsView,
};
use crate::json::lemmas::{
    bytes_match, lemma_parse_string_escape, lemma_parse_u64_digits, lemma_scan_number_run,
    lemma_scan_string_escape, lemma_scan_value_frame, lemma_u64_digits_props,
};
use crate::json::{
    escape, is_digit, is_number_byte, is_ws, lit_false, lit_true, match_at, no_ctrl, parse_string,
    parse_string_body, scan_number, scan_value, skip_ws, u64_digits, BACKSLASH, COLON, COMMA,
    LBRACE, LBRACKET, QUOTE, RBRACE,
};
use crate::json::lemmas::lemma_escape_plain;
use crate::message::{input_wf, output_wf, raw_ok, InputMessageView, OutputMessageView};

verus! {

/// Key text as it may stand unescaped and unquoted in an envelope.
pub open spec fn key_plain(k: Seq<u8>) -> bool {
    forall|i: int|
        0 <= i && i < k.len() ==> #[trigger] k[i] >= 0x20 && k[i] != QUOTE && k[i] != BACKSLASH
}

/// A scannable value starts with a value byte: never whitespace.
proof fn lemma_value_start(v: Seq<u8>)
    requires
        raw_ok(v),
    ensures
        v.len() > 0,
        !is_ws(v[0]),
{
    assert(scan_value(v, 0) == Some(v.len() as int));
}

/// A quoted, escaped string is one complete JSON value.
proof fn lemma_qstr_raw_ok(x: Seq<u8>)
    requires
        no_ctrl(x),
    ensures
        raw_ok(qstr(x)),
{
    let s = qstr(x);
    assert(s[0] == QUOTE);
    assert(s.len() == escape(x).len() + 2);
    assert(s.subrange(1, 1 + escape(x).len() as int) =~= escape(x));
    assert(s[1 + escape(x).len() as int] == QUOTE);
    lemma_scan_string_escape(s, 1, x);
}

/// A quoted, escaped string reads back as the original text.
proof fn lemma_qstr_parses(x: Seq<u8>)
    requires
        no_ctrl(x),
    ensures
        str_field(qstr(x)) == Some(x),
{
    let s = qstr(x);
    assert(s[0] == QUOTE);
    assert(s.subrange(1, 1 + escape(x).len() as int) =~= escape(x));
    assert(s[1 + escape(x).len() as int] == QUOTE);
    lemma_parse_string_escape(s, 1, x, Seq::empty());
    assert(Seq::empty() + x =~= x);
}

/// A decimal number is one complete JSON value.
proof fn lemma_digits_raw_ok(n: u64)
    ensures
        raw_ok(u64_digits(n)),
        u64_field(u64_digits(n)) == Some(n),
{
    let s = u64_digits(n);
    lemma_u64_digits_props(n);
    assert(is_digit(s[0]));
    assert(forall|i: int| 1 <= i && i < s.len() ==> is_number_byte(#[trigger] s[i]));
    lemma_scan_number_run(s, 1, s.len() as int);
    assert(scan_value(s, 0) == Some(s.len() as int));
    lemma_parse_u64_digits(n);
}

/// A boolean literal is one complete JSON value and reads back as itself.
proof fn lemma_bool_raw_ok(b: bool)
    ensures
        raw_ok(lit_bool(b)),
        bool_field(lit_bool(b)) == Some(b),
{
    let s = lit_bool(b);
    if b {
        assert(s[0] == 't' as u8);
        assert(s.subrange(0, 4) =~= lit_true());
        assert(match_at(s, 0, lit_true()));
    } else {
        assert(s[0] == 'f' as u8);
        assert(s.subrange(0, 5) =~= lit_false());
        assert(match_at(s, 0, lit_false()));
    }
    assert(lit_true().len() != lit_false().len());
}

/// Walking one member the encoder wrote: the key is recorded with the raw
/// value span, and the walk moves past the separator.
proof fn lemma_member_step(s: Seq<u8>, p: int, key: Seq<u8>, val: Seq<u8>, f: FieldsView)
    requires
        0 <= p,
        key_plain(key),
        p + member(key, val).len() < s.len(),
        s.subrange(p, p + member(key, val).len() as int) == member(key, val),
        raw_ok(val),
        ({
            let sep = p + member(key, val).len();
            s[sep] == RBRACE || (s[sep] == COMMA && sep + 1 < s.len() && s[sep + 1] == QUOTE)
        }),
    ensures
        ({
            let sep = p + member(key, val).len();
            if s[sep] == RBRACE {
                member_loop(s, p, f) == Some(set_field(f, key, val))
            } else {
                member_loop(s, p, f) == member_loop(s, sep + 1, set_field(f, key, val))
            }
        }),
{
    let mem = member(key, val);
    let klen = key.len() as int;
    let vlen = val.len() as int;
    let sep = p + mem.len();
    assert(mem.len() == klen + vlen + 3);
    assert forall|i: int| 0 <= i && i < mem.len() implies s[p + i] == #[trigger] mem[i] by {
        assert(s.subrange(p, p + mem.len() as int)[i] == s[p + i]);
    }
    // the shape of the member
    assert(mem[0] == QUOTE);
    assert(forall|i: int| 0 <= i && i < klen ==> mem[1 + i] == #[trigger] key[i]);
    assert(mem[1 + klen] == QUOTE);
    assert(mem[2 + klen] == COLON);
    assert(forall|j: int| 0 <= j && j < vlen ==> mem[3 + klen + j] == #[trigger] val[j]);

    // key: parse_string finds exactly the key text
    assert(s[p + 0] == QUOTE);
    lemma_escape_plain(key);
    assert(s.subrange(p + 1, p + 1 + klen) =~= escape(key)) by {
        assert forall|i: int| 0 <= i && i < klen implies s.subrange(p + 1, p + 1 + klen)[i]
            == key[i] by {
            assert(s[p + (1 + i)] == mem[1 + i]);
        }
    }
    assert(s[p + (1 + klen)] == QUOTE);
    lemma_parse_string_escape(s, p + 1, key, Seq::empty());
    assert(Seq::empty() + key =~= key);
    let kend = p + 1 + klen + 1;
    assert(parse_string(s, p) == Some((key, kend)));

    // colon, with no whitespace around it
    assert(s[p + (2 + klen)] == COLON);
    assert(!is_ws(COLON));
    assert(skip_ws(s, kend) == kend);
    let c = kend;

    // the value span
    lemma_value_start(val);
    assert(s[p + (3 + klen)] == val[0]);
    assert(skip_ws(s, c + 1) == c + 1);
    let v = c + 1;
    assert(v == p + 3 + klen);
    assert(bytes_match(val, 0, s, v, vlen)) by {
        assert forall|i: int| 0 <= i && i < vlen implies val[i] == #[trigger] s[v + i] by {
            assert(s[p + (3 + klen + i)] == mem[3 + klen + i]);
        }
    }
    assert(v + vlen == sep);
    assert(!is_number_byte(s[sep]));
    lemma_scan_value_frame(val, 0, vlen, s, v);
    assert(scan_value(s, v) == Some(sep));
    assert(s.subrange(v, sep) =~= val) by {
        assert forall|i: int| 0 <= i && i < vlen implies s.subrange(v, sep)[i] == val[i] by {
            assert(s[p + (3 + klen + i)] == mem[3 + klen + i]);
        }
    }

    // the separator
    assert(!is_ws(s[sep]));
    assert(skip_ws(s, sep) == sep);
    if s[sep] == RBRACE {
    } else {
        assert(!is_ws(s[sep + 1]));
        assert(skip_ws(s, sep + 1) == sep + 1);
    }
}

/// The fixed names the encoder writes are plain text.
proof fn lemma_names_plain()
    ensures
        key_plain(key_method()),
        key_plain(key_correlation_id()),
        key_plain(key_p_id()),
        key_plain(key_type()),
        key_plain(key_id()),
        key_plain(key_options()),
        key_plain(key_data()),
        key_plain(key_success()),
        key_plain(key_finished()),
        key_plain(key_description()),
        no_ctrl(m_connect()),
        no_ctrl(m_create()),
        no_ctrl(m_join()),
        no_ctrl(m_action()),
        no_ctrl(m_diff()),
        no_ctrl(m_generic_error()),
{
}

#[verifier::rlimit(50)]
proof fn lemma_rt_connect(m: InputMessageView)
    requires
        input_wf(m),
        m is Connect,
    ensures
        decode_input_view(encode_input_view(m)) == Some(m),
{
    lemma_names_plain();
    let s = encode_input_view(m);
    let f0 = empty_fields();
    match m {
        InputMessageView::Connect { correlation_id, id } => {
            let c = correlation_id;
            let mem1 = member(key_method(), qstr(m_connect()));
            let mem2 = member(key_correlation_id(), qstr(c));
            let mem3 = member(key_p_id(), u64_digits(id));
            let p1: int = 1;
            let p2 = p1 + mem1.len() + 1;
            let p3 = p2 + mem2.len() + 1;
            let e = p3 + mem3.len();
            assert(s.len() == e + 1);
            lemma_qstr_raw_ok(m_connect());
            lemma_qstr_parses(m_connect());
            lemma_qstr_raw_ok(c);
            lemma_qstr_parses(c);
            lemma_digits_raw_ok(id);
            assert(s[0] == LBRACE && s[p1] == QUOTE && s[e] == RBRACE);
            assert(s[p2 - 1] == COMMA && s[p2] == QUOTE);
            assert(s[p3 - 1] == COMMA && s[p3] == QUOTE);
            assert(s.subrange(p1, p1 + mem1.len() as int) =~= mem1);
            assert(s.subrange(p2, p2 + mem2.len() as int) =~= mem2);
            assert(s.subrange(p3, p3 + mem3.len() as int) =~= mem3);
            lemma_member_step(s, p1, key_method(), qstr(m_connect()), f0);
            let f1 = set_field(f0, key_method(), qstr(m_connect()));
            lemma_member_step(s, p2, key_correlation_id(), qstr(c), f1);
            let f2 = set_field(f1, key_correlation_id(), qstr(c));
            lemma_member_step(s, p3, key_p_id(), u64_digits(id), f2);
            let f3 = set_field(f2, key_p_id(), u64_digits(id));
            assert(member_loop(s, p1, f0) == Some(f3));
            assert(skip_ws(s, 0) == 0 && skip_ws(s, 1) == 1);
            assert(decode_fields(s) == Some(f3));
            assert(f3.method == Some(qstr(m_connect())));
            assert(f3.correlation_id == Some(qstr(c)));
            assert(f3.p_id == Some(u64_digits(id)));
            assert(input_from_fields(f3) == Some(m));
        },
        _ => {},
    }
}

#[verifier::rlimit(100)]
proof fn lemma_rt_create_none(c: Seq<u8>, type_: Seq<u8>, id: Seq<u8>)
    requires
        no_ctrl(c),
        no_ctrl(type_),
        no_ctrl(id),
    ensures
        ({
            let m = InputMessageView::Create { correlation_id: c, type_, id, options: None };
            decode_input_view(encode_input_view(m)) == Some(m)
        }),
{
    let m = InputMessageView::Create { correlation_id: c, type_, id, options: None };
    lemma_names_plain();
    let s = encode_input_view(m);
    let f0 = empty_fields();
    let mem1 = member(key_method(), qstr(m_create()));
    let mem2 = member(key_correlation_id(), qstr(c));
    let mem3 = member(key_type(), qstr(type_));
    let mem4 = member(key_id(), qstr(id));
    let p1: int = 1;
    let p2 = p1 + mem1.len() + 1;
    let p3 = p2 + mem2.len() + 1;
    let p4 = p3 + mem3.len() + 1;
    lemma_qstr_raw_ok(m_create());
    lemma_qstr_parses(m_create());
    lemma_qstr_raw_ok(c);
    lemma_qstr_parses(c);
    lemma_qstr_raw_ok(type_);
    lemma_qstr_parses(type_);
    lemma_qstr_raw_ok(id);
    lemma_qstr_parses(id);
    assert(s[0] == LBRACE && s[p1] == QUOTE);
    assert(s[p2 - 1] == COMMA && s[p2] == QUOTE);
    assert(s[p3 - 1] == COMMA && s[p3] == QUOTE);
    assert(s[p4 - 1] == COMMA && s[p4] == QUOTE);
    assert(s.subrange(p1, p1 + mem1.len() as int) =~= mem1);
    assert(s.subrange(p2, p2 + mem2.len() as int) =~= mem2);
    assert(s.subrange(p3, p3 + mem3.len() as int) =~= mem3);
    assert(s.subrange(p4, p4 + mem4.len() as int) =~= mem4);
    lemma_member_step(s, p1, key_method(), qstr(m_create()), f0);
    let f1 = set_field(f0, key_method(), qstr(m_create()));
    lemma_member_step(s, p2, key_correlation_id(), qstr(c), f1);
    let f2 = set_field(f1, key_correlation_id(), qstr(c));
    lemma_member_step(s, p3, key_type(), qstr(type_), f2);
    let f3 = set_field(f2, key_type(), qstr(type_));
    let f4 = set_field(f3, key_id(), qstr(id));
    let e = p4 + mem4.len();
    assert(s.len() == e + 1);
    assert(s[e] == RBRACE);
    lemma_member_step(s, p4, key_id(), qstr(id), f3);
    assert(member_loop(s, p1, f0) == Some(f4));
    assert(skip_ws(s, 0) == 0 && skip_ws(s, 1) == 1);
    assert(decode_fields(s) == Some(f4));
    assert(f4.method == Some(qstr(m_create())));
    assert(f4.correlation_id == Some(qstr(c)));
    assert(f4.type_ == Some(qstr(type_)));
    assert(f4.id == Some(qstr(id)));
    assert(f4.options is None);
    assert(input_from_fields(f4) == Some(m));
}

#[verifier::rlimit(100)]
proof fn lemma_rt_create_some(c: Seq<u8>, type_: Seq<u8>, id: Seq<u8>, o: Seq<u8>)
    requires
        no_ctrl(c),
        no_ctrl(type_),
        no_ctrl(id),
        raw_ok(o),
    ensures
        ({
            let m = InputMessageView::Create { correlation_id: c, type_, id, options: Some(o) };
            decode_input_view(encode_input_view(m)) == Some(m)
        }),
{
    let m = InputMessageView::Create { correlation_id: c, type_, id, options: Some(o) };
    lemma_names_plain();
    let s = encode_input_view(m);
    let f0 = empty_fields();
    let mem1 = member(key_method(), qstr(m_create()));
    let mem2 = member(key_correlation_id(), qstr(c));
    let mem3 = member(key_type(), qstr(type_));
    let mem4 = member(key_id(), qstr(id));
    let p1: int = 1;
    let p2 = p1 + mem1.len() + 1;
    let p3 = p2 + mem2.len() + 1;
    let p4 = p3 + mem3.len() + 1;
    lemma_qstr_raw_ok(m_create());
    lemma_qstr_parses(m_create());
    lemma_qstr_raw_ok(c);
    lemma_qstr_parses(c);
    lemma_qstr_raw_ok(type_);
    lemma_qstr_parses(type_);
    lemma_qstr_raw_ok(id);
    lemma_qstr_parses(id);
    assert(s[0] == LBRACE && s[p1] == QUOTE);
    assert(s[p2 - 1] == COMMA && s[p2] == QUOTE);
    assert(s[p3 - 1] == COMMA && s[p3] == QUOTE);
    assert(s[p4 - 1] == COMMA && s[p4] == QUOTE);
    assert(s.subrange(p1, p1 + mem1.len() as int) =~= mem1);
    assert(s.subrange(p2, p2 + mem2.len() as int) =~= mem2);
    assert(s.subrange(p3, p3 + mem3.len() as int) =~= mem3);
    assert(s.subrange(p4, p4 + mem4.len() as int) =~= mem4);
    lemma_member_step(s, p1, key_method(), qstr(m_create()), f0);
    let f1 = set_field(f0, key_method(), qstr(m_create()));
    lemma_member_step(s, p2, key_correlation_id(), qstr(c), f1);
    let f2 = set_field(f1, key_correlation_id(), qstr(c));
    lemma_member_step(s, p3, key_type(), qstr(type_), f2);
    let f3 = set_field(f2, key_type(), qstr(type_));
    let f4 = set_field(f3, key_id(), qstr(id));
    let mem5 = member(key_options(), o);
    let p5 = p4 + mem4.len() + 1;
    let e = p5 + mem5.len();
    assert(s.len() == e + 1);
    assert(s[p5 - 1] == COMMA && s[p5] == QUOTE && s[e] == RBRACE);
    assert(s.subrange(p5, p5 + mem5.len() as int) =~= mem5);
    lemma_member_step(s, p4, key_id(), qstr(id), f3);
    lemma_member_step(s, p5, key_options(), o, f4);
    let f5 = set_field(f4, key_options(), o);
    assert(member_loop(s, p1, f0) == Some(f5));
    assert(skip_ws(s, 0) == 0 && skip_ws(s, 1) == 1);
    assert(decode_fields(s) == Some(f5));
    assert(f5.method == Some(qstr(m_create())));
    assert(f5.correlation_id == Some(qstr(c)));
    assert(f5.type_ == Some(qstr(type_)));
    assert(f5.id == Some(qstr(id)));
    assert(f5.options == Some(o));
    assert(input_from_fields(f5) == Some(m));
}

proof fn lemma_rt_create(m: InputMessageView)
    requires
        input_wf(m),
        m is Create,
    ensures
        decode_input_view(encode_input_view(m)) == Some(m),
{
    match m {
        InputMessageView::Create { correlation_id, type_, id, options } => {
            match options {
                None => lemma_rt_create_none(correlation_id, type_, id),
                Some(o) => lemma_rt_create_some(correlation_id, type_, id, o),
            }
        },
        _ => {},
    }
}

#[verifier::rlimit(50)]
proof fn lemma_rt_join(m: InputMessageView)
    requires
        input_wf(m),
        m is Join,
    ensures
        decode_input_view(encode_input_view(m)) == Some(m),
{
    lemma_names_plain();
    let s = encode_input_view(m);
    let f0 = empty_fields();
    match m {
        InputMessageView::Join { correlation_id, type_, id } => {
            let c = correlation_id;
            let mem1 = member(key_method(), qstr(m_join()));
            let mem2 = member(key_correlation_id(), qstr(c));
            let mem3 = member(key_type(), qstr(type_));
            let mem4 = member(key_id(), qstr(id));
            let p1: int = 1;
            let p2 = p1 + mem1.len() + 1;
            let p3 = p2 + mem2.len() + 1;
            let p4 = p3 + mem3.len() + 1;
            let e = p4 + mem4.len();
            assert(s.len() == e + 1);
            lemma_qstr_raw_ok(m_join());
            lemma_qstr_parses(m_join());
            lemma_qstr_raw_ok(c);
            lemma_qstr_parses(c);
            lemma_qstr_raw_ok(type_);
            lemma_qstr_parses(type_);
            lemma_qstr_raw_ok(id);
            lemma_qstr_parses(id);
            assert(s[0] == LBRACE && s[p1] == QUOTE && s[e] == RBRACE);
            assert(s[p2 - 1] == COMMA && s[p2] == QUOTE);
            assert(s[p3 - 1] == COMMA && s[p3] == QUOTE);
            assert(s[p4 - 1] == COMMA && s[p4] == QUOTE);
            assert(s.subrange(p1, p1 + mem1.len() as int) =~= mem1);
            assert(s.subrange(p2, p2 + mem2.len() as int) =~= mem2);
            assert(s.subrange(p3, p3 + mem3.len() as int) =~= mem3);
            assert(s.subrange(p4, p4 + mem4.len() as int) =~= mem4);
            lemma_member_step(s, p1, key_method(), qstr(m_join()), f0);
            let f1 = set_field(f0, key_method(), qstr(m_join()));
            lemma_member_step(s, p2, key_correlation_id(), qstr(c), f1);
            let f2 = set_field(f1, key_correlation_id(), qstr(c));
            lemma_member_step(s, p3, key_type(), qstr(type_), f2);
            let f3 = set_field(f2, key_type(), qstr(type_));
            lemma_member_step(s, p4, key_id(), qstr(id), f3);
            let f4 = set_field(f3, key_id(), qstr(id));
            assert(member_loop(s, p1, f0) == Some(f4));
            assert(skip_ws(s, 0) == 0 && skip_ws(s, 1) == 1);
            assert(decode_fields(s) == Some(f4));
            assert(f4.method == Some(qstr(m_join())));
            assert(m_join() != m_connect() && m_join() != m_create());
            assert(f4.correlation_id == Some(qstr(c)));
            assert(f4.type_ == Some(qstr(type_)));
            assert(f4.id == Some(qstr(id)));
            assert(input_from_fields(f4) == Some(m));
        },
        _ => {},
    }
}

#[verifier::rlimit(50)]
proof fn lemma_rt_action(m: InputMessageView)
    requires
        input_wf(m),
        m is Action,
    ensures
        decode_input_view(encode_input_view(m)) == Some(m),
{
    lemma_names_plain();
    let s = encode_input_view(m);
    let f0 = empty_fields();
    match m {
        InputMessageView::Action { type_, id, data } => {
            let mem1 = member(key_method(), qstr(m_action()));
            let mem2 = member(key_type(), qstr(type_));
            let mem3 = member(key_id(), qstr(id));
            let p1: int = 1;
            let p2 = p1 + mem1.len() + 1;
            let p3 = p2 + mem2.len() + 1;
            lemma_qstr_raw_ok(m_action());
            lemma_qstr_parses(m_action());
            lemma_qstr_raw_ok(type_);
            lemma_qstr_parses(type_);
            lemma_qstr_raw_ok(id);
            lemma_qstr_parses(id);
            assert(s[0] == LBRACE && s[p1] == QUOTE);
            assert(s[p2 - 1] == COMMA && s[p2] == QUOTE);
            assert(s[p3 - 1] == COMMA && s[p3] == QUOTE);
            assert(s.subrange(p1, p1 + mem1.len() as int) =~= mem1);
            assert(s.subrange(p2, p2 + mem2.len() as int) =~= mem2);
            assert(s.subrange(p3, p3 + mem3.len() as int) =~= mem3);
            lemma_member_step(s, p1, key_method(), qstr(m_action()), f0);
            let f1 = set_field(f0, key_method(), qstr(m_action()));
            lemma_member_step(s, p2, key_type(), qstr(type_), f1);
            let f2 = set_field(f1, key_type(), qstr(type_));
            let f3 = set_field(f2, key_id(), qstr(id));
            assert(m_action() != m_connect() && m_action() != m_create() && m_action()
                != m_join());
            if data.len() == 0 {
                let e = p3 + mem3.len();
                assert(s.len() == e + 1);
                assert(s[e] == RBRACE);
                lemma_member_step(s, p3, key_id(), qstr(id), f2);
                assert(member_loop(s, p1, f0) == Some(f3));
                assert(skip_ws(s, 0) == 0 && skip_ws(s, 1) == 1);
                assert(decode_fields(s) == Some(f3));
                assert(f3.method == Some(qstr(m_action())));
                assert(f3.type_ == Some(qstr(type_)));
                assert(f3.id == Some(qstr(id)));
                assert(f3.data is None);
                assert(data =~= Seq::<u8>::empty());
                assert(input_from_fields(f3) == Some(m));
            } else {
                let mem4 = member(key_data(), data);
                let p4 = p3 + mem3.len() + 1;
                let e = p4 + mem4.len();
                assert(s.len() == e + 1);
                assert(s[p4 - 1] == COMMA && s[p4] == QUOTE && s[e] == RBRACE);
                assert(s.subrange(p4, p4 + mem4.len() as int) =~= mem4);
                lemma_member_step(s, p3, key_id(), qstr(id), f2);
                lemma_member_step(s, p4, key_data(), data, f3);
                let f4 = set_field(f3, key_data(), data);
                assert(member_loop(s, p1, f0) == Some(f4));
                assert(skip_ws(s, 0) == 0 && skip_ws(s, 1) == 1);
                assert(decode_fields(s) == Some(f4));
                assert(f4.method == Some(qstr(m_action())));
                assert(f4.type_ == Some(qstr(type_)));
                assert(f4.id == Some(qstr(id)));
                assert(f4.data == Some(data));
                assert(input_from_fields(f4) == Some(m));
            }
        },
        _ => {},
    }
}

/// For any well-formed input envelope, decoding what the encoder wrote gives
/// back the same message.
pub proof fn lemma_input_round_trip(m: InputMessageView)
    requires
        input_wf(m),
    ensures
        decode_input_view(encode_input_view(m)) == Some(m),
{
    match m {
        InputMessageView::Connect { .. } => lemma_rt_connect(m),
        InputMessageView::Create { .. } => lemma_rt_create(m),
        InputMessageView::Join { .. } => lemma_rt_join(m),
        InputMessageView::Action { .. } => lemma_rt_action(m),
    }
}

#[verifier::rlimit(60)]
proof fn lemma_rt_out_connect(m: OutputMessageView)
    requires
        output_wf(m),
        m is Connect,
    ensures
        decode_output_view(encode_output_view(m)) == Some(m),
{
    lemma_names_plain();
    let s = encode_output_view(m);
    let f0 = empty_fields();
    match m {
        OutputMessageView::Connect { correlation_id, success } => {
            let c = correlation_id;
            let mem1 = member(key_method(), qstr(m_connect()));
            let mem2 = member(key_correlation_id(), qstr(c));
            let mem3 = member(key_success(), lit_bool(success));
            let p1: int = 1;
            let p2 = p1 + mem1.len() + 1;
            let p3 = p2 + mem2.len() + 1;
            let e = p3 + mem3.len();
            assert(s.len() == e + 1);
            lemma_qstr_raw_ok(m_connect());
            lemma_qstr_parses(m_connect());
            lemma_qstr_raw_ok(c);
            lemma_qstr_parses(c);
            lemma_bool_raw_ok(success);
            assert(s[0] == LBRACE && s[p1] == QUOTE && s[e] == RBRACE);
            assert(s[p2 - 1] == COMMA && s[p2] == QUOTE);
            assert(s[p3 - 1] == COMMA && s[p3] == QUOTE);
            assert(s.subrange(p1, p1 + mem1.len() as int) =~= mem1);
            assert(s.subrange(p2, p2 + mem2.len() as int) =~= mem2);
            assert(s.subrange(p3, p3 + mem3.len() as int) =~= mem3);
            lemma_member_step(s, p1, key_method(), qstr(m_connect()), f0);
            let f1 = set_field(f0, key_method(), qstr(m_connect()));
            lemma_member_step(s, p2, key_correlation_id(), qstr(c), f1);
            let f2 = set_field(f1, key_correlation_id(), qstr(c));
            lemma_member_step(s, p3, key_success(), lit_bool(success), f2);
            let f3 = set_field(f2, key_success(), lit_bool(success));
            assert(member_loop(s, p1, f0) == Some(f3));
            assert(skip_ws(s, 0) == 0 && skip_ws(s, 1) == 1);
            assert(decode_fields(s) == Some(f3));
            assert(f3.method == Some(qstr(m_connect())));
            assert(f3.correlation_id == Some(qstr(c)));
            assert(f3.success == Some(lit_bool(success)));
            assert(output_from_fields(f3) == Some(m));
        },
        _ => {},
    }
}

#[verifier::rlimit(60)]
proof fn lemma_rt_out_create(m: OutputMessageView)
    requires
        output_wf(m),
        m is Create,
    ensures
        decode_output_view(encode_output_view(m)) == Some(m),
{
    lemma_names_plain();
    let s = encode_output_view(m);
    let f0 = empty_fields();
    match m {
        OutputMessageView::Create { correlation_id, success } => {
            let c = correlation_id;
            let mem1 = member(key_method(), qstr(m_create()));
            let mem2 = member(key_correlation_id(), qstr(c));
            let mem3 = member(key_success(), lit_bool(success));
            let p1: int = 1;
            let p2 = p1 + mem1.len() + 1;
            let p3 = p2 + mem2.len() + 1;
            let e = p3 + mem3.len();
            assert(s.len() == e + 1);
            lemma_qstr_raw_ok(m_create());
            lemma_qstr_parses(m_create());
            lemma_qstr_raw_ok(c);
            lemma_qstr_parses(c);
            lemma_bool_raw_ok(success);
            assert(s[0] == LBRACE && s[p1] == QUOTE && s[e] == RBRACE);
            assert(s[p2 - 1] == COMMA && s[p2] == QUOTE);
            assert(s[p3 - 1] == COMMA && s[p3] == QUOTE);
            assert(s.subrange(p1, p1 + mem1.len() as int) =~= mem1);
            assert(s.subrange(p2, p2 + mem2.len() as int) =~= mem2);
            assert(s.subrange(p3, p3 + mem3.len() as int) =~= mem3);
            lemma_member_step(s, p1, key_method(), qstr(m_create()), f0);
            let f1 = set_field(f0, key_method(), qstr(m_create()));
            lemma_member_step(s, p2, key_correlation_id(), qstr(c), f1);
            let f2 = set_field(f1, key_correlation_id(), qstr(c));
            lemma_member_step(s, p3, key_success(), lit_bool(success), f2);
            let f3 = set_field(f2, key_success(), lit_bool(success));
            assert(member_loop(s, p1, f0) == Some(f3));
            assert(skip_ws(s, 0) == 0 && skip_ws(s, 1) == 1);
            assert(decode_fields(s) == Some(f3));
            assert(f3.method == Some(qstr(m_create())));
            assert(f3.correlation_id == Some(qstr(c)));
            assert(f3.success == Some(lit_bool(success)));
            assert(output_from_fields(f3) == Some(m));
        },
        _ => {},
    }
}

#[verifier::rlimit(60)]
proof fn lemma_rt_out_join(m: OutputMessageView)
    requires
        output_wf(m),
        m is Join,
    ensures
        decode_output_view(encode_output_view(m)) == Some(m),
{
    lemma_names_plain();
    let s = encode_output_view(m);
    let f0 = empty_fields();
    match m {
        OutputMessageView::Join { correlation_id, success } => {
            let c = correlation_id;
            let mem1 = member(key_method(), qstr(m_join()));
            let mem2 = member(key_correlation_id(), qstr(c));
            let mem3 = member(key_success(), lit_bool(success));
            let p1: int = 1;
            let p2 = p1 + mem1.len() + 1;
            let p3 = p2 + mem2.len() + 1;
            let e = p3 + mem3.len();
            assert(s.len() == e + 1);
            lemma_qstr_raw_ok(m_join());
            lemma_qstr_parses(m_join());
            lemma_qstr_raw_ok(c);
            lemma_qstr_parses(c);
            lemma_bool_raw_ok(success);
            assert(s[0] == LBRACE && s[p1] == QUOTE && s[e] == RBRACE);
            assert(s[p2 - 1] == COMMA && s[p2] == QUOTE);
            assert(s[p3 - 1] == COMMA && s[p3] == QUOTE);
            assert(s.subrange(p1, p1 + mem1.len() as int) =~= mem1);
            assert(s.subrange(p2, p2 + mem2.len() as int) =~= mem2);
            assert(s.subrange(p3, p3 + mem3.len() as int) =~= mem3);
            lemma_member_step(s, p1, key_method(), qstr(m_join()), f0);
            let f1 = set_field(f0, key_method(), qstr(m_join()));
            lemma_member_step(s, p2, key_correlation_id(), qstr(c), f1);
            let f2 = set_field(f1, key_correlation_id(), qstr(c));
            lemma_member_step(s, p3, key_success(), lit_bool(success), f2);
            let f3 = set_field(f2, key_success(), lit_bool(success));
            assert(member_loop(s, p1, f0) == Some(f3));
            assert(skip_ws(s, 0) == 0 && skip_ws(s, 1) == 1);
            assert(decode_fields(s) == Some(f3));
            assert(f3.method == Some(qstr(m_join())));
            assert(f3.correlation_id == Some(qstr(c)));
            assert(f3.success == Some(lit_bool(success)));
            assert(output_from_fields(f3) == Some(m));
        },
        _ => {},
    }
}

/// Reading the diff fields out of their captured spans.
#[verifier::rlimit(60)]
proof fn lemma_out_diff_fields(
    type_: Seq<u8>,
    id: Seq<u8>,
    finished: bool,
    data: Seq<u8>,
    f: FieldsView,
)
    requires
        no_ctrl(type_),
        no_ctrl(id),
        f.method == Some(qstr(m_diff())),
        f.type_ == Some(qstr(type_)),
        f.id == Some(qstr(id)),
        f.finished == Some(lit_bool(finished)),
        f.data == Some(data),
    ensures
        output_from_fields(f) == Some(
            OutputMessageView::Diff { type_, id, finished, data },
        ),
{
    lemma_qstr_parses(m_diff());
    lemma_qstr_parses(type_);
    lemma_qstr_parses(id);
    lemma_bool_raw_ok(finished);
    lemma_names_plain();
    assert(m_diff() != m_connect() && m_diff() != m_create() && m_diff() != m_join());
}

#[verifier::rlimit(100)]
proof fn lemma_rt_out_diff_nodata(type_: Seq<u8>, id: Seq<u8>, finished: bool)
    requires
        no_ctrl(type_),
        no_ctrl(id),
    ensures
        ({
            let m = OutputMessageView::Diff { type_, id, finished, data: Seq::empty() };
            decode_output_view(encode_output_view(m)) == Some(m)
        }),
{
    lemma_names_plain();
    let m = OutputMessageView::Diff { type_, id, finished, data: Seq::empty() };
    let s = encode_output_view(m);
    let f0 = empty_fields();
    let mem1 = member(key_method(), qstr(m_diff()));
    let mem2 = member(key_type(), qstr(type_));
    let mem3 = member(key_id(), qstr(id));
    let mem4 = member(key_finished(), lit_bool(finished));
    let p1: int = 1;
    let p2 = p1 + mem1.len() + 1;
    let p3 = p2 + mem2.len() + 1;
    let p4 = p3 + mem3.len() + 1;
    lemma_qstr_raw_ok(m_diff());
    lemma_qstr_parses(m_diff());
    lemma_qstr_raw_ok(type_);
    lemma_qstr_parses(type_);
    lemma_qstr_raw_ok(id);
    lemma_qstr_parses(id);
    lemma_bool_raw_ok(finished);
    assert(s[0] == LBRACE && s[p1] == QUOTE);
    assert(s[p2 - 1] == COMMA && s[p2] == QUOTE);
    assert(s[p3 - 1] == COMMA && s[p3] == QUOTE);
    assert(s[p4 - 1] == COMMA && s[p4] == QUOTE);
    assert(s.subrange(p1, p1 + mem1.len() as int) =~= mem1);
    assert(s.subrange(p2, p2 + mem2.len() as int) =~= mem2);
    assert(s.subrange(p3, p3 + mem3.len() as int) =~= mem3);
    assert(s.subrange(p4, p4 + mem4.len() as int) =~= mem4);
    lemma_member_step(s, p1, key_method(), qstr(m_diff()), f0);
    let f1 = set_field(f0, key_method(), qstr(m_diff()));
    lemma_member_step(s, p2, key_type(), qstr(type_), f1);
    let f2 = set_field(f1, key_type(), qstr(type_));
    lemma_member_step(s, p3, key_id(), qstr(id), f2);
    let f3 = set_field(f2, key_id(), qstr(id));
    let f4 = set_field(f3, key_finished(), lit_bool(finished));
    assert(m_diff() != m_connect() && m_diff() != m_create() && m_diff() != m_join());

        let e = p4 + mem4.len();
        assert(s.len() == e + 1);
        assert(s[e] == RBRACE);
        lemma_member_step(s, p4, key_finished(), lit_bool(finished), f3);
        assert(member_loop(s, p1, f0) == Some(f4));
        assert(skip_ws(s, 0) == 0 && skip_ws(s, 1) == 1);
        assert(decode_fields(s) == Some(f4));
        assert(f4.method == Some(qstr(m_diff())));
        assert(f4.type_ == Some(qstr(type_)));
        assert(f4.id == Some(qstr(id)));
        assert(f4.finished == Some(lit_bool(finished)));
        assert(f4.data is None);
        assert(Seq::<u8>::empty() =~= Seq::<u8>::empty());
        assert(output_from_fields(f4) == Some(m));
}

#[verifier::rlimit(100)]
proof fn lemma_rt_out_diff_data(type_: Seq<u8>, id: Seq<u8>, finished: bool, data: Seq<u8>)
    requires
        no_ctrl(type_),
        no_ctrl(id),
        raw_ok(data),
        data.len() > 0,
    ensures
        ({
            let m = OutputMessageView::Diff { type_, id, finished, data };
            decode_output_view(encode_output_view(m)) == Some(m)
        }),
{
    lemma_names_plain();
    let m = OutputMessageView::Diff { type_, id, finished, data };
    let s = encode_output_view(m);
    let f0 = empty_fields();
    let mem1 = member(key_method(), qstr(m_diff()));
    let mem2 = member(key_type(), qstr(type_));
    let mem3 = member(key_id(), qstr(id));
    let mem4 = member(key_finished(), lit_bool(finished));
    let p1: int = 1;
    let p2 = p1 + mem1.len() + 1;
    let p3 = p2 + mem2.len() + 1;
    let p4 = p3 + mem3.len() + 1;
    lemma_qstr_raw_ok(m_diff());
    lemma_qstr_parses(m_diff());
    lemma_qstr_raw_ok(type_);
    lemma_qstr_parses(type_);
    lemma_qstr_raw_ok(id);
    lemma_qstr_parses(id);
    lemma_bool_raw_ok(finished);
    assert(s[0] == LBRACE && s[p1] == QUOTE);
    assert(s[p2 - 1] == COMMA && s[p2] == QUOTE);
    assert(s[p3 - 1] == COMMA && s[p3] == QUOTE);
    assert(s[p4 - 1] == COMMA && s[p4] == QUOTE);
    assert(s.subrange(p1, p1 + mem1.len() as int) =~= mem1);
    assert(s.subrange(p2, p2 + mem2.len() as int) =~= mem2);
    assert(s.subrange(p3, p3 + mem3.len() as int) =~= mem3);
    assert(s.subrange(p4, p4 + mem4.len() as int) =~= mem4);
    lemma_member_step(s, p1, key_method(), qstr(m_diff()), f0);
    let f1 = set_field(f0, key_method(), qstr(m_diff()));
    lemma_member_step(s, p2, key_type(), qstr(type_), f1);
    let f2 = set_field(f1, key_type(), qstr(type_));
    lemma_member_step(s, p3, key_id(), qstr(id), f2);
    let f3 = set_field(f2, key_id(), qstr(id));
    let f4 = set_field(f3, key_finished(), lit_bool(finished));
    assert(m_diff() != m_connect() && m_diff() != m_create() && m_diff() != m_join());

        let mem5 = member(key_data(), data);
        let p5 = p4 + mem4.len() + 1;
        let e = p5 + mem5.len();
        assert(s.len() == e + 1);
        assert(s[p5 - 1] == COMMA && s[p5] == QUOTE && s[e] == RBRACE);
        assert(s.subrange(p5, p5 + mem5.len() as int) =~= mem5);
        lemma_member_step(s, p4, key_finished(), lit_bool(finished), f3);
        lemma_member_step(s, p5, key_data(), data, f4);
        let f5 = set_field(f4, key_data(), data);
        assert(member_loop(s, p1, f0) == Some(f5));
        assert(skip_ws(s, 0) == 0 && skip_ws(s, 1) == 1);
        assert(decode_fields(s) == Some(f5));
        assert(f5.method == Some(qstr(m_diff())));
        assert(f5.type_ == Some(qstr(type_)));
        assert(f5.id == Some(qstr(id)));
        assert(f5.finished == Some(lit_bool(finished)));
        assert(f5.data == Some(data));
        lemma_out_diff_fields(type_, id, finished, data, f5);
}

proof fn lemma_rt_out_diff(m: OutputMessageView)
    requires
        output_wf(m),
        m is Diff,
    ensures
        decode_output_view(encode_output_view(m)) == Some(m),
{
    match m {
        OutputMessageView::Diff { type_, id, finished, data } => {
            if data.len() == 0 {
                assert(data =~= Seq::<u8>::empty());
                lemma_rt_out_diff_nodata(type_, id, finished);
            } else {
                lemma_rt_out_diff_data(type_, id, finished, data);
            }
        },
        _ => {},
    }
}

#[verifier::rlimit(60)]
proof fn lemma_rt_out_generic_error(m: OutputMessageView)
    requires
        output_wf(m),
        m is GenericError,
    ensures
        decode_output_view(encode_output_view(m)) == Some(m),
{
    lemma_names_plain();
    let s = encode_output_view(m);
    let f0 = empty_fields();
    match m {
        OutputMessageView::GenericError { description } => {
            let mem1 = member(key_method(), qstr(m_generic_error()));
            let mem2 = member(key_description(), qstr(description));
            let p1: int = 1;
            let p2 = p1 + mem1.len() + 1;
            let e = p2 + mem2.len();
            assert(s.len() == e + 1);
            lemma_qstr_raw_ok(m_generic_error());
            lemma_qstr_parses(m_generic_error());
            lemma_qstr_raw_ok(description);
            lemma_qstr_parses(description);
            assert(s[0] == LBRACE && s[p1] == QUOTE && s[e] == RBRACE);
            assert(s[p2 - 1] == COMMA && s[p2] == QUOTE);
            assert(s.subrange(p1, p1 + mem1.len() as int) =~= mem1);
            assert(s.subrange(p2, p2 + mem2.len() as int) =~= mem2);
            lemma_member_step(s, p1, key_method(), qstr(m_generic_error()), f0);
            let f1 = set_field(f0, key_method(), qstr(m_generic_error()));
            lemma_member_step(s, p2, key_description(), qstr(description), f1);
            let f2 = set_field(f1, key_description(), qstr(description));
            assert(member_loop(s, p1, f0) == Some(f2));
            assert(skip_ws(s, 0) == 0 && skip_ws(s, 1) == 1);
            assert(decode_fields(s) == Some(f2));
            assert(f2.method == Some(qstr(m_generic_error())));
            assert(m_generic_error() != m_connect() && m_generic_error() != m_create());
            assert(m_generic_error() != m_join() && m_generic_error() != m_diff());
            assert(f2.description == Some(qstr(description)));
            assert(output_from_fields(f2) == Some(m));
        },
        _ => {},
    }
}

/// For any well-formed output envelope, decoding what the encoder wrote
/// gives back the same message.
pub proof fn lemma_output_round_trip(m: OutputMessageView)
    requires
        output_wf(m),
    ensures
        decode_output_view(encode_output_view(m)) == Some(m),
{
    match m {
        OutputMessageView::Connect { .. } => lemma_rt_out_connect(m),
        OutputMessageView::Create { .. } => lemma_rt_out_create(m),
        OutputMessageView::Join { .. } => lemma_rt_out_join(m),
        OutputMessageView::Diff { .. } => lemma_rt_out_diff(m),
        OutputMessageView::GenericError { .. } => lemma_rt_out_generic_error(m),
    }
}

} // verus!
