//! The document model and its JSON encoding.
//!
//! A document is a JSON object; numbers beyond the signed and unsigned 64-bit
//! integers travel as their literal text. `json_bytes` states the exact byte
//! encoding and the executable encoder is proved to produce it.

use vstd::prelude::*;
use vstd::string::StrSliceExecFns;
use vstd::utf8::{encode_scalar, encode_utf8};

use crate::bytes::{dec_digits, dec_signed, i64_to_dec, u64_to_dec};

verus! {

broadcast use vstd::seq::axiom_seq_index_decreases, vstd::seq::axiom_seq_subrange_decreases, vstd::std_specs::vec::axiom_vec_index_decreases, vstd::std_specs::vec::axiom_vec_decreases_to_view, vstd::utf8::char_is_scalar;

/// A JSON value: integers are kept exactly, any other numeric literal is
/// carried as its text.
#[derive(Debug)]
pub enum JsonValue {
    Null,
    Bool(bool),
    Int(i64),
    UInt(u64),
    Num(String),
    Str(String),
    Arr(Vec<JsonValue>),
    Obj(Vec<(String, JsonValue)>),
}

/// The characters a numeric literal may consist of.
pub open spec fn num_char_ok(c: char) -> bool {
    ('0' <= c && c <= '9') || c == '-' || c == '+' || c == '.' || c == 'e' || c == 'E'
}

/// A plausible numeric literal: non-empty and made of numeric characters.
pub open spec fn num_text_ok(s: Seq<char>) -> bool {
    s.len() > 0 && forall|i: int| 0 <= i < s.len() ==> num_char_ok(#[trigger] s[i])
}

/// Well-formedness of a value: every numeric literal in it is plausible, so
/// that the encoding below is valid JSON.
pub open spec fn json_wf(v: JsonValue) -> bool
    decreases v,
{
    match v {
        JsonValue::Num(s) => num_text_ok(s@),
        JsonValue::Arr(items) => forall|i: int|
            0 <= i < items@.len() ==> json_wf(#[trigger] items@[i]),
        JsonValue::Obj(fields) => forall|i: int|
            0 <= i < fields@.len() ==> json_wf((#[trigger] fields@[i]).1),
        _ => true,
    }
}

/// The lowercase hexadecimal digit for a value below 16.
pub open spec fn hex_digit(n: u32) -> u8 {
    if n < 10 {
        (48 + n) as u8
    } else {
        (87 + n) as u8
    }
}

/// How one character appears inside a JSON string: quotes and backslashes are
/// escaped, control characters take the `\u00XX` form, and everything else is
/// its UTF-8 bytes.
pub open spec fn json_escape_char(c: char) -> Seq<u8> {
    if c == '"' {
        seq![92u8, 34u8]
    } else if c == '\\' {
        seq![92u8, 92u8]
    } else if (c as u32) < 0x20 {
        seq![92u8, 117u8, 48u8, 48u8, hex_digit((c as u32) >> 4), hex_digit((c as u32) & 0xf)]
    } else {
        encode_scalar(c as u32)
    }
}

/// The bytes of a JSON string body, without the surrounding quotes.
pub open spec fn json_str_inner(s: Seq<char>) -> Seq<u8>
    decreases s.len(),
{
    if s.len() == 0 {
        seq![]
    } else {
        json_str_inner(s.drop_last()) + json_escape_char(s.last())
    }
}

/// The bytes of a JSON string, quotes included.
pub open spec fn json_string_bytes(s: Seq<char>) -> Seq<u8> {
    seq![34u8] + json_str_inner(s) + seq![34u8]
}

/// The exact JSON encoding of a value.
pub open spec fn json_bytes(v: JsonValue) -> Seq<u8>
    decreases v,
{
    match v {
        JsonValue::Null => seq![110u8, 117u8, 108u8, 108u8],
        JsonValue::Bool(b) => if b {
            seq![116u8, 114u8, 117u8, 101u8]
        } else {
            seq![102u8, 97u8, 108u8, 115u8, 101u8]
        },
        JsonValue::Int(i) => dec_signed(i as int),
        JsonValue::UInt(u) => dec_digits(u as nat),
        JsonValue::Num(s) => encode_utf8(s@),
        JsonValue::Str(s) => json_string_bytes(s@),
        JsonValue::Arr(items) => seq![91u8] + json_list_bytes(items@) + seq![93u8],
        JsonValue::Obj(fields) => seq![123u8] + json_fields_bytes(fields@) + seq![125u8],
    }
}

/// The comma-separated encodings of the elements of an array.
pub open spec fn json_list_bytes(s: Seq<JsonValue>) -> Seq<u8>
    decreases s, s.len(),
{
    if s.len() == 0 {
        seq![]
    } else if s.len() == 1 {
        json_bytes(s[0])
    } else {
        json_list_bytes(s.drop_last()) + seq![44u8] + json_bytes(s.last())
    }
}

/// The comma-separated `"key":value` encodings of the fields of an object.
pub open spec fn json_fields_bytes(s: Seq<(String, JsonValue)>) -> Seq<u8>
    decreases s, s.len(),
{
    if s.len() == 0 {
        seq![]
    } else if s.len() == 1 {
        json_string_bytes(s[0].0@) + seq![58u8] + json_bytes(s[0].1)
    } else {
        json_fields_bytes(s.drop_last()) + seq![44u8] + json_string_bytes(s.last().0@)
            + seq![58u8] + json_bytes(s.last().1)
    }
}

/// Appends the UTF-8 bytes of one character.
fn encode_char(c: char, out: &mut Vec<u8>)
    ensures
        final(out)@ == old(out)@ + encode_scalar(c as u32),
{
    let v = c as u32;
    proof {
        vstd::utf8::char_is_scalar(c);
    }
    if v <= 0x7f {
        out.push((v & 0x7f) as u8);
    } else if v <= 0x7ff {
        out.push(0xc0 | (((v >> 6) & 0x1f) as u8));
        out.push(0x80 | ((v & 0x3f) as u8));
    } else if v <= 0xffff {
        out.push(0xe0 | (((v >> 12) & 0x0f) as u8));
        out.push(0x80 | (((v >> 6) & 0x3f) as u8));
        out.push(0x80 | ((v & 0x3f) as u8));
    } else {
        out.push(0xf0 | (((v >> 18) & 0x7) as u8));
        out.push(0x80 | (((v >> 12) & 0x3f) as u8));
        out.push(0x80 | (((v >> 6) & 0x3f) as u8));
        out.push(0x80 | ((v & 0x3f) as u8));
    }
    proof {
        assert(final(out)@ =~= old(out)@ + encode_scalar(c as u32));
    }
}

/// Appends the escaped form of one character of a JSON string.
fn encode_escape_char(c: char, out: &mut Vec<u8>)
    ensures
        final(out)@ == old(out)@ + json_escape_char(c),
{
    let v = c as u32;
    if v == 34 {
        out.push(92);
        out.push(34);
    } else if v == 92 {
        out.push(92);
        out.push(92);
    } else if v < 0x20 {
        out.push(92);
        out.push(117);
        out.push(48);
        out.push(48);
        let hi = v >> 4;
        let lo = v & 0xf;
        proof {
            assert(v < 0x20 ==> (v >> 4) < 16 && (v & 0xf) < 16) by (bit_vector);
        }
        out.push(if hi < 10 {
            (48 + hi) as u8
        } else {
            (87 + hi) as u8
        });
        out.push(if lo < 10 {
            (48 + lo) as u8
        } else {
            (87 + lo) as u8
        });
    } else {
        encode_char(c, out);
    }
}

/// Appends the JSON encoding of a string, quotes included.
fn encode_string(s: &str, out: &mut Vec<u8>)
    ensures
        final(out)@ == old(out)@ + json_string_bytes(s@),
{
    out.push(34);
    let ghost start = out@;
    let n = s.unicode_len();
    let mut i: usize = 0;
    while i < n
        invariant
            0 <= i <= n,
            n == s@.len(),
            out@ == start + json_str_inner(s@.take(i as int)),
        decreases n - i,
    {
        let c = s.get_char(i);
        encode_escape_char(c, out);
        i = i + 1;
        proof {
            assert(s@.take(i as int).drop_last() =~= s@.take(i - 1));
            assert(s@.take(i as int).last() == s@[i - 1]);
        }
    }
    proof {
        assert(s@.take(n as int) =~= s@);
    }
    out.push(34);
}

/// Appends the JSON encoding of a value; `json_bytes` says exactly what comes
/// out.
pub fn encode_json(v: &JsonValue, out: &mut Vec<u8>)
    ensures
        final(out)@ == old(out)@ + json_bytes(*v),
    decreases *v,
{
    match v {
        JsonValue::Null => {
            out.push(110);
            out.push(117);
            out.push(108);
            out.push(108);
            proof {
                assert(out@ =~= old(out)@ + json_bytes(*v));
            }
        },
        JsonValue::Bool(b) => {
            if *b {
                out.push(116);
                out.push(114);
                out.push(117);
                out.push(101);
            } else {
                out.push(102);
                out.push(97);
                out.push(108);
                out.push(115);
                out.push(101);
            }
            proof {
                assert(out@ =~= old(out)@ + json_bytes(*v));
            }
        },
        JsonValue::Int(i) => {
            let d = i64_to_dec(*i);
            append_bytes(out, &d);
        },
        JsonValue::UInt(u) => {
            let d = u64_to_dec(*u);
            append_bytes(out, &d);
        },
        JsonValue::Num(s) => {
            let bs = s.as_str().as_bytes_vec();
            append_bytes(out, &bs);
        },
        JsonValue::Str(s) => {
            encode_string(s.as_str(), out);
        },
        JsonValue::Arr(items) => {
            out.push(91);
            let ghost start = out@;
            let n = items.len();
            let mut i: usize = 0;
            while i < n
                invariant
                    0 <= i <= n,
                    n == items@.len(),
                    *v == JsonValue::Arr(*items),
                    out@ == start + json_list_bytes(items@.take(i as int)),
                decreases n - i,
            {
                if i > 0 {
                    out.push(44);
                }
                proof {
                    assert(*v == JsonValue::Arr(*items));
                    assert(decreases_to!(*v => v->Arr_0));
                    assert(decreases_to!(*items => items@));
                    assert(decreases_to!(items@ => items@[i as int]));
                }
                encode_json(&items[i], out);
                i = i + 1;
                proof {
                    assert(items@.take(i as int).drop_last() =~= items@.take(i - 1));
                    assert(items@.take(i as int).last() == items@[i - 1]);
                    if i == 1 {
                        assert(json_list_bytes(items@.take(1)) == json_bytes(items@[0]));
                    }
                }
            }
            out.push(93);
            proof {
                assert(items@.take(n as int) =~= items@);
                assert(out@ =~= old(out)@ + json_bytes(*v));
            }
        },
        JsonValue::Obj(fields) => {
            out.push(123);
            let ghost start = out@;
            let n = fields.len();
            let mut i: usize = 0;
            while i < n
                invariant
                    0 <= i <= n,
                    n == fields@.len(),
                    *v == JsonValue::Obj(*fields),
                    out@ == start + json_fields_bytes(fields@.take(i as int)),
                decreases n - i,
            {
                if i > 0 {
                    out.push(44);
                }
                encode_string(fields[i].0.as_str(), out);
                out.push(58);
                proof {
                    assert(*v == JsonValue::Obj(*fields));
                    assert(decreases_to!(*v => v->Obj_0));
                    assert(decreases_to!(*fields => fields@));
                    assert(decreases_to!(fields@ => fields@[i as int]));
                }
                encode_json(&fields[i].1, out);
                i = i + 1;
                proof {
                    assert(fields@.take(i as int).drop_last() =~= fields@.take(i - 1));
                    assert(fields@.take(i as int).last() == fields@[i - 1]);
                }
            }
            out.push(125);
            proof {
                assert(fields@.take(n as int) =~= fields@);
                assert(out@ =~= old(out)@ + json_bytes(*v));
            }
        },
    }
}

/// The JSON encoding of a value, as a fresh byte vector.
pub fn json_to_bytes(v: &JsonValue) -> (r: Vec<u8>)
    ensures
        r@ == json_bytes(*v),
{
    let mut out: Vec<u8> = Vec::new();
    encode_json(v, &mut out);
    out
}

pub(crate) fn append_bytes(out: &mut Vec<u8>, b: &Vec<u8>)
    ensures
        final(out)@ == old(out)@ + b@,
{
    let ghost start = out@;
    let n = b.len();
    let mut i: usize = 0;
    while i < n
        invariant
            0 <= i <= n,
            n == b@.len(),
            out@ == start + b@.take(i as int),
        decreases n - i,
    {
        out.push(b[i]);
        i = i + 1;
        proof {
            assert(start + b@.take(i as int) =~= (start + b@.take(i - 1)).push(b@[i - 1]));
        }
    }
    proof {
        assert(b@.take(n as int) =~= b@);
        assert(start == old(out)@);
    }
}

/// Checks well-formedness of a value, so that unverified callers' inputs can
/// be tested before encoding.
pub fn json_check_wf(v: &JsonValue) -> (r: bool)
    ensures
        r == json_wf(*v),
    decreases *v,
{
    match v {
        JsonValue::Num(s) => {
            let n = s.as_str().unicode_len();
            if n == 0 {
                return false;
            }
            let mut i: usize = 0;
            while i < n
                invariant
                    0 <= i <= n,
                    n == s@.len(),
                    *v == JsonValue::Num(*s),
                    forall|j: int| 0 <= j < i ==> num_char_ok(#[trigger] s@[j]),
                decreases n - i,
            {
                let c = s.as_str().get_char(i);
                let ok = ('0' <= c && c <= '9') || c == '-' || c == '+' || c == '.' || c == 'e'
                    || c == 'E';
                if !ok {
                    return false;
                }
                i = i + 1;
            }
            true
        },
        JsonValue::Arr(items) => {
            let n = items.len();
            let mut i: usize = 0;
            while i < n
                invariant
                    0 <= i <= n,
                    n == items@.len(),
                    *v == JsonValue::Arr(*items),
                    forall|j: int| 0 <= j < i ==> json_wf(#[trigger] items@[j]),
                decreases n - i,
            {
                proof {
                    assert(*v == JsonValue::Arr(*items));
                    assert(decreases_to!(*v => v->Arr_0));
                    assert(decreases_to!(*items => items@));
                    assert(decreases_to!(items@ => items@[i as int]));
                }
                if !json_check_wf(&items[i]) {
                    return false;
                }
                i = i + 1;
            }
            true
        },
        JsonValue::Obj(fields) => {
            let n = fields.len();
            let mut i: usize = 0;
            while i < n
                invariant
                    0 <= i <= n,
                    n == fields@.len(),
                    *v == JsonValue::Obj(*fields),
                    forall|j: int| 0 <= j < i ==> json_wf((#[trigger] fields@[j]).1),
                decreases n - i,
            {
                proof {
                    assert(*v == JsonValue::Obj(*fields));
                    assert(decreases_to!(*v => v->Obj_0));
                    assert(decreases_to!(*fields => fields@));
                    assert(decreases_to!(fields@ => fields@[i as int]));
                }
                if !json_check_wf(&fields[i].1) {
                    return false;
                }
                i = i + 1;
            }
            true
        },
        _ => true,
    }
}

} // verus!
