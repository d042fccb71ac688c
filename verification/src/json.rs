//! Rendering stored values as JSON text. The exact text of every value is
//! pinned down by the spec functions here, escaping included.

use vstd::prelude::*;

use crate::numtext::{dec_int, push_dec_i64};
use crate::strutil::{chars_string, str_chars};
use crate::value::Value;

verus! {

/// The lower-case hexadecimal digit character for `d` in `0 .. 16`.
pub open spec fn hex_char(d: int) -> char {
    if d < 10 {
        crate::numtext::digit_char(d)
    } else if d == 10 {
        'a'
    } else if d == 11 {
        'b'
    } else if d == 12 {
        'c'
    } else if d == 13 {
        'd'
    } else if d == 14 {
        'e'
    } else {
        'f'
    }
}

/// How one character appears inside a JSON string literal: quotes and
/// backslashes are escaped, common control characters get their short
/// escapes, the remaining control characters a `\u00..` escape.
pub open spec fn esc_char(c: char) -> Seq<char> {
    if c == '"' {
        seq!['\\', '"']
    } else if c == '\\' {
        seq!['\\', '\\']
    } else if c == '\n' {
        seq!['\\', 'n']
    } else if c == '\r' {
        seq!['\\', 'r']
    } else if c == '\t' {
        seq!['\\', 't']
    } else if (c as u32) < 0x20 {
        seq!['\\', 'u', '0', '0', hex_char((c as u32 / 16) as int), hex_char((c as u32 % 16) as int)]
    } else {
        seq![c]
    }
}

/// The escaped body of a JSON string literal.
pub open spec fn esc(s: Seq<char>) -> Seq<char>
    decreases s.len(),
{
    if s.len() == 0 {
        Seq::empty()
    } else {
        esc(s.drop_last()) + esc_char(s.last())
    }
}

/// A JSON string literal: the escaped characters between double quotes.
pub open spec fn json_str(s: Seq<char>) -> Seq<char> {
    seq!['"'] + esc(s) + seq!['"']
}

/// The JSON text of a value.
pub open spec fn json_of(v: Value) -> Seq<char>
    decreases v,
{
    match v {
        Value::Null => seq!['n', 'u', 'l', 'l'],
        Value::Bool(b) => if b {
            seq!['t', 'r', 'u', 'e']
        } else {
            seq!['f', 'a', 'l', 's', 'e']
        },
        Value::Int(n) => dec_int(n as int),
        Value::Str(s) => json_str(s@),
        Value::Arr(a) => seq!['['] + json_arr(a@) + seq![']'],
        Value::Obj(o) => seq!['{'] + json_obj(o@) + seq!['}'],
    }
}

/// The comma-separated JSON texts of a sequence of values.
pub open spec fn json_arr(s: Seq<Value>) -> Seq<char>
    decreases s,
{
    if s.len() == 0 {
        Seq::empty()
    } else if s.len() == 1 {
        json_of(s[0])
    } else {
        json_arr(s.drop_last()) + seq![','] + json_of(s.last())
    }
}

/// The comma-separated `"key":value` members of a JSON object.
pub open spec fn json_obj(s: Seq<(String, Value)>) -> Seq<char>
    decreases s,
{
    if s.len() == 0 {
        Seq::empty()
    } else if s.len() == 1 {
        json_str(s[0].0@) + seq![':'] + json_of(s[0].1)
    } else {
        json_obj(s.drop_last()) + seq![','] + json_str(s.last().0@) + seq![':'] + json_of(
            s.last().1,
        )
    }
}

fn hex_of(d: u32) -> (c: char)
    requires
        d < 16,
    ensures
        c == hex_char(d as int),
{
    match d {
        0 => '0',
        1 => '1',
        2 => '2',
        3 => '3',
        4 => '4',
        5 => '5',
        6 => '6',
        7 => '7',
        8 => '8',
        9 => '9',
        10 => 'a',
        11 => 'b',
        12 => 'c',
        13 => 'd',
        14 => 'e',
        _ => 'f',
    }
}

fn push_esc_char(c: char, out: &mut Vec<char>)
    ensures
        final(out)@ == old(out)@ + esc_char(c),
{
    if c == '"' {
        out.push('\\');
        out.push('"');
    } else if c == '\\' {
        out.push('\\');
        out.push('\\');
    } else if c == '\n' {
        out.push('\\');
        out.push('n');
    } else if c == '\r' {
        out.push('\\');
        out.push('r');
    } else if c == '\t' {
        out.push('\\');
        out.push('t');
    } else if (c as u32) < 0x20 {
        out.push('\\');
        out.push('u');
        out.push('0');
        out.push('0');
        out.push(hex_of(c as u32 / 16));
        out.push(hex_of(c as u32 % 16));
    } else {
        out.push(c);
    }
    assert(out@ =~= old(out)@ + esc_char(c));
}

/// Appends the JSON string literal for `s` to `out`.
pub fn push_json_str(s: &str, out: &mut Vec<char>)
    ensures
        final(out)@ == old(out)@ + json_str(s@),
{
    out.push('"');
    let cs = str_chars(s);
    let mut j: usize = 0;
    while j < cs.len()
        invariant
            j <= cs.len(),
            cs@ == s@,
            out@ == old(out)@ + seq!['"'] + esc(s@.take(j as int)),
        decreases cs.len() - j,
    {
        push_esc_char(cs[j], out);
        proof {
            assert(s@.take(j + 1).drop_last() =~= s@.take(j as int));
            assert(s@.take(j + 1).last() == s@[j as int]);
            assert(out@ =~= old(out)@ + seq!['"'] + esc(s@.take(j + 1)));
        }
        j += 1;
    }
    out.push('"');
    proof {
        assert(s@.take(cs.len() as int) =~= s@);
        assert(out@ =~= old(out)@ + json_str(s@));
    }
}

/// Appends the JSON text of `v` to `out`.
pub fn push_json(v: &Value, out: &mut Vec<char>)
    ensures
        final(out)@ == old(out)@ + json_of(*v),
    decreases v,
{
    match v {
        Value::Null => {
            out.push('n');
            out.push('u');
            out.push('l');
            out.push('l');
            assert(out@ =~= old(out)@ + json_of(*v));
        },
        Value::Bool(b) => {
            if *b {
                out.push('t');
                out.push('r');
                out.push('u');
                out.push('e');
            } else {
                out.push('f');
                out.push('a');
                out.push('l');
                out.push('s');
                out.push('e');
            }
            assert(out@ =~= old(out)@ + json_of(*v));
        },
        Value::Int(n) => {
            push_dec_i64(*n, out);
        },
        Value::Str(s) => {
            push_json_str(s.as_str(), out);
        },
        Value::Arr(a) => {
            out.push('[');
            let mut i: usize = 0;
            while i < a.len()
                invariant
                    i <= a.len(),
                    *v == Value::Arr(*a),
                    out@ == old(out)@ + seq!['['] + json_arr(a@.take(i as int)),
                decreases a.len() - i,
            {
                if i > 0 {
                    out.push(',');
                }
                proof {
                    assert(decreases_to!(*v => (*v)->Arr_0));
                    assert((*v)->Arr_0 == *a);
                    assert(decreases_to!(*a => a@));
                    assert(decreases_to!(a@ => a@[i as int]));
                    assert(decreases_to!(*v => a@[i as int]));
                }
                push_json(&a[i], out);
                proof {
                    assert(a@.take(i + 1).drop_last() =~= a@.take(i as int));
                    assert(a@.take(i + 1).last() == a@[i as int]);
                    assert(out@ =~= old(out)@ + seq!['['] + json_arr(a@.take(i + 1)));
                }
                i += 1;
            }
            out.push(']');
            proof {
                assert(a@.take(a@.len() as int) =~= a@);
                assert(out@ =~= old(out)@ + json_of(*v));
            }
        },
        Value::Obj(o) => {
            out.push('{');
            let mut i: usize = 0;
            while i < o.len()
                invariant
                    i <= o.len(),
                    *v == Value::Obj(*o),
                    out@ == old(out)@ + seq!['{'] + json_obj(o@.take(i as int)),
                decreases o.len() - i,
            {
                if i > 0 {
                    out.push(',');
                }
                push_json_str(o[i].0.as_str(), out);
                out.push(':');
                proof {
                    assert(decreases_to!(*v => (*v)->Obj_0));
                    assert((*v)->Obj_0 == *o);
                    assert(decreases_to!(*o => o@));
                    assert(decreases_to!(o@ => o@[i as int]));
                    assert(decreases_to!(o@[i as int] => o@[i as int].1));
                    assert(decreases_to!(*v => o@[i as int].1));
                }
                push_json(&o[i].1, out);
                proof {
                    assert(o@.take(i + 1).drop_last() =~= o@.take(i as int));
                    assert(o@.take(i + 1).last() == o@[i as int]);
                    assert(out@ =~= old(out)@ + seq!['{'] + json_obj(o@.take(i + 1)));
                }
                i += 1;
            }
            out.push('}');
            proof {
                assert(o@.take(o@.len() as int) =~= o@);
                assert(out@ =~= old(out)@ + json_of(*v));
            }
        },
    }
}

/// The JSON text of a value, as a string.
pub fn to_json(v: &Value) -> (r: String)
    ensures
        r@ == json_of(*v),
{
    let mut out: Vec<char> = Vec::new();
    push_json(v, &mut out);
    chars_string(&out)
}

} // verus!
