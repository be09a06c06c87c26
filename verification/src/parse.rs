//! Reading wire text: a parser for the JSON the protocol consumes, defined
//! by a recursive specification of the grammar and implemented by functions
//! proved to compute exactly that specification.

use vstd::prelude::*;
use crate::chars::{char_from_u32, chars_of, push_char};
use crate::error::DynamoDbError;
use crate::json::{json_view, JsonV, JsonValue};
use crate::text::{array_text, escape_char, escape_text, json_text, object_text};
use vstd::string::StringExecFns;

verus! {

/// Whether a character is insignificant whitespace between tokens.
pub open spec fn is_ws(c: char) -> bool {
    c == ' ' || c == '\t' || c == '\n' || c == '\r'
}

/// Whether a character is a decimal digit.
pub open spec fn is_digit(c: char) -> bool {
    '0' <= c && c <= '9'
}

/// The first position at or after `i` that does not hold whitespace.
pub open spec fn sp_ws(s: Seq<char>, i: int) -> int
    decreases s.len() - i,
{
    if i < 0 || i >= s.len() {
        i
    } else if is_ws(s[i]) {
        sp_ws(s, i + 1)
    } else {
        i
    }
}

/// The end of the digit run starting at `i`.
pub open spec fn sp_digits(s: Seq<char>, i: int) -> int
    decreases s.len() - i,
{
    if i < 0 || i >= s.len() {
        i
    } else if is_digit(s[i]) {
        sp_digits(s, i + 1)
    } else {
        i
    }
}

/// The value of a hexadecimal digit.
pub open spec fn hex_val(c: char) -> Option<u32> {
    let u = c as u32;
    if 48 <= u && u <= 57 {
        Some((u - 48) as u32)
    } else if 97 <= u && u <= 102 {
        Some((u - 87) as u32)
    } else if 65 <= u && u <= 70 {
        Some((u - 55) as u32)
    } else {
        None
    }
}

/// The value of the four hexadecimal digits at `i`.
pub open spec fn sp_hex4(s: Seq<char>, i: int) -> Option<u32> {
    if i < 0 || i + 4 > s.len() {
        None
    } else {
        match (hex_val(s[i]), hex_val(s[i + 1]), hex_val(s[i + 2]), hex_val(s[i + 3])) {
            (Some(a), Some(b), Some(c), Some(d)) => Some(
                (((a * 16 + b) * 16 + c) * 16 + d) as u32,
            ),
            _ => None,
        }
    }
}

/// The characters of a string body starting at `i` (just after the opening
/// quote), unescaped, with the position just after the closing quote.
pub open spec fn sp_string_body(s: Seq<char>, i: int) -> Option<(Seq<char>, int)>
    decreases s.len() - i,
{
    if i < 0 || i >= s.len() {
        None
    } else {
        let c = s[i];
        if c == '"' {
            Some((Seq::empty(), i + 1))
        } else if c == '\\' {
            if i + 1 >= s.len() {
                None
            } else {
                let e = s[i + 1];
                if e == '"' || e == '\\' || e == '/' {
                    sp_string_cons(e, sp_string_body(s, i + 2))
                } else if e == 'b' {
                    sp_string_cons((8 as u32) as char, sp_string_body(s, i + 2))
                } else if e == 'f' {
                    sp_string_cons((12 as u32) as char, sp_string_body(s, i + 2))
                } else if e == 'n' {
                    sp_string_cons('\n', sp_string_body(s, i + 2))
                } else if e == 'r' {
                    sp_string_cons('\r', sp_string_body(s, i + 2))
                } else if e == 't' {
                    sp_string_cons('\t', sp_string_body(s, i + 2))
                } else if e == 'u' {
                    match sp_hex4(s, i + 2) {
                        Some(code) => if code < 0xD800 || code > 0xDFFF {
                            sp_string_cons(code as char, sp_string_body(s, i + 6))
                        } else if code <= 0xDBFF {
                            if i + 8 <= s.len() && s[i + 6] == '\\' && s[i + 7] == 'u' {
                                match sp_hex4(s, i + 8) {
                                    Some(lo) => if 0xDC00 <= lo && lo <= 0xDFFF {
                                        sp_string_cons(
                                            (0x10000 + (code - 0xD800) * 0x400 + (lo
                                                - 0xDC00)) as char,
                                            sp_string_body(s, i + 12),
                                        )
                                    } else {
                                        None
                                    },
                                    None => None,
                                }
                            } else {
                                None
                            }
                        } else {
                            None
                        },
                        None => None,
                    }
                } else {
                    None
                }
            }
        } else if (c as u32) < 32 {
            None
        } else {
            sp_string_cons(c, sp_string_body(s, i + 1))
        }
    }
}

/// One unescaped character in front of the rest of a string body.
pub open spec fn sp_string_cons(c: char, rest: Option<(Seq<char>, int)>) -> Option<
    (Seq<char>, int),
> {
    match rest {
        Some((t, end)) => Some((seq![c] + t, end)),
        None => None,
    }
}

/// The end of the number token starting at `i`, if a number token starts
/// there.
pub open spec fn sp_number_end(s: Seq<char>, i: int) -> Option<int> {
    if i < 0 || i >= s.len() {
        None
    } else {
        let j = if s[i] == '-' {
            i + 1
        } else {
            i
        };
        if j >= s.len() || !is_digit(s[j]) {
            None
        } else {
            let int_end = if s[j] == '0' {
                j + 1
            } else {
                sp_digits(s, j)
            };
            let frac_end = if int_end < s.len() && s[int_end] == '.' {
                if sp_digits(s, int_end + 1) == int_end + 1 {
                    -1
                } else {
                    sp_digits(s, int_end + 1)
                }
            } else {
                int_end
            };
            if frac_end < 0 {
                None
            } else {
                if frac_end < s.len() && (s[frac_end] == 'e' || s[frac_end] == 'E') {
                    let k = if frac_end + 1 < s.len() && (s[frac_end + 1] == '+' || s[frac_end
                        + 1] == '-') {
                        frac_end + 2
                    } else {
                        frac_end + 1
                    };
                    if sp_digits(s, k) == k {
                        None
                    } else {
                        Some(sp_digits(s, k))
                    }
                } else {
                    Some(frac_end)
                }
            }
        }
    }
}

/// Whether the literal text stands at position `i`.
pub open spec fn sp_lit(s: Seq<char>, i: int, lit: Seq<char>) -> bool {
    i >= 0 && i + lit.len() <= s.len() && s.subrange(i, i + lit.len()) == lit
}

/// The value whose text starts at or after `i`, with the position just
/// after it. The fuel bounds the recursion and is chosen large enough for
/// any text at the top entry point.
pub open spec fn sp_value(s: Seq<char>, i: int, fuel: nat) -> Option<(JsonV, int)>
    decreases fuel,
{
    if fuel == 0 {
        None
    } else {
        let j = sp_ws(s, i);
        if j >= s.len() || j < 0 {
            None
        } else {
            let c = s[j];
            if c == 'n' {
                if sp_lit(s, j, seq!['n', 'u', 'l', 'l']) {
                    Some((JsonV::Null, j + 4))
                } else {
                    None
                }
            } else if c == 't' {
                if sp_lit(s, j, seq!['t', 'r', 'u', 'e']) {
                    Some((JsonV::Bool(true), j + 4))
                } else {
                    None
                }
            } else if c == 'f' {
                if sp_lit(s, j, seq!['f', 'a', 'l', 's', 'e']) {
                    Some((JsonV::Bool(false), j + 5))
                } else {
                    None
                }
            } else if c == '"' {
                match sp_string_body(s, j + 1) {
                    Some((t, end)) => Some((JsonV::String(t), end)),
                    None => None,
                }
            } else if c == '[' {
                match sp_elements(s, j + 1, (fuel - 1) as nat) {
                    Some((es, end)) => Some((JsonV::Array(es), end)),
                    None => None,
                }
            } else if c == '{' {
                match sp_members(s, j + 1, (fuel - 1) as nat) {
                    Some((es, end)) => Some((JsonV::Object(es), end)),
                    None => None,
                }
            } else if c == '-' || is_digit(c) {
                match sp_number_end(s, j) {
                    Some(end) => Some((JsonV::Number(s.subrange(j, end)), end)),
                    None => None,
                }
            } else {
                None
            }
        }
    }
}

/// The elements of an array whose opening bracket was just consumed.
pub open spec fn sp_elements(s: Seq<char>, i: int, fuel: nat) -> Option<(Seq<JsonV>, int)>
    decreases fuel,
{
    if fuel == 0 {
        None
    } else {
        let j = sp_ws(s, i);
        if j >= s.len() || j < 0 {
            None
        } else if s[j] == ']' {
            Some((Seq::empty(), j + 1))
        } else {
            sp_items(s, i, (fuel - 1) as nat)
        }
    }
}

/// One or more comma-separated array elements.
pub open spec fn sp_items(s: Seq<char>, i: int, fuel: nat) -> Option<(Seq<JsonV>, int)>
    decreases fuel,
{
    if fuel == 0 {
        None
    } else {
        match sp_value(s, i, (fuel - 1) as nat) {
            Some((v, end)) => {
                let j = sp_ws(s, end);
                if j >= s.len() || j < 0 {
                    None
                } else if s[j] == ',' {
                    match sp_items(s, j + 1, (fuel - 1) as nat) {
                        Some((rest, e2)) => Some((seq![v] + rest, e2)),
                        None => None,
                    }
                } else if s[j] == ']' {
                    Some((seq![v], j + 1))
                } else {
                    None
                }
            },
            None => None,
        }
    }
}

/// The entries of an object whose opening brace was just consumed.
pub open spec fn sp_members(s: Seq<char>, i: int, fuel: nat) -> Option<
    (Seq<(Seq<char>, JsonV)>, int),
>
    decreases fuel,
{
    if fuel == 0 {
        None
    } else {
        let j = sp_ws(s, i);
        if j >= s.len() || j < 0 {
            None
        } else if s[j] == '}' {
            Some((Seq::empty(), j + 1))
        } else {
            sp_pairs(s, i, (fuel - 1) as nat)
        }
    }
}

/// One or more comma-separated object entries.
pub open spec fn sp_pairs(s: Seq<char>, i: int, fuel: nat) -> Option<
    (Seq<(Seq<char>, JsonV)>, int),
>
    decreases fuel,
{
    if fuel == 0 {
        None
    } else {
        let j = sp_ws(s, i);
        if j >= s.len() || j < 0 || s[j] != '"' {
            None
        } else {
            match sp_string_body(s, j + 1) {
                Some((key, kend)) => {
                    let l = sp_ws(s, kend);
                    if l >= s.len() || l < 0 || s[l] != ':' {
                        None
                    } else {
                        match sp_value(s, l + 1, (fuel - 1) as nat) {
                            Some((v, end)) => {
                                let m = sp_ws(s, end);
                                if m >= s.len() || m < 0 {
                                    None
                                } else if s[m] == ',' {
                                    match sp_pairs(s, m + 1, (fuel - 1) as nat) {
                                        Some((rest, e2)) => Some((seq![(key, v)] + rest, e2)),
                                        None => None,
                                    }
                                } else if s[m] == '}' {
                                    Some((seq![(key, v)], m + 1))
                                } else {
                                    None
                                }
                            },
                            None => None,
                        }
                    }
                },
                None => None,
            }
        }
    }
}

/// The fuel that suffices for any text: parsing consumes at least one
/// character for every few recursion steps.
pub open spec fn fuel_for(s: Seq<char>) -> nat {
    (4 * s.len() + 8) as nat
}

/// The plain structured value a whole wire text stands for: one value,
/// possibly surrounded by whitespace, with nothing after it.
pub open spec fn wire_parse(s: Seq<char>) -> Option<JsonV> {
    match sp_value(s, 0, fuel_for(s)) {
        Some((v, end)) => if sp_ws(s, end) == s.len() {
            Some(v)
        } else {
            None
        },
        None => None,
    }
}


// ---------------------------------------------------------------------------
// The executable parser, proved to compute the specification.
// ---------------------------------------------------------------------------

/// Skips whitespace.
fn p_ws(cs: &Vec<char>, i: usize) -> (r: usize)
    requires
        i <= cs@.len(),
    ensures
        r as int == sp_ws(cs@, i as int),
        i <= r <= cs@.len(),
    decreases cs@.len() - i,
{
    if i >= cs.len() {
        i
    } else {
        let c = cs[i];
        if c == ' ' || c == '\t' || c == '\n' || c == '\r' {
            p_ws(cs, i + 1)
        } else {
            i
        }
    }
}

/// Skips a digit run.
fn p_digits(cs: &Vec<char>, i: usize) -> (r: usize)
    requires
        i <= cs@.len(),
    ensures
        r as int == sp_digits(cs@, i as int),
        i <= r <= cs@.len(),
    decreases cs@.len() - i,
{
    if i >= cs.len() {
        i
    } else {
        let c = cs[i];
        if '0' <= c && c <= '9' {
            p_digits(cs, i + 1)
        } else {
            i
        }
    }
}

/// The value of one hexadecimal digit.
fn p_hexval(c: char) -> (r: Option<u32>)
    ensures
        r == hex_val(c),
{
    let u = c as u32;
    if 48 <= u && u <= 57 {
        Some(u - 48)
    } else if 97 <= u && u <= 102 {
        Some(u - 87)
    } else if 65 <= u && u <= 70 {
        Some(u - 55)
    } else {
        None
    }
}

/// The value of the four hexadecimal digits at `i`.
fn p_hex4(cs: &Vec<char>, i: usize) -> (r: Option<u32>)
    requires
        i <= cs@.len(),
    ensures
        r == sp_hex4(cs@, i as int),
{
    if cs.len() - i < 4 {
        return None;
    }
    match (p_hexval(cs[i]), p_hexval(cs[i + 1]), p_hexval(cs[i + 2]), p_hexval(cs[i + 3])) {
        (Some(a), Some(b), Some(c), Some(d)) => Some((((a * 16 + b) * 16 + c) * 16 + d)),
        _ => None,
    }
}

/// Reads a string body starting just after the opening quote, unescaping
/// as the grammar says, up to and over the closing quote.
fn p_string_body(cs: &Vec<char>, i: usize) -> (r: Option<(Vec<char>, usize)>)
    requires
        i <= cs@.len(),
    ensures
        match r {
            Some((t, end)) => sp_string_body(cs@, i as int) == Some((t@, end as int)) && i <= end
                <= cs@.len(),
            None => sp_string_body(cs@, i as int) is None,
        },
    decreases cs@.len() - i,
{
    if i >= cs.len() {
        return None;
    }
    let c = cs[i];
    if c == '"' {
        let empty: Vec<char> = Vec::new();
        proof {
            assert(empty@ =~= Seq::<char>::empty());
        }
        return Some((empty, i + 1));
    }
    if c == '\\' {
        if cs.len() - i < 2 {
            return None;
        }
        let e = cs[i + 1];
        if e == '"' || e == '\\' || e == '/' {
            p_string_prepend(e, p_string_body(cs, i + 2))
        } else if e == 'b' {
            p_string_prepend(8u8 as char, p_string_body(cs, i + 2))
        } else if e == 'f' {
            p_string_prepend(12u8 as char, p_string_body(cs, i + 2))
        } else if e == 'n' {
            p_string_prepend('\n', p_string_body(cs, i + 2))
        } else if e == 'r' {
            p_string_prepend('\r', p_string_body(cs, i + 2))
        } else if e == 't' {
            p_string_prepend('\t', p_string_body(cs, i + 2))
        } else if e == 'u' {
            let code = match p_hex4(cs, i + 2) {
                Some(code) => code,
                None => {
                    return None;
                },
            };
            if code < 0xD800 || code > 0xDFFF {
                let ch = match char_from_u32(code) {
                    Some(ch) => ch,
                    None => {
                        proof {
                            assert(false);
                        }
                        return None;
                    },
                };
                p_string_prepend(ch, p_string_body(cs, i + 6))
            } else if code <= 0xDBFF {
                if cs.len() - i < 8 || !(cs[i + 6] == '\\' && cs[i + 7] == 'u') {
                    return None;
                }
                let lo = match p_hex4(cs, i + 8) {
                    Some(lo) => lo,
                    None => {
                        return None;
                    },
                };
                if 0xDC00 <= lo && lo <= 0xDFFF {
                    let cp = 0x10000 + (code - 0xD800) * 0x400 + (lo - 0xDC00);
                    let ch = match char_from_u32(cp) {
                        Some(ch) => ch,
                        None => {
                            proof {
                                assert(false);
                            }
                            return None;
                        },
                    };
                    p_string_prepend(ch, p_string_body(cs, i + 12))
                } else {
                    None
                }
            } else {
                None
            }
        } else {
            None
        }
    } else if (c as u32) < 32 {
        None
    } else {
        p_string_prepend(c, p_string_body(cs, i + 1))
    }
}

/// Puts one unescaped character in front of the rest of a string body.
fn p_string_prepend(c: char, rest: Option<(Vec<char>, usize)>) -> (r: Option<(Vec<char>, usize)>)
    ensures
        match r {
            Some((t, end)) => rest matches Some((t0, end0)) && t@ == seq![c] + t0@ && end == end0,
            None => rest is None,
        },
{
    match rest {
        Some((mut t, end)) => {
            let ghost t0 = t@;
            t.insert(0, c);
            proof {
                assert(t@ =~= seq![c] + t0);
            }
            Some((t, end))
        },
        None => None,
    }
}

/// The end of the number token starting at `i`, if one starts there.
fn p_number_end(cs: &Vec<char>, i: usize) -> (r: Option<usize>)
    requires
        i <= cs@.len(),
    ensures
        match r {
            Some(end) => sp_number_end(cs@, i as int) == Some(end as int) && i <= end
                <= cs@.len(),
            None => sp_number_end(cs@, i as int) is None,
        },
{
    if i >= cs.len() {
        return None;
    }
    let j = if cs[i] == '-' {
        i + 1
    } else {
        i
    };
    if j >= cs.len() {
        return None;
    }
    let d = cs[j];
    if !('0' <= d && d <= '9') {
        return None;
    }
    let int_end = if d == '0' {
        j + 1
    } else {
        p_digits(cs, j)
    };
    let frac_end = if int_end < cs.len() && cs[int_end] == '.' {
        let fd = p_digits(cs, int_end + 1);
        if fd == int_end + 1 {
            return None;
        }
        fd
    } else {
        int_end
    };
    if frac_end < cs.len() && (cs[frac_end] == 'e' || cs[frac_end] == 'E') {
        let k = if frac_end + 1 < cs.len() && (cs[frac_end + 1] == '+' || cs[frac_end + 1]
            == '-') {
            frac_end + 2
        } else {
            frac_end + 1
        };
        let ed = p_digits(cs, k);
        if ed == k {
            None
        } else {
            Some(ed)
        }
    } else {
        Some(frac_end)
    }
}

/// The characters of `cs` between `from` and `to`, as a string.
fn substring_chars(cs: &Vec<char>, from: usize, to: usize) -> (r: String)
    requires
        from <= to <= cs@.len(),
    ensures
        r@ == cs@.subrange(from as int, to as int),
{
    let mut out = String::new();
    let mut k: usize = from;
    while k < to
        invariant
            from <= k <= to <= cs@.len(),
            out@ == cs@.subrange(from as int, k as int),
        decreases to - k,
    {
        push_char(&mut out, cs[k]);
        k = k + 1;
        proof {
            assert(out@ =~= cs@.subrange(from as int, k as int));
        }
    }
    out
}

/// Reads one value starting at or after `i`.
#[verifier::rlimit(60)]
fn p_value(cs: &Vec<char>, i: usize, fuel: u128) -> (r: Option<(JsonValue, usize)>)
    requires
        i <= cs@.len(),
    ensures
        match r {
            Some((v, end)) => sp_value(cs@, i as int, fuel as nat) == Some((v@, end as int))
                && end <= cs@.len(),
            None => sp_value(cs@, i as int, fuel as nat) is None,
        },
    decreases fuel,
{
    if fuel == 0 {
        return None;
    }
    let j = p_ws(cs, i);
    if j >= cs.len() {
        return None;
    }
    let c = cs[j];
    if c == 'n' {
        let ghost lit = seq!['n', 'u', 'l', 'l'];
        if cs.len() - j >= 4 && cs[j + 1] == 'u' && cs[j + 2] == 'l' && cs[j + 3] == 'l' {
            proof {
                assert(cs@.subrange(j as int, j + 4) =~= lit);
            }
            Some((JsonValue::Null, j + 4))
        } else {
            proof {
                if sp_lit(cs@, j as int, lit) {
                    assert(cs@.subrange(j as int, j + 4)[1] == cs@[j + 1]);
                    assert(cs@.subrange(j as int, j + 4)[2] == cs@[j + 2]);
                    assert(cs@.subrange(j as int, j + 4)[3] == cs@[j + 3]);
                }
            }
            None
        }
    } else if c == 't' {
        let ghost lit = seq!['t', 'r', 'u', 'e'];
        if cs.len() - j >= 4 && cs[j + 1] == 'r' && cs[j + 2] == 'u' && cs[j + 3] == 'e' {
            proof {
                assert(cs@.subrange(j as int, j + 4) =~= lit);
            }
            Some((JsonValue::Bool(true), j + 4))
        } else {
            proof {
                if sp_lit(cs@, j as int, lit) {
                    assert(cs@.subrange(j as int, j + 4)[1] == cs@[j + 1]);
                    assert(cs@.subrange(j as int, j + 4)[2] == cs@[j + 2]);
                    assert(cs@.subrange(j as int, j + 4)[3] == cs@[j + 3]);
                }
            }
            None
        }
    } else if c == 'f' {
        let ghost lit = seq!['f', 'a', 'l', 's', 'e'];
        if cs.len() - j >= 5 && cs[j + 1] == 'a' && cs[j + 2] == 'l' && cs[j + 3] == 's' && cs[j
            + 4] == 'e' {
            proof {
                assert(cs@.subrange(j as int, j + 5) =~= lit);
            }
            Some((JsonValue::Bool(false), j + 5))
        } else {
            proof {
                if sp_lit(cs@, j as int, lit) {
                    assert(cs@.subrange(j as int, j + 5)[1] == cs@[j + 1]);
                    assert(cs@.subrange(j as int, j + 5)[2] == cs@[j + 2]);
                    assert(cs@.subrange(j as int, j + 5)[3] == cs@[j + 3]);
                    assert(cs@.subrange(j as int, j + 5)[4] == cs@[j + 4]);
                }
            }
            None
        }
    } else if c == '"' {
        match p_string_body(cs, j + 1) {
            Some((t, end)) => Some((JsonValue::String(crate::chars::string_of(&t)), end)),
            None => None,
        }
    } else if c == '[' {
        match p_elements(cs, j + 1, fuel - 1) {
            Some((es, end)) => Some((JsonValue::Array(es), end)),
            None => None,
        }
    } else if c == '{' {
        match p_members(cs, j + 1, fuel - 1) {
            Some((es, end)) => Some((JsonValue::Object(es), end)),
            None => None,
        }
    } else if c == '-' || ('0' <= c && c <= '9') {
        match p_number_end(cs, j) {
            Some(end) => Some((JsonValue::Number(substring_chars(cs, j, end)), end)),
            None => None,
        }
    } else {
        None
    }
}

/// Reads the elements of an array whose opening bracket was consumed.
fn p_elements(cs: &Vec<char>, i: usize, fuel: u128) -> (r: Option<(Vec<JsonValue>, usize)>)
    requires
        i <= cs@.len(),
    ensures
        match r {
            Some((es, end)) => sp_elements(cs@, i as int, fuel as nat) == Some(
                (crate::json::jsons_view(es@), end as int),
            ) && end <= cs@.len(),
            None => sp_elements(cs@, i as int, fuel as nat) is None,
        },
    decreases fuel,
{
    if fuel == 0 {
        return None;
    }
    let j = p_ws(cs, i);
    if j >= cs.len() {
        return None;
    }
    if cs[j] == ']' {
        let empty: Vec<JsonValue> = Vec::new();
        proof {
            assert(crate::json::jsons_view(empty@) =~= Seq::<JsonV>::empty());
        }
        Some((empty, j + 1))
    } else {
        p_items(cs, i, fuel - 1)
    }
}

/// Reads one or more comma-separated array elements.
fn p_items(cs: &Vec<char>, i: usize, fuel: u128) -> (r: Option<(Vec<JsonValue>, usize)>)
    requires
        i <= cs@.len(),
    ensures
        match r {
            Some((es, end)) => sp_items(cs@, i as int, fuel as nat) == Some(
                (crate::json::jsons_view(es@), end as int),
            ) && end <= cs@.len(),
            None => sp_items(cs@, i as int, fuel as nat) is None,
        },
    decreases fuel,
{
    if fuel == 0 {
        return None;
    }
    let (v, end) = match p_value(cs, i, fuel - 1) {
        Some(p) => p,
        None => {
            return None;
        },
    };
    let j = p_ws(cs, end);
    if j >= cs.len() {
        return None;
    }
    if cs[j] == ',' {
        match p_items(cs, j + 1, fuel - 1) {
            Some((mut rest, e2)) => {
                let ghost v_view = v@;
                let ghost rest_view = rest@;
                rest.insert(0, v);
                proof {
                    assert(rest@ =~= seq![v] + rest_view);
                    assert(rest@.drop_first() =~= rest_view);
                    assert(crate::json::jsons_view(rest@) =~= seq![v_view]
                        + crate::json::jsons_view(rest_view));
                }
                Some((rest, e2))
            },
            None => None,
        }
    } else if cs[j] == ']' {
        let mut one: Vec<JsonValue> = Vec::new();
        let ghost v_view = v@;
        one.push(v);
        proof {
            assert(one@.len() == 1);
            assert(json_view(one@[0]) == v_view);
            assert(one@.drop_first() =~= Seq::<JsonValue>::empty());
            assert(crate::json::jsons_view(one@) == seq![json_view(one@[0])]
                + crate::json::jsons_view(one@.drop_first()));
            assert(crate::json::jsons_view(one@.drop_first()) =~= Seq::<JsonV>::empty());
            assert(crate::json::jsons_view(one@) =~= seq![v_view]);
        }
        Some((one, j + 1))
    } else {
        None
    }
}

/// Reads the entries of an object whose opening brace was consumed.
fn p_members(cs: &Vec<char>, i: usize, fuel: u128) -> (r: Option<
    (Vec<(String, JsonValue)>, usize),
>)
    requires
        i <= cs@.len(),
    ensures
        match r {
            Some((es, end)) => sp_members(cs@, i as int, fuel as nat) == Some(
                (crate::json::json_entries_view(es@), end as int),
            ) && end <= cs@.len(),
            None => sp_members(cs@, i as int, fuel as nat) is None,
        },
    decreases fuel,
{
    if fuel == 0 {
        return None;
    }
    let j = p_ws(cs, i);
    if j >= cs.len() {
        return None;
    }
    if cs[j] == '}' {
        let empty: Vec<(String, JsonValue)> = Vec::new();
        proof {
            assert(crate::json::json_entries_view(empty@) =~= Seq::<(Seq<char>, JsonV)>::empty());
        }
        Some((empty, j + 1))
    } else {
        p_pairs(cs, i, fuel - 1)
    }
}

/// Reads one or more comma-separated object entries.
#[verifier::rlimit(60)]
fn p_pairs(cs: &Vec<char>, i: usize, fuel: u128) -> (r: Option<(Vec<(String, JsonValue)>, usize)>)
    requires
        i <= cs@.len(),
    ensures
        match r {
            Some((es, end)) => sp_pairs(cs@, i as int, fuel as nat) == Some(
                (crate::json::json_entries_view(es@), end as int),
            ) && end <= cs@.len(),
            None => sp_pairs(cs@, i as int, fuel as nat) is None,
        },
    decreases fuel,
{
    if fuel == 0 {
        return None;
    }
    let j = p_ws(cs, i);
    if j >= cs.len() {
        return None;
    }
    if cs[j] != '"' {
        return None;
    }
    let (key, kend) = match p_string_body(cs, j + 1) {
        Some(p) => p,
        None => {
            return None;
        },
    };
    let l = p_ws(cs, kend);
    if l >= cs.len() {
        return None;
    }
    if cs[l] != ':' {
        return None;
    }
    let (v, end) = match p_value(cs, l + 1, fuel - 1) {
        Some(p) => p,
        None => {
            return None;
        },
    };
    let m = p_ws(cs, end);
    if m >= cs.len() {
        return None;
    }
    let key_string = crate::chars::string_of(&key);
    if cs[m] == ',' {
        match p_pairs(cs, m + 1, fuel - 1) {
            Some((mut rest, e2)) => {
                let ghost k_view = key_string@;
                let ghost v_view = v@;
                let ghost rest_view = rest@;
                rest.insert(0, (key_string, v));
                proof {
                    assert(rest@ =~= seq![(key_string, v)] + rest_view);
                    assert(rest@.drop_first() =~= rest_view);
                    assert(crate::json::json_entries_view(rest@) =~= seq![(k_view, v_view)]
                        + crate::json::json_entries_view(rest_view));
                }
                Some((rest, e2))
            },
            None => None,
        }
    } else if cs[m] == '}' {
        let mut one: Vec<(String, JsonValue)> = Vec::new();
        let ghost k_view = key_string@;
        let ghost v_view = v@;
        one.push((key_string, v));
        proof {
            assert(one@.len() == 1);
            assert(one@[0].0@ == k_view);
            assert(json_view(one@[0].1) == v_view);
            assert(one@.drop_first() =~= Seq::<(String, JsonValue)>::empty());
            assert(crate::json::json_entries_view(one@) == seq![(one@[0].0@, json_view(one@[0].1))]
                + crate::json::json_entries_view(one@.drop_first()));
            assert(crate::json::json_entries_view(one@.drop_first()) =~= Seq::<(Seq<char>, JsonV)>::empty());
            assert(crate::json::json_entries_view(one@) =~= seq![(k_view, v_view)]);
        }
        Some((one, m + 1))
    } else {
        None
    }
}

/// The plain structured value a whole wire text stands for. Text that is
/// not one JSON value, with nothing but whitespace around it, is reported
/// as a decoding error.
pub fn parse_wire_text(s: &str) -> (r: Result<JsonValue, DynamoDbError>)
    ensures
        match r {
            Ok(v) => wire_parse(s@) == Some(v@),
            Err(e) => wire_parse(s@) is None && e is DecodingError,
        },
{
    let cs = chars_of(s);
    let n: u128 = cs.len() as u128;
    let fuel: u128 = 4 * n + 8;
    proof {
        assert(fuel as nat == fuel_for(s@));
    }
    match p_value(&cs, 0, fuel) {
        Some((v, end)) => {
            let j = p_ws(&cs, end);
            if j == cs.len() {
                Ok(v)
            } else {
                Err(DynamoDbError::DecodingError(
                    String::from_str("unexpected text after the value"),
                ))
            }
        },
        None => Err(DynamoDbError::DecodingError(
            String::from_str("response body is not valid structured data"),
        )),
    }
}


// ---------------------------------------------------------------------------
// Parsing undoes emitting.
// ---------------------------------------------------------------------------

/// A plain value carrying no raw number token. Every wire body this layer
/// emits is of this shape: the protocol carries numbers as strings.
pub open spec fn number_free(j: JsonV) -> bool
    decreases j,
{
    match j {
        JsonV::Null => true,
        JsonV::Bool(_) => true,
        JsonV::Number(_) => false,
        JsonV::String(_) => true,
        JsonV::Array(es) => number_free_seq(es),
        JsonV::Object(es) => number_free_entries(es),
    }
}

/// Each element of the sequence is free of raw number tokens.
pub open spec fn number_free_seq(es: Seq<JsonV>) -> bool
    decreases es,
{
    if es.len() == 0 {
        true
    } else {
        number_free(es[0]) && number_free_seq(es.drop_first())
    }
}

/// Each entry's value is free of raw number tokens.
pub open spec fn number_free_entries(es: Seq<(Seq<char>, JsonV)>) -> bool
    decreases es,
{
    if es.len() == 0 {
        true
    } else {
        proof {
            assert(decreases_to!(es => es[0]));
            assert(decreases_to!(es[0] => es[0].1));
        }
        number_free(es[0].1) && number_free_entries(es.drop_first())
    }
}

/// A text that stands at `i` splits into its two parts.
proof fn lemma_text_split(s: Seq<char>, i: int, a: Seq<char>, b: Seq<char>)
    requires
        0 <= i,
        i + a.len() + b.len() <= s.len(),
        s.subrange(i, i + a.len() + b.len()) == a + b,
    ensures
        s.subrange(i, i + a.len()) == a,
        s.subrange(i + a.len(), i + a.len() + b.len()) == b,
{
    let al = a.len() as int;
    let bl = b.len() as int;
    assert forall|k: int| 0 <= k < al implies s.subrange(i, i + al)[k] == a[k] by {
        assert(s.subrange(i, i + al + bl)[k] == s[i + k]);
        assert(s.subrange(i, i + al)[k] == s[i + k]);
        assert((a + b)[k] == a[k]);
    }
    assert(s.subrange(i, i + al) =~= a);
    assert forall|k: int| 0 <= k < bl implies s.subrange(i + al, i + al + bl)[k] == b[k] by {
        assert(s.subrange(i, i + al + bl)[al + k] == s[i + al + k]);
        assert(s.subrange(i + al, i + al + bl)[k] == s[i + al + k]);
        assert((a + b)[al + k] == b[k]);
    }
    assert(s.subrange(i + al, i + al + bl) =~= b);
}

/// A hexadecimal digit character reads back as its value.
proof fn lemma_hex_inverse(x: u32)
    requires
        x < 16,
    ensures
        hex_val(crate::text::hex_char(x)) == Some(x),
{
}

/// An escaped string body, followed by its closing quote, reads back as
/// exactly the characters that were escaped.
#[verifier::rlimit(80)]
proof fn lemma_parse_escaped(orig: Seq<char>, s: Seq<char>, i: int)
    requires
        0 <= i,
        i + escape_text(orig).len() < s.len(),
        s.subrange(i, i + escape_text(orig).len()) == escape_text(orig),
        s[i + escape_text(orig).len()] == '"',
    ensures
        sp_string_body(s, i) == Some((orig, i + escape_text(orig).len() + 1)),
    decreases orig.len(),
{
    let txt = escape_text(orig);
    let l = txt.len() as int;
    if orig.len() == 0 {
        assert(l == 0);
        assert(s[i] == '"');
    } else {
        let c = orig[0];
        let e = escape_char(c);
        let rest_txt = escape_text(orig.drop_first());
        assert(txt == e + rest_txt);
        let el = e.len() as int;
        assert(s.subrange(i, i + l) == txt);
        lemma_text_split(s, i, e, rest_txt);
        assert forall|k: int| 0 <= k < el implies s[i + k] == e[k] by {
            assert(s.subrange(i, i + el)[k] == s[i + k]);
        }
        lemma_parse_escaped(orig.drop_first(), s, i + el);
        assert(seq![c] + orig.drop_first() =~= orig);
        let u = c as u32;
        if u == 34 || u == 92 || u == 8 || u == 12 || u == 10 || u == 13 || u == 9 {
            // A two-character escape: backslash and its marker letter.
            assert(s[i] == '\\');
            vstd::utf8::char_u32_cast(c, u);
        } else if u < 32 {
            // The six-character escape: backslash, u, and four hex digits.
            assert(s[i] == '\\' && s[i + 1] == 'u');
            assert(s[i + 2] == '0' && s[i + 3] == '0');
            assert(s[i + 4] == crate::text::hex_char(u / 16));
            assert(s[i + 5] == crate::text::hex_char(u % 16));
            lemma_hex_inverse(u / 16);
            lemma_hex_inverse(u % 16);
            assert(hex_val('0') == Some(0u32));
            let code = sp_hex4(s, i + 2);
            assert(i + 6 <= s.len());
            assert(code == Some((((0 * 16 + 0) * 16 + (u / 16)) * 16 + (u % 16)) as u32));
            assert((((0 * 16 + 0) * 16 + (u / 16)) * 16 + (u % 16)) as u32 == u);
            vstd::utf8::char_u32_cast(c, u);
        } else {
            // The character stands for itself.
            assert(e =~= seq![c]);
            assert(s[i] == c);
            assert(c != '"' && c != '\\');
        }
    }
}


/// The first character of an emitted value: never whitespace and never a
/// closing delimiter or separator.
proof fn lemma_text_first_char(j: JsonV)
    requires
        number_free(j),
    ensures
        json_text(j).len() >= 1,
        !is_ws(json_text(j)[0]),
        json_text(j)[0] != ']',
        json_text(j)[0] != '}',
        json_text(j)[0] != ',',
{
    match j {
        JsonV::Null => {
            assert(json_text(j)[0] == 'n');
        },
        JsonV::Bool(b) => {
            if b {
                assert(json_text(j)[0] == 't');
            } else {
                assert(json_text(j)[0] == 'f');
            }
        },
        JsonV::Number(_) => {},
        JsonV::String(str) => {
            assert(json_text(j)[0] == (seq!['"'] + escape_text(str) + seq!['"'])[0]);
            assert(json_text(j)[0] == '"');
        },
        JsonV::Array(es) => {
            assert(json_text(j)[0] == '[');
        },
        JsonV::Object(es) => {
            assert(json_text(j)[0] == '{');
        },
    }
}

/// An emitted value's text, standing at `i`, reads back as exactly that
/// value, ending right after the text.
proof fn lemma_parse_text_value(j: JsonV, s: Seq<char>, i: int, fuel: nat)
    requires
        number_free(j),
        0 <= i,
        i + json_text(j).len() <= s.len(),
        s.subrange(i, i + json_text(j).len()) == json_text(j),
        fuel >= 4 * json_text(j).len() + 4,
    ensures
        sp_value(s, i, fuel) == Some((j, i + json_text(j).len())),
    decreases j,
{
    let txt = json_text(j);
    let l = txt.len() as int;
    lemma_text_first_char(j);
    assert(s.subrange(i, i + l)[0] == s[i]);
    assert(s[i] == txt[0]);
    match j {
        JsonV::Null => {
            assert(sp_lit(s, i, seq!['n', 'u', 'l', 'l']));
        },
        JsonV::Bool(b) => {
            if b {
                assert(sp_lit(s, i, seq!['t', 'r', 'u', 'e']));
            } else {
                assert(sp_lit(s, i, seq!['f', 'a', 'l', 's', 'e']));
            }
        },
        JsonV::Number(_) => {},
        JsonV::String(str) => {
            let ek = escape_text(str);
            assert(txt == (seq!['"'] + ek) + seq!['"']);
            lemma_text_split(s, i, seq!['"'] + ek, seq!['"']);
            lemma_text_split(s, i, seq!['"'], ek);
            assert(s.subrange(i + 1 + ek.len(), i + l)[0] == s[i + 1 + ek.len()]);
            assert(s[i + 1 + ek.len()] == '"');
            lemma_parse_escaped(str, s, i + 1);
        },
        JsonV::Array(es) => {
            let at = array_text(es);
            assert(txt == (seq!['['] + at) + seq![']']);
            lemma_text_split(s, i, seq!['['] + at, seq![']']);
            lemma_text_split(s, i, seq!['['], at);
            assert(s.subrange(i + 1 + at.len(), i + l)[0] == s[i + 1 + at.len()]);
            assert(s[i + 1 + at.len()] == ']');
            if es.len() == 0 {
                assert(at.len() == 0);
                assert(s[i + 1] == ']');
                assert(es =~= Seq::<JsonV>::empty());
            } else {
                lemma_text_first_char(es[0]);
                assert(at[0] == json_text(es[0])[0]);
                assert(s.subrange(i + 1, i + 1 + at.len())[0] == s[i + 1]);
                assert(s[i + 1] == at[0]);
                assert(decreases_to!(es => es[0]));
                lemma_parse_text_items(es, s, i + 1, (fuel - 2) as nat);
            }
        },
        JsonV::Object(es) => {
            let ot = object_text(es);
            assert(txt == (seq!['{'] + ot) + seq!['}']);
            lemma_text_split(s, i, seq!['{'] + ot, seq!['}']);
            lemma_text_split(s, i, seq!['{'], ot);
            assert(s.subrange(i + 1 + ot.len(), i + l)[0] == s[i + 1 + ot.len()]);
            assert(s[i + 1 + ot.len()] == '}');
            if es.len() == 0 {
                assert(ot.len() == 0);
                assert(s[i + 1] == '}');
                assert(es =~= Seq::<(Seq<char>, JsonV)>::empty());
            } else {
                assert(ot == (seq!['"'] + escape_text(es[0].0) + seq!['"', ':'] + json_text(
                    es[0].1,
                )) + seq![','] + object_text(es.drop_first()) || ot == seq!['"'] + escape_text(
                    es[0].0,
                ) + seq!['"', ':'] + json_text(es[0].1));
                assert(ot[0] == '"');
                assert(s.subrange(i + 1, i + 1 + ot.len())[0] == s[i + 1]);
                assert(s[i + 1] == '"');
                lemma_parse_text_pairs(es, s, i + 1, (fuel - 2) as nat);
            }
        },
    }
}

/// One or more emitted array elements, standing at `i` and followed by the
/// closing bracket, read back as exactly those elements.
proof fn lemma_parse_text_items(es: Seq<JsonV>, s: Seq<char>, i: int, fuel: nat)
    requires
        es.len() >= 1,
        number_free_seq(es),
        0 <= i,
        i + array_text(es).len() < s.len(),
        s.subrange(i, i + array_text(es).len()) == array_text(es),
        s[i + array_text(es).len()] == ']',
        fuel >= 4 * array_text(es).len() + 5,
    ensures
        sp_items(s, i, fuel) == Some((es, i + array_text(es).len() + 1)),
    decreases es,
{
    let at = array_text(es);
    let big = at.len() as int;
    let e0 = es[0];
    let t0 = json_text(e0);
    let l0 = t0.len() as int;
    assert(decreases_to!(es => es[0]));
    if es.len() == 1 {
        assert(at == t0);
        lemma_parse_text_value(e0, s, i, (fuel - 1) as nat);
        assert(!is_ws(s[i + l0]));
        assert(seq![e0] =~= es);
    } else {
        let rest = es.drop_first();
        let rt = array_text(rest);
        assert(at == (t0 + seq![',']) + rt);
        lemma_text_split(s, i, t0 + seq![','], rt);
        lemma_text_split(s, i, t0, seq![',']);
        assert(s.subrange(i + l0, i + l0 + 1)[0] == s[i + l0]);
        assert(s[i + l0] == ',');
        lemma_parse_text_value(e0, s, i, (fuel - 1) as nat);
        assert(!is_ws(','));
        lemma_parse_text_items(rest, s, i + l0 + 1, (fuel - 1) as nat);
        assert(seq![e0] + rest =~= es);
    }
}

/// One or more emitted object entries, standing at `i` and followed by the
/// closing brace, read back as exactly those entries.
#[verifier::rlimit(60)]
proof fn lemma_parse_text_pairs(es: Seq<(Seq<char>, JsonV)>, s: Seq<char>, i: int, fuel: nat)
    requires
        es.len() >= 1,
        number_free_entries(es),
        0 <= i,
        i + object_text(es).len() < s.len(),
        s.subrange(i, i + object_text(es).len()) == object_text(es),
        s[i + object_text(es).len()] == '}',
        fuel >= 4 * object_text(es).len() + 5,
    ensures
        sp_pairs(s, i, fuel) == Some((es, i + object_text(es).len() + 1)),
    decreases es,
{
    let ot = object_text(es);
    let big = ot.len() as int;
    let key = es[0].0;
    let v = es[0].1;
    let ek = escape_text(key);
    let lk = ek.len() as int;
    let tv = json_text(v);
    let lv = tv.len() as int;
    let head = seq!['"'] + ek + seq!['"', ':'] + tv;
    assert(decreases_to!(es => es[0]));
    assert(decreases_to!(es[0] => es[0].1));
    if es.len() == 1 {
        assert(ot == head);
    } else {
        assert(ot == (head + seq![',']) + object_text(es.drop_first()));
        lemma_text_split(s, i, head + seq![','], object_text(es.drop_first()));
        lemma_text_split(s, i, head, seq![',']);
        assert(s.subrange(i + head.len(), i + head.len() + 1)[0] == s[i + head.len()]);
        assert(s[i + head.len()] == ',');
    }
    // Take the head apart: quote, escaped key, quote, colon, value text.
    assert(head == ((seq!['"'] + ek) + seq!['"', ':']) + tv);
    assert(s.subrange(i, i + head.len()) == head);
    lemma_text_split(s, i, (seq!['"'] + ek) + seq!['"', ':'], tv);
    lemma_text_split(s, i, seq!['"'] + ek, seq!['"', ':']);
    lemma_text_split(s, i, seq!['"'], ek);
    assert(s.subrange(i, i + 1)[0] == s[i]);
    assert(s[i] == '"');
    assert(!is_ws('"'));
    assert(s.subrange(i + 1 + lk, i + 3 + lk)[0] == s[i + 1 + lk]);
    assert(s.subrange(i + 1 + lk, i + 3 + lk)[1] == s[i + 2 + lk]);
    assert(s[i + 1 + lk] == '"');
    assert(s[i + 2 + lk] == ':');
    assert(!is_ws(':'));
    assert(es[0] == (key, v));
    lemma_parse_escaped(key, s, i + 1);
    lemma_text_first_char(v);
    lemma_parse_text_value(v, s, i + 3 + lk, (fuel - 1) as nat);
    let end = i + 3 + lk + lv;
    if es.len() == 1 {
        assert(s[end] == '}');
        assert(!is_ws('}'));
        assert(seq![(key, v)] =~= es);
    } else {
        assert(end == i + head.len());
        assert(!is_ws(','));
        lemma_parse_text_pairs(es.drop_first(), s, end + 1, (fuel - 1) as nat);
        assert(seq![(key, v)] + es.drop_first() =~= es);
    }
}

/// Parsing undoes emitting: the wire text of any value that carries no raw
/// number token reads back as exactly that value. Every wire body this
/// layer emits is of that shape, since the protocol carries numbers as
/// strings.
pub proof fn lemma_wire_round_trip(j: JsonV)
    requires
        number_free(j),
    ensures
        wire_parse(json_text(j)) == Some(j),
{
    let s = json_text(j);
    assert(s.subrange(0, s.len() as int) =~= s);
    lemma_parse_text_value(j, s, 0, fuel_for(s));
}

} // verus!
