//! The wire text of a plain structured value: the JSON the protocol sends,
//! emitted with no insignificant whitespace and with a fixed escaping rule,
//! so that the same value always becomes the same bytes.

use vstd::prelude::*;
use crate::chars::push_char;
use crate::json::{json_entries_view, json_view, jsons_view, lemma_json_entries_view,
    lemma_jsons_view, JsonV, JsonValue};
use vstd::string::StrSliceExecFns;

verus! {

broadcast use vstd::std_specs::vec::axiom_vec_decreases_to_view, vstd::seq::axiom_seq_index_decreases;

/// The hexadecimal digit of a value below sixteen.
pub open spec fn hex_char(x: u32) -> char {
    if x < 10 {
        ((48 + x) as u32) as char
    } else {
        ((87 + x) as u32) as char
    }
}

/// The wire text of one string character: itself, unless the escaping rule
/// replaces it.
pub open spec fn escape_char(c: char) -> Seq<char> {
    let u = c as u32;
    if u == 34 {
        seq!['\\', '"']
    } else if u == 92 {
        seq!['\\', '\\']
    } else if u == 8 {
        seq!['\\', 'b']
    } else if u == 12 {
        seq!['\\', 'f']
    } else if u == 10 {
        seq!['\\', 'n']
    } else if u == 13 {
        seq!['\\', 'r']
    } else if u == 9 {
        seq!['\\', 't']
    } else if u < 32 {
        seq!['\\', 'u', '0', '0', hex_char(u / 16), hex_char(u % 16)]
    } else {
        seq![c]
    }
}

/// The wire text of a string's characters, escaped.
pub open spec fn escape_text(s: Seq<char>) -> Seq<char>
    decreases s.len(),
{
    if s.len() == 0 {
        Seq::empty()
    } else {
        escape_char(s[0]) + escape_text(s.drop_first())
    }
}

/// The wire text of a plain structured value.
pub open spec fn json_text(j: JsonV) -> Seq<char>
    decreases j,
{
    match j {
        JsonV::Null => seq!['n', 'u', 'l', 'l'],
        JsonV::Bool(b) => if b {
            seq!['t', 'r', 'u', 'e']
        } else {
            seq!['f', 'a', 'l', 's', 'e']
        },
        JsonV::Number(n) => n,
        JsonV::String(s) => seq!['"'] + escape_text(s) + seq!['"'],
        JsonV::Array(es) => seq!['['] + array_text(es) + seq![']'],
        JsonV::Object(es) => seq!['{'] + object_text(es) + seq!['}'],
    }
}

/// The wire text between an array's brackets: the elements' texts joined
/// with commas.
pub open spec fn array_text(es: Seq<JsonV>) -> Seq<char>
    decreases es,
{
    if es.len() == 0 {
        Seq::empty()
    } else if es.len() == 1 {
        json_text(es[0])
    } else {
        json_text(es[0]) + seq![','] + array_text(es.drop_first())
    }
}

/// The wire text between an object's braces: quoted keys, colons, and the
/// values' texts, joined with commas.
pub open spec fn object_text(es: Seq<(Seq<char>, JsonV)>) -> Seq<char>
    decreases es,
{
    if es.len() == 0 {
        Seq::empty()
    } else {
        proof {
            assert(decreases_to!(es => es[0]));
            assert(decreases_to!(es[0] => es[0].1));
        }
        let head = seq!['"'] + escape_text(es[0].0) + seq!['"', ':'] + json_text(es[0].1);
        if es.len() == 1 {
            head
        } else {
            head + seq![','] + object_text(es.drop_first())
        }
    }
}

/// Appending one element to an array appends one comma-separated text.
proof fn lemma_array_text_snoc(es: Seq<JsonV>, x: JsonV)
    ensures
        array_text(es.push(x)) == if es.len() == 0 {
            json_text(x)
        } else {
            array_text(es) + seq![','] + json_text(x)
        },
    decreases es.len(),
{
    let whole = es.push(x);
    if es.len() == 0 {
        assert(whole.len() == 1);
        assert(whole[0] == x);
    } else {
        lemma_array_text_snoc(es.drop_first(), x);
        assert(whole.drop_first() =~= es.drop_first().push(x));
        assert(whole[0] == es[0]);
        if es.len() == 1 {
            assert(es.drop_first().len() == 0);
            assert(array_text(whole) =~= array_text(es) + seq![','] + json_text(x));
        } else {
            assert(array_text(whole) =~= array_text(es) + seq![','] + json_text(x));
        }
    }
}

/// Appending one entry to an object appends one comma-separated entry text.
proof fn lemma_object_text_snoc(es: Seq<(Seq<char>, JsonV)>, k: Seq<char>, x: JsonV)
    ensures
        object_text(es.push((k, x))) == if es.len() == 0 {
            seq!['"'] + escape_text(k) + seq!['"', ':'] + json_text(x)
        } else {
            object_text(es) + seq![','] + seq!['"'] + escape_text(k) + seq!['"', ':'] + json_text(
                x,
            )
        },
    decreases es.len(),
{
    let whole = es.push((k, x));
    if es.len() == 0 {
        assert(whole.len() == 1);
        assert(whole[0] == (k, x));
    } else {
        lemma_object_text_snoc(es.drop_first(), k, x);
        assert(whole.drop_first() =~= es.drop_first().push((k, x)));
        assert(whole[0] == es[0]);
        if es.len() == 1 {
            assert(es.drop_first().len() == 0);
            assert(object_text(whole) =~= object_text(es) + seq![','] + seq!['"'] + escape_text(k)
                + seq!['"', ':'] + json_text(x));
        } else {
            assert(object_text(whole) =~= object_text(es) + seq![','] + seq!['"'] + escape_text(k)
                + seq!['"', ':'] + json_text(x));
        }
    }
}

/// Appends the escaped wire text of one string's characters.
#[verifier::loop_isolation(false)]
fn write_escaped(s: &str, out: &mut String)
    ensures
        final(out)@ == old(out)@ + escape_text(s@),
{
    let n = s.unicode_len();
    let mut i: usize = 0;
    while i < n
        invariant
            i <= n,
            out@ == old(out)@ + escape_text(s@.take(i as int)),
        decreases n - i,
    {
        let ghost prefix = s@.take(i as int);
        let c = s.get_char(i);
        let u = c as u32;
        if u == 34 {
            push_char(out, '\\');
            push_char(out, '"');
        } else if u == 92 {
            push_char(out, '\\');
            push_char(out, '\\');
        } else if u == 8 {
            push_char(out, '\\');
            push_char(out, 'b');
        } else if u == 12 {
            push_char(out, '\\');
            push_char(out, 'f');
        } else if u == 10 {
            push_char(out, '\\');
            push_char(out, 'n');
        } else if u == 13 {
            push_char(out, '\\');
            push_char(out, 'r');
        } else if u == 9 {
            push_char(out, '\\');
            push_char(out, 't');
        } else if u < 32 {
            push_char(out, '\\');
            push_char(out, 'u');
            push_char(out, '0');
            push_char(out, '0');
            if u / 16 < 10 {
                push_char(out, ((48 + u / 16) as u8) as char);
            } else {
                push_char(out, ((87 + u / 16) as u8) as char);
            }
            if u % 16 < 10 {
                push_char(out, ((48 + u % 16) as u8) as char);
            } else {
                push_char(out, ((87 + u % 16) as u8) as char);
            }
        } else {
            push_char(out, c);
        }
        i = i + 1;
        proof {
            lemma_escape_text_snoc(prefix, c);
            assert(prefix.push(c) =~= s@.take(i as int));
        }
    }
    proof {
        assert(s@.take(n as int) =~= s@);
    }
}

/// Appending one character to a string appends its escape text.
proof fn lemma_escape_text_snoc(s: Seq<char>, c: char)
    ensures
        escape_text(s.push(c)) == escape_text(s) + escape_char(c),
    decreases s.len(),
{
    let whole = s.push(c);
    if s.len() == 0 {
        assert(whole.len() == 1);
        assert(whole[0] == c);
        assert(whole.drop_first() =~= Seq::<char>::empty());
        assert(escape_text(whole) == escape_char(c) + escape_text(whole.drop_first()));
        assert(escape_text(whole.drop_first()) == Seq::<char>::empty());
        assert(escape_char(c) + Seq::<char>::empty() =~= escape_char(c));
        assert(escape_text(s) == Seq::<char>::empty());
        assert(Seq::<char>::empty() + escape_char(c) =~= escape_char(c));
    } else {
        lemma_escape_text_snoc(s.drop_first(), c);
        assert(whole.drop_first() =~= s.drop_first().push(c));
        assert(whole[0] == s[0]);
        assert(escape_text(whole) == escape_char(s[0]) + escape_text(whole.drop_first()));
        assert(escape_text(whole.drop_first()) == escape_text(s.drop_first()) + escape_char(c));
        assert(escape_text(s) == escape_char(s[0]) + escape_text(s.drop_first()));
        assert((escape_char(s[0]) + (escape_text(s.drop_first()) + escape_char(c))) =~= (
        escape_char(s[0]) + escape_text(s.drop_first())) + escape_char(c));
    }
}

/// Appends the wire text of a plain structured value.
#[verifier::loop_isolation(false)]
#[verifier::rlimit(60)]
fn write_json(j: &JsonValue, out: &mut String)
    ensures
        final(out)@ == old(out)@ + json_text(j@),
    decreases j,
{
    match j {
        JsonValue::Null => {
            push_char(out, 'n');
            push_char(out, 'u');
            push_char(out, 'l');
            push_char(out, 'l');
            proof {
                assert(out@ =~= old(out)@ + json_text(j@));
            }
        },
        JsonValue::Bool(b) => {
            if *b {
                push_char(out, 't');
                push_char(out, 'r');
                push_char(out, 'u');
                push_char(out, 'e');
            } else {
                push_char(out, 'f');
                push_char(out, 'a');
                push_char(out, 'l');
                push_char(out, 's');
                push_char(out, 'e');
            }
            proof {
                assert(out@ =~= old(out)@ + json_text(j@));
            }
        },
        JsonValue::Number(n) => {
            out.append(n.as_str());
        },
        JsonValue::String(s) => {
            push_char(out, '"');
            write_escaped(s.as_str(), out);
            push_char(out, '"');
            proof {
                assert(out@ =~= old(out)@ + json_text(j@));
            }
        },
        JsonValue::Array(elems) => {
            let ghost evs = jsons_view(elems@);
            proof {
                lemma_jsons_view(elems@);
            }
            push_char(out, '[');
            let mut i: usize = 0;
            while i < elems.len()
                invariant
                    i <= elems@.len(),
                    out@ == old(out)@ + seq!['['] + array_text(evs.take(i as int)),
                decreases elems@.len() - i,
            {
                let ghost prefix = evs.take(i as int);
                if i > 0 {
                    push_char(out, ',');
                }
                proof {
                    assert(decreases_to!(*j => *elems));
                    assert(decreases_to!(*elems => elems@));
                    assert(decreases_to!(elems@ => elems@[i as int]));
                }
                let ev = &elems[i];
                write_json(ev, out);
                i = i + 1;
                proof {
                    lemma_array_text_snoc(prefix, json_view(*ev));
                    assert(prefix.push(json_view(*ev)) =~= evs.take(i as int));
                }
            }
            push_char(out, ']');
            proof {
                assert(evs.take(elems@.len() as int) =~= evs);
                assert(out@ =~= old(out)@ + json_text(j@));
            }
        },
        JsonValue::Object(entries) => {
            let ghost evs = json_entries_view(entries@);
            proof {
                lemma_json_entries_view(entries@);
            }
            push_char(out, '{');
            let mut i: usize = 0;
            while i < entries.len()
                invariant
                    i <= entries@.len(),
                    out@ == old(out)@ + seq!['{'] + object_text(evs.take(i as int)),
                decreases entries@.len() - i,
            {
                let ghost prefix = evs.take(i as int);
                if i > 0 {
                    push_char(out, ',');
                }
                let e = &entries[i];
                push_char(out, '"');
                write_escaped(e.0.as_str(), out);
                push_char(out, '"');
                push_char(out, ':');
                proof {
                    assert(decreases_to!(*j => *entries));
                    assert(decreases_to!(*entries => entries@));
                    assert(decreases_to!(entries@ => entries@[i as int]));
                    assert(decreases_to!(entries@[i as int] => entries@[i as int].1));
                    assert(*e == entries@[i as int]);
                }
                write_json(&e.1, out);
                i = i + 1;
                proof {
                    lemma_object_text_snoc(prefix, e.0@, json_view(e.1));
                    assert(prefix.push((e.0@, json_view(e.1))) =~= evs.take(i as int));
                }
            }
            push_char(out, '}');
            proof {
                assert(evs.take(entries@.len() as int) =~= evs);
                assert(out@ =~= old(out)@ + json_text(j@));
            }
        },
    }
}

/// The wire text of a plain structured value, as a string. Equal values
/// always yield identical text, so an encoding is deterministic.
pub fn to_wire_text(j: &JsonValue) -> (r: String)
    ensures
        r@ == json_text(j@),
{
    let mut out = String::new();
    write_json(j, &mut out);
    out
}

/// Determinism of the wire encoding: two equal plain values have
/// byte-identical wire text.
pub proof fn lemma_wire_deterministic(a: JsonV, b: JsonV)
    requires
        a == b,
    ensures
        json_text(a) == json_text(b),
{
}

} // verus!
