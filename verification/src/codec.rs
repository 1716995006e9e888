//! Rendering documents as JSON text; object keys come out in their stored,
//! sorted order, so serialization is deterministic.

use vstd::prelude::*;
use crate::error::{FrError, SpecErr};
use crate::json::{
    entries_sorted, entries_view, is_num_char, num_token_wf, spec_obj_insert, wf, JsonVal,
    SpecVal,
};
use crate::text::{chars_of, is_digit, string_of_chars, subvec};

verus! {

broadcast use vstd::std_specs::vec::group_vec_axioms;

/// A lowercase hexadecimal digit.
pub open spec fn hex_digit(n: int) -> char {
    if n < 10 {
        (48 + n) as char
    } else {
        (87 + n) as char
    }
}

/// One character as it appears inside a JSON string literal.
pub open spec fn esc_char(c: char) -> Seq<char> {
    if c == '"' {
        seq!['\\', '"']
    } else if c == '\\' {
        seq!['\\', '\\']
    } else if c == '\n' {
        seq!['\\', 'n']
    } else if c == '\r' {
        seq!['\\', 'r']
    } else if c == '\t' {
        seq!['\\', 't']
    } else if (c as u32) < 32 {
        seq!['\\', 'u', '0', '0', hex_digit(c as u32 as int / 16), hex_digit(c as u32 as int % 16)]
    } else {
        seq![c]
    }
}

/// A string's characters escaped for a JSON literal.
pub open spec fn esc_str(s: Seq<char>) -> Seq<char>
    decreases s.len(),
{
    if s.len() == 0 {
        Seq::empty()
    } else {
        esc_char(s[0]) + esc_str(s.drop_first())
    }
}

/// A quoted JSON string literal.
pub open spec fn quoted(s: Seq<char>) -> Seq<char> {
    seq!['"'] + esc_str(s) + seq!['"']
}

/// The compact JSON text of a document.
pub open spec fn spec_ser(v: SpecVal) -> Seq<char>
    decreases v, 1int,
{
    match v {
        SpecVal::Null => seq!['n', 'u', 'l', 'l'],
        SpecVal::Bool(b) => if b {
            seq!['t', 'r', 'u', 'e']
        } else {
            seq!['f', 'a', 'l', 's', 'e']
        },
        SpecVal::Num(t) => t,
        SpecVal::Str(s) => quoted(s),
        SpecVal::Arr(a) => seq!['['] + spec_ser_elems(a) + seq![']'],
        SpecVal::Obj(es) => seq!['{'] + spec_ser_entries(es) + seq!['}'],
    }
}

/// Array elements, comma separated.
pub open spec fn spec_ser_elems(a: Seq<SpecVal>) -> Seq<char>
    decreases a, 0int,
{
    if a.len() == 0 {
        Seq::empty()
    } else if a.len() == 1 {
        spec_ser(a[0])
    } else {
        spec_ser(a[0]) + seq![','] + spec_ser_elems(a.drop_first())
    }
}

/// Object entries, comma separated, each a quoted key, a colon and a value.
pub open spec fn spec_ser_entries(es: Seq<(Seq<char>, SpecVal)>) -> Seq<char>
    decreases es, 0int,
{
    if es.len() == 0 {
        Seq::empty()
    } else if es.len() == 1 {
        quoted(es[0].0) + seq![':'] + spec_ser(es[0].1)
    } else {
        quoted(es[0].0) + seq![':'] + spec_ser(es[0].1) + seq![','] + spec_ser_entries(
            es.drop_first(),
        )
    }
}

/// Appends the escaped form of one character.
fn push_esc_char(out: &mut Vec<char>, c: char)
    ensures
        final(out)@ == old(out)@ + esc_char(c),
{
    let ghost pre = out@;
    if c == '"' {
        out.push('\\');
        out.push('"');
        proof {
            assert(out@ =~= pre + esc_char(c));
        }
    } else if c == '\\' {
        out.push('\\');
        out.push('\\');
        proof {
            assert(out@ =~= pre + esc_char(c));
        }
    } else if c == '\n' {
        out.push('\\');
        out.push('n');
        proof {
            assert(out@ =~= pre + esc_char(c));
        }
    } else if c == '\r' {
        out.push('\\');
        out.push('r');
        proof {
            assert(out@ =~= pre + esc_char(c));
        }
    } else if c == '\t' {
        out.push('\\');
        out.push('t');
        proof {
            assert(out@ =~= pre + esc_char(c));
        }
    } else if (c as u32) < 32 {
        out.push('\\');
        out.push('u');
        out.push('0');
        out.push('0');
        let hi: u32 = c as u32 / 16;
        let lo: u32 = c as u32 % 16;
        let hic: char = if hi < 10 {
            (48 + hi as u8) as char
        } else {
            (87 + hi as u8) as char
        };
        let loc: char = if lo < 10 {
            (48 + lo as u8) as char
        } else {
            (87 + lo as u8) as char
        };
        out.push(hic);
        out.push(loc);
        proof {
            assert(hic == hex_digit(c as u32 as int / 16));
            assert(loc == hex_digit(c as u32 as int % 16));
            assert(out@ =~= pre + esc_char(c));
        }
    } else {
        out.push(c);
        proof {
            assert(out@ =~= pre + esc_char(c));
        }
    }
}

/// Appends a quoted JSON string literal.
fn push_quoted(out: &mut Vec<char>, s: &Vec<char>)
    ensures
        final(out)@ == old(out)@ + quoted(s@),
{
    let ghost pre = out@;
    out.push('"');
    let mut i: usize = 0;
    proof {
        assert(s@.take(0) =~= Seq::<char>::empty());
        assert(esc_str(Seq::<char>::empty()) =~= Seq::<char>::empty());
        assert(out@ =~= pre + seq!['"'] + esc_str(s@.take(0)));
    }
    while i < s.len()
        invariant
            i <= s@.len(),
            out@ == pre + seq!['"'] + esc_str(s@.take(i as int)),
        decreases s@.len() - i,
    {
        push_esc_char(out, s[i]);
        proof {
            lemma_esc_str_snoc(s@, i as int);
            assert(out@ =~= pre + seq!['"'] + esc_str(s@.take(i + 1)));
        }
        i += 1;
    }
    out.push('"');
    proof {
        assert(s@.take(s@.len() as int) =~= s@);
        assert(out@ =~= pre + quoted(s@));
    }
}

/// Escaping one more character extends the escaped prefix.
proof fn lemma_esc_str_snoc(s: Seq<char>, i: int)
    requires
        0 <= i < s.len(),
    ensures
        esc_str(s.take(i + 1)) == esc_str(s.take(i)) + esc_char(s[i]),
    decreases i,
{
    if i == 0 {
        assert(s.take(1)[0] == s[0]);
        assert(s.take(1).drop_first() =~= s.take(0));
        assert(esc_str(s.take(0)) =~= Seq::<char>::empty());
        assert(esc_str(s.take(1)) =~= esc_char(s[0]));
        assert(esc_str(s.take(0)) + esc_char(s[0]) =~= esc_char(s[0]));
    } else {
        let t = s.drop_first();
        lemma_esc_str_snoc(t, i - 1);
        assert(s.take(i + 1)[0] == s[0]);
        assert(s.take(i + 1).drop_first() =~= t.take(i));
        assert(s.take(i)[0] == s[0]);
        assert(s.take(i).drop_first() =~= t.take(i - 1));
        assert(t.take(i - 1 + 1) =~= t.take(i));
        assert(t[i - 1] == s[i]);
        assert(esc_str(s.take(i + 1)) =~= esc_char(s[0]) + esc_str(t.take(i)));
        assert(esc_char(s[0]) + (esc_str(t.take(i - 1)) + esc_char(s[i])) =~= (esc_char(s[0])
            + esc_str(t.take(i - 1))) + esc_char(s[i]));
        assert(esc_str(s.take(i)) =~= esc_char(s[0]) + esc_str(t.take(i - 1)));
    }
}

/// Appends the compact JSON text of a value.
#[verifier::loop_isolation(false)]
#[verifier::rlimit(60)]
pub fn write_val(v: &JsonVal, out: &mut Vec<char>)
    ensures
        final(out)@ == old(out)@ + spec_ser(v@),
    decreases *v,
{
    broadcast use crate::json::lemma_arr_node_view, crate::json::lemma_obj_node_view;

    let ghost pre = out@;
    match v {
        JsonVal::Null => {
            out.push('n');
            out.push('u');
            out.push('l');
            out.push('l');
            proof {
                assert(out@ =~= pre + spec_ser(v@));
            }
        },
        JsonVal::Bool(b) => {
            if *b {
                out.push('t');
                out.push('r');
                out.push('u');
                out.push('e');
            } else {
                out.push('f');
                out.push('a');
                out.push('l');
                out.push('s');
                out.push('e');
            }
            proof {
                assert(out@ =~= pre + spec_ser(v@));
            }
        },
        JsonVal::Num(t) => {
            let mut i: usize = 0;
            while i < t.len()
                invariant
                    i <= t@.len(),
                    out@ == pre + t@.take(i as int),
                decreases t@.len() - i,
            {
                out.push(t[i]);
                proof {
                    assert(out@ =~= pre + t@.take(i + 1));
                }
                i += 1;
            }
            proof {
                assert(t@.take(t@.len() as int) =~= t@);
            }
        },
        JsonVal::Str(s) => {
            push_quoted(out, s);
        },
        JsonVal::Arr(a) => {
            proof {
                crate::json::lemma_arr_node_view(*a);
            }
            let ghost ga = crate::json::arr_view(a@);
            out.push('[');
            let mut i: usize = 0;
            proof {
                assert(ga.skip(0) =~= ga);
            }
            while i < a.len()
                invariant
                    i <= a@.len(),
                    ga == crate::json::arr_view(a@),
                    pre + spec_ser(v@) == out@ + spec_ser_elems(ga.skip(i as int)) + seq![']'],
                decreases a@.len() - i,
            {
                let ghost gi = i as int;
                proof {
                    assert(ga.skip(gi)[0] == ga[gi]);
                    assert(ga.skip(gi).drop_first() =~= ga.skip(gi + 1));
                    assert(ga[gi] == a@[gi]@);
                }
                write_val(&a[i], out);
                if i + 1 < a.len() {
                    out.push(',');
                    proof {
                        assert(ga.skip(gi).len() > 1);
                        assert(pre + spec_ser(v@) =~= out@ + spec_ser_elems(ga.skip(gi + 1))
                            + seq![']']);
                    }
                } else {
                    proof {
                        assert(ga.skip(gi).len() == 1);
                        assert(spec_ser_elems(ga.skip(gi)) == spec_ser(ga[gi]));
                        assert(ga.skip(gi + 1) =~= Seq::<SpecVal>::empty());
                        assert(pre + spec_ser(v@) =~= out@ + spec_ser_elems(ga.skip(gi + 1))
                            + seq![']']);
                    }
                }
                i += 1;
            }
            out.push(']');
            proof {
                assert(ga.skip(a@.len() as int) =~= Seq::<SpecVal>::empty());
                assert(out@ =~= pre + spec_ser(v@));
            }
        },
        JsonVal::Obj(es) => {
            proof {
                crate::json::lemma_obj_node_view(*es);
            }
            let ghost ges = crate::json::entries_view(es@);
            out.push('{');
            let mut i: usize = 0;
            proof {
                assert(ges.skip(0) =~= ges);
            }
            while i < es.len()
                invariant
                    i <= es@.len(),
                    ges == crate::json::entries_view(es@),
                    pre + spec_ser(v@) == out@ + spec_ser_entries(ges.skip(i as int)) + seq!['}'],
                decreases es@.len() - i,
            {
                let ghost gi = i as int;
                proof {
                    assert(ges.skip(gi)[0] == ges[gi]);
                    assert(ges.skip(gi).drop_first() =~= ges.skip(gi + 1));
                    assert(ges[gi] == (es@[gi].0@, es@[gi].1@));
                }
                push_quoted(out, &es[i].0);
                out.push(':');
                write_val(&es[i].1, out);
                if i + 1 < es.len() {
                    out.push(',');
                    proof {
                        assert(ges.skip(gi).len() > 1);
                        assert(pre + spec_ser(v@) =~= out@ + spec_ser_entries(ges.skip(gi + 1))
                            + seq!['}']);
                    }
                } else {
                    proof {
                        assert(ges.skip(gi).len() == 1);
                        assert(ges.skip(gi + 1) =~= Seq::<(Seq<char>, SpecVal)>::empty());
                        assert(pre + spec_ser(v@) =~= out@ + spec_ser_entries(ges.skip(gi + 1))
                            + seq!['}']);
                    }
                }
                i += 1;
            }
            out.push('}');
            proof {
                assert(ges.skip(es@.len() as int) =~= Seq::<(Seq<char>, SpecVal)>::empty());
                assert(out@ =~= pre + spec_ser(v@));
            }
        },
    }
}

/// The compact JSON text of a document.
pub fn to_json_string(v: &JsonVal) -> (r: String)
    ensures
        r@ == spec_ser(v@),
{
    let mut out: Vec<char> = Vec::new();
    write_val(v, &mut out);
    proof {
        assert(Seq::<char>::empty() + spec_ser(v@) =~= spec_ser(v@));
    }
    string_of_chars(&out)
}


/// A JSON whitespace character.
pub open spec fn is_ws(c: char) -> bool {
    c == ' ' || c == '\n' || c == '\t' || c == '\r'
}

/// The first non-whitespace position at or after `i`.
pub open spec fn skip_ws(s: Seq<char>, i: int) -> int
    decreases s.len() - i,
    when 0 <= i <= s.len()
{
    if i < s.len() && is_ws(s[i]) {
        skip_ws(s, i + 1)
    } else {
        i
    }
}

pub proof fn lemma_skip_ws_bounds(s: Seq<char>, i: int)
    requires
        0 <= i <= s.len(),
    ensures
        i <= skip_ws(s, i) <= s.len(),
    decreases s.len() - i,
{
    if i < s.len() && is_ws(s[i]) {
        lemma_skip_ws_bounds(s, i + 1);
    }
}

/// The end of the number-character run starting at `j`.
pub open spec fn num_end(s: Seq<char>, j: int) -> int
    decreases s.len() - j,
    when 0 <= j <= s.len()
{
    if j < s.len() && is_num_char(s[j]) {
        num_end(s, j + 1)
    } else {
        j
    }
}

pub proof fn lemma_num_end_bounds(s: Seq<char>, j: int)
    requires
        0 <= j <= s.len(),
    ensures
        j <= num_end(s, j) <= s.len(),
    decreases s.len() - j,
{
    if j < s.len() && is_num_char(s[j]) {
        lemma_num_end_bounds(s, j + 1);
    }
}

/// The value of a hexadecimal digit, or `-1`.
pub open spec fn hex_val(c: char) -> int {
    if '0' <= c && c <= '9' {
        c as u32 as int - 48
    } else if 'a' <= c && c <= 'f' {
        c as u32 as int - 87
    } else if 'A' <= c && c <= 'F' {
        c as u32 as int - 55
    } else {
        -1
    }
}

/// A code point a `char` may carry.
pub open spec fn valid_code_point(n: int) -> bool {
    (0 <= n && n < 0xD800) || (0xE000 <= n && n <= 0x10FFFF)
}

/// The parse of a string literal's body from `i` (just after the opening
/// quote): its characters and the position after the closing quote.
pub open spec fn spec_parse_strbody(s: Seq<char>, i: int) -> Option<(Seq<char>, int)>
    decreases s.len() - i,
    when 0 <= i
{
    if i >= s.len() {
        None
    } else if s[i] == '"' {
        Some((Seq::empty(), i + 1))
    } else if s[i] == '\\' {
        if i + 1 >= s.len() {
            None
        } else {
            let e = s[i + 1];
            if e == 'u' {
                if i + 6 <= s.len() && hex_val(s[i + 2]) >= 0 && hex_val(s[i + 3]) >= 0 && hex_val(
                    s[i + 4],
                ) >= 0 && hex_val(s[i + 5]) >= 0 && valid_code_point(
                    hex_val(s[i + 2]) * 4096 + hex_val(s[i + 3]) * 256 + hex_val(s[i + 4]) * 16
                        + hex_val(s[i + 5]),
                ) {
                    let c = (hex_val(s[i + 2]) * 4096 + hex_val(s[i + 3]) * 256 + hex_val(s[i + 4])
                        * 16 + hex_val(s[i + 5])) as char;
                    match spec_parse_strbody(s, i + 6) {
                        Some((rest, e2)) => Some((seq![c] + rest, e2)),
                        None => None,
                    }
                } else {
                    None
                }
            } else {
                let c = if e == '"' {
                    '"'
                } else if e == '\\' {
                    '\\'
                } else if e == '/' {
                    '/'
                } else if e == 'n' {
                    '\n'
                } else if e == 'r' {
                    '\r'
                } else if e == 't' {
                    '\t'
                } else if e == 'b' {
                    8 as char
                } else if e == 'f' {
                    12 as char
                } else {
                    ' '
                };
                if e == '"' || e == '\\' || e == '/' || e == 'n' || e == 'r' || e == 't' || e
                    == 'b' || e == 'f' {
                    match spec_parse_strbody(s, i + 2) {
                        Some((rest, e2)) => Some((seq![c] + rest, e2)),
                        None => None,
                    }
                } else {
                    None
                }
            }
        }
    } else {
        match spec_parse_strbody(s, i + 1) {
            Some((rest, e2)) => Some((seq![s[i]] + rest, e2)),
            None => None,
        }
    }
}

/// A position forced into the range `[lo, hi]`.
pub open spec fn clamp(e: int, lo: int, hi: int) -> int {
    if lo > hi {
        hi
    } else if e < lo {
        lo
    } else if e > hi {
        hi
    } else {
        e
    }
}

/// The parse of one JSON value starting at the first non-whitespace
/// position at or after `i`: the value and the position just past it.
pub open spec fn spec_parse(s: Seq<char>, i: int) -> Option<(SpecVal, int)>
    decreases s.len() - i, 0int,
    when 0 <= i <= s.len()
    via spec_parse_dec
{
    let j = skip_ws(s, i);
    if j >= s.len() {
        None
    } else if s[j] == '"' {
        match spec_parse_strbody(s, j + 1) {
            Some((cs, e)) => Some((SpecVal::Str(cs), e)),
            None => None,
        }
    } else if s[j] == '[' {
        let j2 = skip_ws(s, j + 1);
        if j2 < s.len() && s[j2] == ']' {
            Some((SpecVal::Arr(Seq::empty()), j2 + 1))
        } else {
            match spec_parse_elems(s, j + 1) {
                Some((elems, e)) => Some((SpecVal::Arr(elems), e)),
                None => None,
            }
        }
    } else if s[j] == '{' {
        let j2 = skip_ws(s, j + 1);
        if j2 < s.len() && s[j2] == '}' {
            Some((SpecVal::Obj(Seq::empty()), j2 + 1))
        } else {
            match spec_parse_members(s, j + 1, Seq::empty()) {
                Some((es, e)) => Some((SpecVal::Obj(es), e)),
                None => None,
            }
        }
    } else if s[j] == 't' {
        if j + 4 <= s.len() && s[j + 1] == 'r' && s[j + 2] == 'u' && s[j + 3] == 'e' {
            Some((SpecVal::Bool(true), j + 4))
        } else {
            None
        }
    } else if s[j] == 'f' {
        if j + 5 <= s.len() && s[j + 1] == 'a' && s[j + 2] == 'l' && s[j + 3] == 's' && s[j + 4]
            == 'e' {
            Some((SpecVal::Bool(false), j + 5))
        } else {
            None
        }
    } else if s[j] == 'n' {
        if j + 4 <= s.len() && s[j + 1] == 'u' && s[j + 2] == 'l' && s[j + 3] == 'l' {
            Some((SpecVal::Null, j + 4))
        } else {
            None
        }
    } else if is_digit(s[j]) || s[j] == '-' {
        let e = num_end(s, j);
        if num_token_wf(s.subrange(j, e)) {
            Some((SpecVal::Num(s.subrange(j, e)), e))
        } else {
            None
        }
    } else {
        None
    }
}

/// The parse of the elements of a non-empty array, from just after `[` or a
/// comma: the remaining elements and the position past the closing bracket.
pub open spec fn spec_parse_elems(s: Seq<char>, i: int) -> Option<(Seq<SpecVal>, int)>
    decreases s.len() - i, 1int,
    when 0 <= i <= s.len()
    via spec_parse_elems_dec
{
    match spec_parse(s, i) {
        None => None,
        Some((v, e)) => {
            let j = skip_ws(s, clamp(e, i + 1, s.len() as int));
            if j < s.len() && s[j] == ',' {
                match spec_parse_elems(s, j + 1) {
                    Some((rest, e3)) => Some((seq![v] + rest, e3)),
                    None => None,
                }
            } else if j < s.len() && s[j] == ']' {
                Some((seq![v], j + 1))
            } else {
                None
            }
        },
    }
}

/// The parse of the members of a non-empty object, from just after `{` or a
/// comma, folding each into the accumulated entries: later keys overwrite
/// earlier ones, and the entries stay sorted.
pub open spec fn spec_parse_members(
    s: Seq<char>,
    i: int,
    acc: Seq<(Seq<char>, SpecVal)>,
) -> Option<(Seq<(Seq<char>, SpecVal)>, int)>
    decreases s.len() - i, 1int,
    when 0 <= i <= s.len()
    via spec_parse_members_dec
{
    let j = skip_ws(s, i);
    if j >= s.len() || s[j] != '"' {
        None
    } else {
        match spec_parse_strbody(s, j + 1) {
            None => None,
            Some((k, e)) => {
                let c = skip_ws(s, clamp(e, i + 1, s.len() as int));
                if c < s.len() && s[c] == ':' {
                    match spec_parse(s, c + 1) {
                        None => None,
                        Some((v, e3)) => {
                            let j2 = skip_ws(s, clamp(e3, c + 1, s.len() as int));
                            let acc2 = spec_obj_insert(acc, k, v);
                            if j2 < s.len() && s[j2] == ',' {
                                spec_parse_members(s, j2 + 1, acc2)
                            } else if j2 < s.len() && s[j2] == '}' {
                                Some((acc2, j2 + 1))
                            } else {
                                None
                            }
                        },
                    }
                } else {
                    None
                }
            },
        }
    }
}

#[via_fn]
proof fn spec_parse_dec(s: Seq<char>, i: int) {
    lemma_skip_ws_all(s);
    let j = skip_ws(s, i);
    if 0 <= j < s.len() {
        if is_digit(s[j]) || s[j] == '-' {
            lemma_num_end_bounds(s, j);
        }
    }
}

#[via_fn]
proof fn spec_parse_elems_dec(s: Seq<char>, i: int) {
    lemma_skip_ws_all(s);
}

#[via_fn]
proof fn spec_parse_members_dec(s: Seq<char>, i: int, acc: Seq<(Seq<char>, SpecVal)>) {
    lemma_skip_ws_all(s);
}

/// Whitespace skipping stays inside the text.
proof fn lemma_skip_ws_all(s: Seq<char>)
    ensures
        forall|x: int| 0 <= x <= s.len() ==> x <= #[trigger] skip_ws(s, x) <= s.len(),
{
    assert forall|x: int| 0 <= x <= s.len() implies x <= #[trigger] skip_ws(s, x) <= s.len() by {
        lemma_skip_ws_bounds(s, x);
    }
}


/// Relies on core's `char::from_u32`: a valid code point converts to that
/// character, and nothing else converts.
#[verifier::external_body]
fn char_of_u32(n: u32) -> (r: Option<char>)
    ensures
        valid_code_point(n as int) ==> r == Some(n as char),
        !valid_code_point(n as int) ==> r is None,
{
    char::from_u32(n)
}

/// Finds the first non-whitespace position at or after `i`.
fn skip_ws_exec(s: &Vec<char>, i: usize) -> (j: usize)
    requires
        i <= s@.len(),
    ensures
        j as int == skip_ws(s@, i as int),
        i <= j <= s@.len(),
{
    proof {
        lemma_skip_ws_bounds(s@, i as int);
    }
    let mut cur = i;
    while cur < s.len()
        invariant
            i <= cur <= s@.len(),
            skip_ws(s@, i as int) == skip_ws(s@, cur as int),
        decreases s@.len() - cur,
    {
        let c = s[cur];
        if !(c == ' ' || c == '\n' || c == '\t' || c == '\r') {
            return cur;
        }
        proof {
            lemma_skip_ws_bounds(s@, cur as int);
        }
        cur += 1;
    }
    cur
}

/// Finds the end of the number-character run starting at `j`.
fn num_run_end(s: &Vec<char>, j: usize) -> (e: usize)
    requires
        j <= s@.len(),
    ensures
        e as int == num_end(s@, j as int),
        j <= e <= s@.len(),
{
    proof {
        lemma_num_end_bounds(s@, j as int);
    }
    let mut cur = j;
    while cur < s.len()
        invariant
            j <= cur <= s@.len(),
            num_end(s@, j as int) == num_end(s@, cur as int),
        decreases s@.len() - cur,
    {
        let c = s[cur];
        let cu = c as u32;
        let numeric = (cu >= '0' as u32 && cu <= '9' as u32) || c == '-' || c == '+' || c == '.'
            || c == 'e' || c == 'E';
        if !numeric {
            assert(!is_num_char(s@[cur as int]));
            return cur;
        }
        proof {
            lemma_num_end_bounds(s@, cur as int);
        }
        cur += 1;
    }
    cur
}

/// Reads one hexadecimal digit.
fn hex_digit_val(c: char) -> (r: i32)
    ensures
        r as int == hex_val(c),
{
    if c >= '0' && c <= '9' {
        (c as u32 - 48) as i32
    } else if c >= 'a' && c <= 'f' {
        (c as u32 - 87) as i32
    } else if c >= 'A' && c <= 'F' {
        (c as u32 - 55) as i32
    } else {
        -1
    }
}

/// Reads a string literal's body, decoding its escapes.
fn parse_strbody_exec(s: &Vec<char>, i: usize) -> (r: Option<(Vec<char>, usize)>)
    requires
        i <= s@.len(),
    ensures
        match r {
            Some((cs, e)) => spec_parse_strbody(s@, i as int) == Some((cs@, e as int)) && i < e
                <= s@.len(),
            None => spec_parse_strbody(s@, i as int) is None,
        },
    decreases s@.len() - i,
{
    if i >= s.len() {
        return None;
    }
    let c = s[i];
    if c == '"' {
        let out: Vec<char> = Vec::new();
        proof {
            assert(out@ =~= Seq::<char>::empty());
        }
        return Some((out, i + 1));
    }
    if c == '\\' {
        if i + 1 >= s.len() {
            return None;
        }
        let e = s[i + 1];
        if e == 'u' {
            if !(s.len() - i >= 6) {
                return None;
            }
            let h1 = hex_digit_val(s[i + 2]);
            let h2 = hex_digit_val(s[i + 3]);
            let h3 = hex_digit_val(s[i + 4]);
            let h4 = hex_digit_val(s[i + 5]);
            if h1 < 0 || h2 < 0 || h3 < 0 || h4 < 0 {
                return None;
            }
            let code: u32 = (h1 as u32) * 4096 + (h2 as u32) * 256 + (h3 as u32) * 16 + (h4 as u32);
            let decoded = match char_of_u32(code) {
                Some(d) => d,
                None => {
                    return None;
                },
            };
            match parse_strbody_exec(s, i + 6) {
                Some((mut rest, e2)) => {
                    rest.insert(0, decoded);
                    proof {
                        assert(rest@ =~= seq![decoded] + rest@.drop_first());
                    }
                    Some((rest, e2))
                },
                None => None,
            }
        } else {
            let decoded = if e == '"' {
                '"'
            } else if e == '\\' {
                '\\'
            } else if e == '/' {
                '/'
            } else if e == 'n' {
                '\n'
            } else if e == 'r' {
                '\r'
            } else if e == 't' {
                '\t'
            } else if e == 'b' {
                8u8 as char
            } else if e == 'f' {
                12u8 as char
            } else {
                return None;
            };
            match parse_strbody_exec(s, i + 2) {
                Some((mut rest, e2)) => {
                    rest.insert(0, decoded);
                    proof {
                        assert(rest@ =~= seq![decoded] + rest@.drop_first());
                    }
                    Some((rest, e2))
                },
                None => None,
            }
        }
    } else {
        match parse_strbody_exec(s, i + 1) {
            Some((mut rest, e2)) => {
                rest.insert(0, c);
                proof {
                    assert(rest@ =~= seq![c] + rest@.drop_first());
                }
                Some((rest, e2))
            },
            None => None,
        }
    }
}

/// Reads one JSON value starting at the first non-whitespace position at or
/// after `i`.
#[verifier::loop_isolation(false)]
#[verifier::rlimit(100)]
pub fn parse_value_exec(s: &Vec<char>, i: usize) -> (r: Option<(JsonVal, usize)>)
    requires
        i <= s@.len(),
    ensures
        match r {
            Some((v, e)) => spec_parse(s@, i as int) == Some((v@, e as int)) && i < e <= s@.len()
                && wf(v@),
            None => spec_parse(s@, i as int) is None,
        },
    decreases s@.len() - i, 0int,
{
    broadcast use crate::json::lemma_arr_node_view, crate::json::lemma_obj_node_view;

    let j = skip_ws_exec(s, i);
    if j >= s.len() {
        return None;
    }
    let c = s[j];
    if c == '"' {
        match parse_strbody_exec(s, j + 1) {
            Some((cs, e)) => Some((JsonVal::Str(cs), e)),
            None => None,
        }
    } else if c == '[' {
        let j2 = skip_ws_exec(s, j + 1);
        if j2 < s.len() && s[j2] == ']' {
            let v = JsonVal::Arr(Vec::new());
            proof {
                assert(v@->Arr_0 =~= Seq::<SpecVal>::empty());
            }
            Some((v, j2 + 1))
        } else {
            match parse_elems_exec(s, j + 1) {
                Some((elems, e)) => {
                    let ghost gels = crate::json::arr_view(elems@);
                    let v = JsonVal::Arr(elems);
                    Some((v, e))
                },
                None => None,
            }
        }
    } else if c == '{' {
        let j2 = skip_ws_exec(s, j + 1);
        if j2 < s.len() && s[j2] == '}' {
            let v = JsonVal::Obj(Vec::new());
            proof {
                assert(v@->Obj_0 =~= Seq::<(Seq<char>, SpecVal)>::empty());
            }
            Some((v, j2 + 1))
        } else {
            let acc: Vec<(Vec<char>, JsonVal)> = Vec::new();
            proof {
                assert(entries_view(acc@) =~= Seq::<(Seq<char>, SpecVal)>::empty());
            }
            match parse_members_exec(s, j + 1, acc) {
                Some((es, e)) => {
                    let v = JsonVal::Obj(es);
                    Some((v, e))
                },
                None => None,
            }
        }
    } else if c == 't' {
        if s.len() - j >= 4 && s[j + 1] == 'r' && s[j + 2] == 'u' && s[j + 3] == 'e' {
            Some((JsonVal::Bool(true), j + 4))
        } else {
            None
        }
    } else if c == 'f' {
        if s.len() - j >= 5 && s[j + 1] == 'a' && s[j + 2] == 'l' && s[j + 3] == 's' && s[j + 4]
            == 'e' {
            Some((JsonVal::Bool(false), j + 5))
        } else {
            None
        }
    } else if c == 'n' {
        if s.len() - j >= 4 && s[j + 1] == 'u' && s[j + 2] == 'l' && s[j + 3] == 'l' {
            Some((JsonVal::Null, j + 4))
        } else {
            None
        }
    } else {
        let cu = c as u32;
        if (cu >= '0' as u32 && cu <= '9' as u32) || c == '-' {
            let e = num_run_end(s, j);
            let token = subvec(s, j, e);
            let ok = token.len() > 0 && {
                let t0 = token[0] as u32;
                (t0 >= '0' as u32 && t0 <= '9' as u32) || token[0] == '-'
            } && all_num_chars(&token);
            if ok {
                proof {
                    assert(token@ =~= s@.subrange(j as int, e as int));
                }
                Some((JsonVal::Num(token), e))
            } else {
                assert(!num_token_wf(s@.subrange(j as int, e as int)));
                None
            }
        } else {
            assert(!(is_digit(s@[j as int]) || s@[j as int] == '-'));
            None
        }
    }
}

/// Every character is a number character.
fn all_num_chars(t: &Vec<char>) -> (r: bool)
    ensures
        r == (forall|k: int| 0 <= k < t@.len() ==> is_num_char(#[trigger] t@[k])),
{
    let mut k: usize = 0;
    while k < t.len()
        invariant
            k <= t@.len(),
            forall|m: int| 0 <= m < k ==> is_num_char(#[trigger] t@[m]),
        decreases t@.len() - k,
    {
        let c = t[k];
        let cu = c as u32;
        let numeric = (cu >= '0' as u32 && cu <= '9' as u32) || c == '-' || c == '+' || c == '.'
            || c == 'e' || c == 'E';
        if !numeric {
            assert(!is_num_char(t@[k as int]));
            return false;
        }
        k += 1;
    }
    true
}

/// Reads the elements of a non-empty array, from just after `[` or a comma.
#[verifier::loop_isolation(false)]
fn parse_elems_exec(s: &Vec<char>, i: usize) -> (r: Option<(Vec<JsonVal>, usize)>)
    requires
        i <= s@.len(),
    ensures
        match r {
            Some((elems, e)) => spec_parse_elems(s@, i as int) == Some(
                (crate::json::arr_view(elems@), e as int),
            ) && i < e <= s@.len() && (forall|k: int| 0 <= k < crate::json::arr_view(elems@).len()
                ==> wf(#[trigger] crate::json::arr_view(elems@)[k])),
            None => spec_parse_elems(s@, i as int) is None,
        },
    decreases s@.len() - i, 1int,
{
    let (v, e) = match parse_value_exec(s, i) {
        Some(p) => p,
        None => {
            return None;
        },
    };
    proof {
        assert(clamp(e as int, i + 1, s@.len() as int) == e as int);
    }
    let j = skip_ws_exec(s, e);
    if j < s.len() && s[j] == ',' {
        match parse_elems_exec(s, j + 1) {
            Some((mut rest, e3)) => {
                let ghost grest = crate::json::arr_view(rest@);
                rest.insert(0, v);
                proof {
                    assert(crate::json::arr_view(rest@) =~= seq![v@] + grest);
                }
                Some((rest, e3))
            },
            None => None,
        }
    } else if j < s.len() && s[j] == ']' {
        let mut out: Vec<JsonVal> = Vec::new();
        out.push(v);
        proof {
            assert(crate::json::arr_view(out@) =~= seq![out@[0]@]);
        }
        Some((out, j + 1))
    } else {
        None
    }
}

/// Reads the members of a non-empty object, from just after `{` or a comma,
/// folding each into the accumulated entries.
#[verifier::loop_isolation(false)]
fn parse_members_exec(s: &Vec<char>, i: usize, acc: Vec<(Vec<char>, JsonVal)>) -> (r: Option<
    (Vec<(Vec<char>, JsonVal)>, usize),
>)
    requires
        i <= s@.len(),
        entries_sorted(entries_view(acc@)),
        forall|k: int| 0 <= k < entries_view(acc@).len() ==> wf(
            (#[trigger] entries_view(acc@)[k]).1,
        ),
    ensures
        match r {
            Some((es, e)) => spec_parse_members(s@, i as int, entries_view(acc@)) == Some(
                (entries_view(es@), e as int),
            ) && i < e <= s@.len() && entries_sorted(entries_view(es@)) && (forall|k: int|
                0 <= k < entries_view(es@).len() ==> wf((#[trigger] entries_view(es@)[k]).1)),
            None => spec_parse_members(s@, i as int, entries_view(acc@)) is None,
        },
    decreases s@.len() - i, 1int,
{
    let ghost gacc = entries_view(acc@);
    let j = skip_ws_exec(s, i);
    if j >= s.len() {
        return None;
    }
    if s[j] != '"' {
        return None;
    }
    let (k, e) = match parse_strbody_exec(s, j + 1) {
        Some(p) => p,
        None => {
            return None;
        },
    };
    proof {
        assert(clamp(e as int, i + 1, s@.len() as int) == e as int);
    }
    let c = skip_ws_exec(s, e);
    if !(c < s.len() && s[c] == ':') {
        return None;
    }
    let (v, e3) = match parse_value_exec(s, c + 1) {
        Some(p) => p,
        None => {
            return None;
        },
    };
    proof {
        assert(clamp(e3 as int, c + 1, s@.len() as int) == e3 as int);
    }
    let j2 = skip_ws_exec(s, e3);
    let mut acc = acc;
    let ghost gval = v@;
    let ghost gkey = k@;
    crate::json::obj_insert(&mut acc, k, v);
    proof {
        assert forall|q: int| 0 <= q < entries_view(acc@).len() implies wf(
            (#[trigger] entries_view(acc@)[q]).1,
        ) by {
            crate::cut::lemma_insert_values_wf(gacc, gkey, gval, q);
        }
    }
    if j2 < s.len() && s[j2] == ',' {
        parse_members_exec(s, j2 + 1, acc)
    } else if j2 < s.len() && s[j2] == '}' {
        Some((acc, j2 + 1))
    } else {
        None
    }
}

/// The parse of a whole document: one value with nothing but whitespace
/// after it.
pub open spec fn spec_parse_doc(s: Seq<char>) -> Option<SpecVal> {
    match spec_parse(s, 0) {
        Some((v, e)) => if skip_ws(s, clamp(e, 0, s.len() as int)) == s.len() {
            Some(v)
        } else {
            None
        },
        None => None,
    }
}

/// Parses JSON text into a document.
pub fn parse_json(text: &str) -> (r: Result<JsonVal, FrError>)
    ensures
        match r {
            Ok(v) => spec_parse_doc(text@) == Some(v@) && wf(v@),
            Err(e) => spec_parse_doc(text@) is None && e@ == SpecErr::Serde(
                "invalid JSON document"@,
            ),
        },
{
    let s = chars_of(text);
    match parse_value_exec(&s, 0) {
        Some((v, e)) => {
            proof {
                assert(clamp(e as int, 0, s@.len() as int) == e as int);
            }
            let j = skip_ws_exec(&s, e);
            if j == s.len() {
                Ok(v)
            } else {
                Err(FrError::Serde("invalid JSON document".to_owned()))
            }
        },
        None => Err(FrError::Serde("invalid JSON document".to_owned())),
    }
}

} // verus!
