//! The library's general laws, proved once over the spec functions that the
//! public contracts use.

use vstd::prelude::*;
use crate::cut::{
    is_esc_at, is_name_char, is_var_at, name_end, lemma_name_end_bounds, spec_scan,
    spec_write_match, valid_var_name, var_pattern_of, SpecMatch,
};
use crate::error::SpecErr;
use crate::json::{spec_obj_get, SpecVal};
use crate::reel::{spec_basename, spec_parse_meta, spec_stem, split_dots};
use crate::text::{find_last, find_last_from, is_digit, is_sub_at};

verus! {

broadcast use vstd::std_specs::vec::group_vec_axioms;

/// A name opening with a digit is never a valid register variable name.
pub proof fn lemma_digit_name_rejected(n: Seq<char>)
    requires
        n.len() > 0,
        is_digit(n[0]),
    ensures
        !valid_var_name(n),
{
}

/// Below the only occurrence, scanning down finds it.
proof fn lemma_find_last_unique(s: Seq<char>, pat: Seq<char>, q0: int, i: int)
    requires
        is_sub_at(s, q0, pat),
        forall|q: int| q0 < q ==> !is_sub_at(s, q, pat),
        q0 <= i <= s.len() - pat.len(),
    ensures
        find_last_from(s, pat, i) == q0,
    decreases i - q0,
{
    if i > q0 {
        assert(!is_sub_at(s, i, pat));
        lemma_find_last_unique(s, pat, q0, i - 1);
    }
}

/// Capturing with a surrounding literal: where the frame-side string is a
/// prefix, the one variable occurrence and a dollar-free suffix, and the
/// payload repeats prefix and suffix around a middle, the write match
/// captures exactly that middle.
pub proof fn lemma_write_match_extracts(
    var: Seq<char>,
    pre: Seq<char>,
    suf: Seq<char>,
    payload: Seq<char>,
)
    requires
        valid_var_name(var),
        forall|i: int| 0 <= i < suf.len() ==> suf[i] != '$',
        payload.len() >= pre.len() + suf.len(),
        payload.take(pre.len() as int) == pre,
        payload.skip(payload.len() - suf.len()) == suf,
    ensures
        spec_write_match(var, pre + var_pattern_of(var) + suf, payload) == Ok::<
            Option<Seq<char>>,
            SpecErr,
        >(Some(payload.subrange(pre.len() as int, payload.len() - suf.len()))),
{
    let pat = var_pattern_of(var);
    let f = pre + pat + suf;
    reveal_strlit("${");
    reveal_strlit("}");
    assert(pat.len() == var.len() + 3);
    assert(pat[0] == '$');
    assert(pat[1] == '{');
    assert(pat[pat.len() - 1] == '}');
    assert forall|j: int| 2 <= j < pat.len() - 1 implies is_name_char(#[trigger] pat[j]) by {
        assert(pat[j] == var[j - 2]);
    }
    let q0 = pre.len() as int;
    assert(is_sub_at(f, q0, pat)) by {
        assert(f.subrange(q0, q0 + pat.len()) =~= pat);
    }
    assert forall|q: int| q0 < q implies !is_sub_at(f, q, pat) by {
        if is_sub_at(f, q, pat) {
            assert(f.subrange(q, q + pat.len())[0] == f[q]);
            assert(f[q] == '$');
            if q < q0 + pat.len() {
                assert(f[q] == pat[q - q0]);
                if q - q0 == 1 {
                    assert(pat[1] == '{');
                } else if q - q0 == pat.len() - 1 {
                    assert(pat[pat.len() - 1] == '}');
                } else {
                    assert(is_name_char(pat[q - q0]));
                }
                assert(false);
            } else {
                assert(f[q] == suf[q - q0 - pat.len()]);
                assert(false);
            }
        }
    }
    assert(f.len() - pat.len() >= q0);
    lemma_find_last_unique(f, pat, q0, f.len() - pat.len());
    assert(find_last(f, pat) == q0);
    let head = f.subrange(0, q0);
    let tail = f.subrange(q0 + pat.len(), f.len() as int);
    assert(head =~= pre);
    assert(tail =~= suf);
    assert(payload.subrange(0, head.len() as int) =~= payload.take(pre.len() as int));
    assert(payload.subrange(payload.len() - tail.len(), payload.len() as int) =~= payload.skip(
        payload.len() - suf.len(),
    ));
}

/// A dotted join: the inverse of `split_dots`.
pub open spec fn join_dots(ps: Seq<Seq<char>>) -> Seq<char>
    decreases ps.len(),
    when ps.len() >= 1
{
    if ps.len() == 1 {
        ps[0]
    } else {
        ps[0] + seq!['.'] + join_dots(ps.drop_first())
    }
}

/// Splitting on dots keeps all the text: joining the parts again restores
/// the original.
pub proof fn lemma_split_join(s: Seq<char>)
    ensures
        split_dots(s).len() >= 1,
        join_dots(split_dots(s)) == s,
    decreases s.len(),
{
    if s.len() == 0 {
        assert(join_dots(split_dots(s)) =~= s);
    } else {
        lemma_split_join(s.drop_first());
        let r = split_dots(s.drop_first());
        if s[0] == '.' {
            assert(split_dots(s) == seq![Seq::<char>::empty()] + r);
            assert(split_dots(s).drop_first() =~= r);
            assert(split_dots(s)[0] =~= Seq::<char>::empty());
            assert(join_dots(split_dots(s)) =~= seq![s[0]] + join_dots(r));
            assert(seq![s[0]] + s.drop_first() =~= s);
        } else {
            assert(split_dots(s) == seq![seq![s[0]] + r[0]] + r.drop_first());
            if r.len() == 1 {
                assert(split_dots(s).len() == 1);
                assert(join_dots(split_dots(s)) == seq![s[0]] + r[0]);
                assert(join_dots(r) == r[0]);
                assert(seq![s[0]] + r[0] =~= s);
            } else {
                assert(split_dots(s).drop_first() =~= r.drop_first());
                assert(join_dots(split_dots(s)) == (seq![s[0]] + r[0]) + seq!['.'] + join_dots(
                    r.drop_first(),
                ));
                assert(join_dots(r) == r[0] + seq!['.'] + join_dots(r.drop_first()));
                assert((seq![s[0]] + r[0]) + seq!['.'] + join_dots(r.drop_first()) =~= seq![s[0]]
                    + (r[0] + seq!['.'] + join_dots(r.drop_first())));
                assert(seq![s[0]] + s.drop_first() =~= s);
            }
        }
    }
}

/// Round trip of a frame's filename: the reel name, sequence token and
/// command name read out of a frame file's name rebuild that name exactly.
pub proof fn lemma_meta_filename_roundtrip(p: Seq<char>)
    requires
        spec_parse_meta(p) is Ok,
        spec_basename(p).len() >= 8,
        spec_basename(p).subrange(
            spec_basename(p).len() - 8,
            spec_basename(p).len() as int,
        ) == ".fr.json"@,
    ensures
        ({
            let m = spec_parse_meta(p)->Ok_0;
            m.0 + "."@ + m.1 + "."@ + m.4 + ".fr.json"@ == spec_basename(p)
        }),
{
    let f = spec_basename(p);
    let stem = spec_stem(f);
    let parts = split_dots(stem);
    lemma_split_join(stem);
    assert(parts.len() == 3);
    assert(join_dots(parts) == stem);
    assert(parts.drop_first().len() == 2);
    assert(join_dots(parts) == parts[0] + seq!['.'] + join_dots(parts.drop_first()));
    assert(join_dots(parts.drop_first()) == parts.drop_first()[0] + seq!['.'] + join_dots(
        parts.drop_first().drop_first(),
    ));
    assert(parts.drop_first()[0] == parts[1]);
    assert(parts.drop_first().drop_first().len() == 1);
    assert(join_dots(parts.drop_first().drop_first()) == parts.drop_first().drop_first()[0]);
    assert(parts.drop_first().drop_first()[0] == parts[2]);
    reveal_strlit(".");
    assert("."@ =~= seq!['.']);
    assert(stem =~= parts[0] + "."@ + parts[1] + "."@ + parts[2]);
    assert(f =~= stem + ".fr.json"@) by {
        assert(stem == f.take(f.len() - 8));
    }
    assert(parts[0] + "."@ + parts[1] + "."@ + parts[2] + ".fr.json"@ =~= f);
}


/// A known variable occurrence stands at `q`: the text `${NAME}` with a
/// name the register holds.
pub open spec fn var_occurrence_at(
    s: Seq<char>,
    es: Seq<(Seq<char>, SpecVal)>,
    q: int,
) -> bool {
    &&& 0 <= q
    &&& q + 2 < s.len()
    &&& s[q] == '$'
    &&& s[q + 1] == '{'
    &&& is_name_char(s[q + 2])
    &&& name_end(s, q + 2) < s.len()
    &&& s[name_end(s, q + 2)] == '}'
    &&& spec_obj_get(es, s.subrange(q + 2, name_end(s, q + 2))) is Some
}

/// Completeness of the read-match scan: in a backslash-free string, every
/// occurrence of `${NAME}` whose name the register holds is reported as a
/// variable match, with its exact range and the register's value.
pub proof fn lemma_scan_complete(
    s: Seq<char>,
    es: Seq<(Seq<char>, SpecVal)>,
    i: int,
    q: int,
)
    requires
        0 <= i <= q,
        forall|j: int| 0 <= j < s.len() ==> s[j] != '\\',
        spec_scan(s, es, i) is Ok,
        var_occurrence_at(s, es, q),
    ensures
        ({
            let sms = spec_scan(s, es, i)->Ok_0;
            let ne = name_end(s, q + 2);
            let name = s.subrange(q + 2, ne);
            exists|k: int| 0 <= k < sms.len() && sms[k] == SpecMatch::Variable {
                name,
                value: spec_obj_get(es, name)->0,
                start: q,
                end: ne + 1,
            }
        }),
    decreases s.len() - i,
{
    let sms = spec_scan(s, es, i)->Ok_0;
    let qne = name_end(s, q + 2);
    let qname = s.subrange(q + 2, qne);
    let witness = SpecMatch::Variable {
        name: qname,
        value: spec_obj_get(es, qname)->0,
        start: q,
        end: qne + 1,
    };
    lemma_name_end_bounds(s, q + 2);
    if i >= s.len() {
        assert(false);
    } else if is_esc_at(s, i) {
        assert(s[i] == '\\');
        assert(false);
    } else if is_var_at(s, i) {
        let ne = name_end(s, i + 2);
        lemma_name_end_bounds(s, i + 2);
        assert(ne < s.len() && s[ne] == '}') by {
            if !(ne < s.len() && s[ne] == '}') {
                assert(spec_scan(s, es, i) is Err);
            }
        }
        let name = s.subrange(i + 2, ne);
        if q == i {
            assert(ne == qne);
            assert(name == qname);
            match spec_obj_get(es, name) {
                Some(v) => {
                    let rest = spec_scan(s, es, ne + 1)->Ok_0;
                    assert(sms == seq![
                        SpecMatch::Variable { name, value: v, start: i, end: ne + 1 },
                    ] + rest);
                    assert(sms[0] == witness);
                },
                None => {
                    assert(false);
                },
            }
        } else {
            // the next occurrence starts past this token: the token's
            // interior holds no dollar sign
            assert(q >= ne + 1) by {
                if q < ne + 1 {
                    assert(i < q);
                    if q == i + 1 {
                        assert(s[i + 1] == '{');
                    } else if q < ne {
                        lemma_name_run_chars(s, i + 2, q);
                        assert(is_name_char(s[q]));
                    } else {
                        assert(q == ne);
                        assert(s[ne] == '}');
                    }
                    assert(s[q] == '$');
                    assert(false);
                }
            }
            match spec_obj_get(es, name) {
                Some(v) => {
                    lemma_scan_complete(s, es, ne + 1, q);
                    let rest = spec_scan(s, es, ne + 1)->Ok_0;
                    let k = choose|k: int| 0 <= k < rest.len() && rest[k] == witness;
                    assert(sms == seq![
                        SpecMatch::Variable { name, value: v, start: i, end: ne + 1 },
                    ] + rest);
                    assert(sms[k + 1] == witness);
                },
                None => {
                    lemma_scan_complete(s, es, ne + 1, q);
                },
            }
        }
    } else {
        if q == i {
            assert(is_var_at(s, i));
            assert(false);
        }
        lemma_scan_complete(s, es, i + 1, q);
    }
}

/// Inside a name run, every character is a name character.
proof fn lemma_name_run_chars(s: Seq<char>, j: int, k: int)
    requires
        0 <= j <= s.len(),
        j <= k < name_end(s, j),
    ensures
        is_name_char(s[k]),
    decreases s.len() - j,
{
    lemma_name_end_bounds(s, j);
    if j < s.len() && is_name_char(s[j]) {
        if k > j {
            lemma_name_run_chars(s, j + 1, k);
        }
    }
}

} // verus!
