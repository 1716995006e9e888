//! The selector language: a dotted path of single-quoted keys and bracketed
//! indices that reads or rewrites a sub-value of a JSON document.

use vstd::prelude::*;
use crate::error::{FrError, SpecErr};
use crate::json::{arr_view, entries_view, lemma_arr_node_view, lemma_obj_node_view, obj_get, spec_obj_get, JsonVal, SpecVal};
use crate::text::{chars_of, digits_val, is_digit, parse_u32, subvec};

verus! {

broadcast use vstd::std_specs::vec::group_vec_axioms;

/// Mathematical model of one selector step.
#[verifier::ext_equal]
pub enum SpecStep {
    Key(Seq<char>),
    Index(int),
}

/// One selector step: an object key or an array index.
pub enum SelStep {
    Key(Vec<char>),
    Index(usize),
}

impl View for SelStep {
    type V = SpecStep;

    open spec fn view(&self) -> SpecStep {
        match self {
            SelStep::Key(k) => SpecStep::Key(k@),
            SelStep::Index(i) => SpecStep::Index(*i as int),
        }
    }
}

/// The models of a step list.
pub open spec fn steps_view(ss: Seq<SelStep>) -> Seq<SpecStep> {
    Seq::new(ss.len(), |i: int| if 0 <= i < ss.len() { ss[i]@ } else { SpecStep::Index(0) })
}

/// The end of a quoted key token starting right after the opening quote:
/// the position of the first quote not preceded by a backslash.
pub open spec fn quote_end(s: Seq<char>, i: int) -> int
    decreases s.len() - i,
    when 0 <= i <= s.len()
{
    if i >= s.len() {
        i
    } else if s[i] == '\'' {
        i
    } else if s[i] == '\\' && i + 1 < s.len() && s[i + 1] == '\'' {
        quote_end(s, i + 2)
    } else {
        quote_end(s, i + 1)
    }
}

proof fn lemma_quote_end_bounds(s: Seq<char>, i: int)
    requires
        0 <= i <= s.len(),
    ensures
        i <= quote_end(s, i) <= s.len(),
    decreases s.len() - i,
{
    if i < s.len() && s[i] != '\'' {
        if s[i] == '\\' && i + 1 < s.len() && s[i + 1] == '\'' {
            if i + 2 <= s.len() {
                lemma_quote_end_bounds(s, i + 2);
            }
        } else {
            lemma_quote_end_bounds(s, i + 1);
        }
    }
}

/// The decoded text of a quoted key: `\'` becomes `'`.
pub open spec fn unescape_key(s: Seq<char>) -> Seq<char>
    decreases s.len(),
{
    if s.len() == 0 {
        s
    } else if s[0] == '\\' && s.len() >= 2 && s[1] == '\'' {
        seq!['\''] + unescape_key(s.skip(2))
    } else {
        seq![s[0]] + unescape_key(s.skip(1))
    }
}

/// Decodes a quoted key's raw text.
fn unescape_key_chars(s: &Vec<char>) -> (r: Vec<char>)
    ensures
        r@ == unescape_key(s@),
{
    let mut out: Vec<char> = Vec::new();
    let mut i: usize = 0;
    proof {
        assert(s@.skip(0) =~= s@);
    }
    while i < s.len()
        invariant
            i <= s@.len(),
            unescape_key(s@) =~= out@ + unescape_key(s@.skip(i as int)),
        decreases s@.len() - i,
    {
        let ghost gi = i as int;
        if s[i] == '\\' && i + 1 < s.len() && s[i + 1] == '\'' {
            proof {
                assert(s@.skip(gi)[0] == s@[gi]);
                assert(s@.skip(gi)[1] == s@[gi + 1]);
                assert(s@.skip(gi).skip(2) =~= s@.skip(gi + 2));
            }
            out.push('\'');
            i += 2;
        } else {
            proof {
                assert(s@.skip(gi)[0] == s@[gi]);
                assert(s@.skip(gi).skip(1) =~= s@.skip(gi + 1));
            }
            out.push(s[i]);
            i += 1;
        }
    }
    proof {
        assert(s@.skip(s@.len() as int) =~= Seq::<char>::empty());
    }
    out
}

/// The parse of a selector from position `i` on: the remaining steps, or
/// `Err(true)` for an empty quoted key, `Err(false)` for any other fault.
pub open spec fn spec_parse_steps(s: Seq<char>, i: int) -> Result<Seq<SpecStep>, bool>
    decreases s.len() - i,
    when 0 <= i
    via spec_parse_steps_dec
{
    if i >= s.len() {
        Err(false)
    } else if s[i] == '\'' {
        let e = quote_end(s, i + 1);
        if e >= s.len() {
            Err(false)
        } else if e == i + 1 {
            Err(true)
        } else {
            let key = unescape_key(s.subrange(i + 1, e));
            if e + 1 >= s.len() {
                Ok(seq![SpecStep::Key(key)])
            } else if s[e + 1] == '.' {
                match spec_parse_steps(s, e + 2) {
                    Ok(rest) => Ok(seq![SpecStep::Key(key)] + rest),
                    Err(b) => Err(b),
                }
            } else {
                Err(false)
            }
        }
    } else if s[i] == '[' {
        let e = digits_end(s, i + 1);
        if e == i + 1 {
            Err(false)
        } else if !(e < s.len() && s[e] == ']') {
            Err(false)
        } else if digits_val(s.subrange(i + 1, e)) > u32::MAX {
            Err(false)
        } else {
            let idx = SpecStep::Index(digits_val(s.subrange(i + 1, e)) as int);
            if e + 1 >= s.len() {
                Ok(seq![idx])
            } else if s[e + 1] == '.' {
                match spec_parse_steps(s, e + 2) {
                    Ok(rest) => Ok(seq![idx] + rest),
                    Err(b) => Err(b),
                }
            } else {
                Err(false)
            }
        }
    } else {
        Err(false)
    }
}

#[via_fn]
proof fn spec_parse_steps_dec(s: Seq<char>, i: int) {
    if 0 <= i < s.len() {
        if s[i] == '\'' {
            lemma_quote_end_bounds(s, i + 1);
        } else if s[i] == '[' {
            lemma_digits_end_bounds(s, i + 1);
        }
    }
}

/// End of the digit run starting at `j`.
pub open spec fn digits_end(s: Seq<char>, j: int) -> int
    decreases s.len() - j,
    when 0 <= j <= s.len()
{
    if j < s.len() && is_digit(s[j]) {
        digits_end(s, j + 1)
    } else {
        j
    }
}

proof fn lemma_digits_end_bounds(s: Seq<char>, j: int)
    requires
        0 <= j <= s.len(),
    ensures
        j <= digits_end(s, j) <= s.len(),
    decreases s.len() - j,
{
    if j < s.len() && is_digit(s[j]) {
        lemma_digits_end_bounds(s, j + 1);
    }
}

/// The parse of a whole selector: a bare or leading dot selects the root.
pub open spec fn spec_parse_selector(s: Seq<char>) -> Result<Seq<SpecStep>, bool> {
    if s.len() == 0 {
        Err(true)
    } else if s.len() == 1 && s[0] == '.' {
        Ok(Seq::empty())
    } else if s[0] == '.' {
        spec_parse_steps(s, 1)
    } else {
        spec_parse_steps(s, 0)
    }
}

fn digits_run_end(s: &Vec<char>, j: usize) -> (e: usize)
    requires
        j <= s@.len(),
    ensures
        e as int == digits_end(s@, j as int),
        j <= e <= s@.len(),
{
    proof {
        lemma_digits_end_bounds(s@, j as int);
    }
    let mut cur = j;
    while cur < s.len()
        invariant
            j <= cur <= s@.len(),
            digits_end(s@, j as int) == digits_end(s@, cur as int),
        decreases s@.len() - cur,
    {
        let cu = s[cur] as u32;
        if cu < '0' as u32 || cu > '9' as u32 {
            assert(!is_digit(s@[cur as int]));
            return cur;
        }
        proof {
            lemma_digits_end_bounds(s@, cur as int);
        }
        cur += 1;
    }
    cur
}

fn quote_run_end(s: &Vec<char>, j: usize) -> (e: usize)
    requires
        j <= s@.len(),
    ensures
        e as int == quote_end(s@, j as int),
        j <= e <= s@.len(),
{
    proof {
        lemma_quote_end_bounds(s@, j as int);
    }
    let mut cur = j;
    while cur < s.len()
        invariant
            j <= cur <= s@.len(),
            quote_end(s@, j as int) == quote_end(s@, cur as int),
        decreases s@.len() - cur,
    {
        if s[cur] == '\'' {
            return cur;
        }
        proof {
            lemma_quote_end_bounds(s@, cur as int);
        }
        if s[cur] == '\\' && cur + 1 < s.len() && s[cur + 1] == '\'' {
            proof {
                lemma_quote_end_bounds(s@, cur as int + 2);
            }
            cur += 2;
        } else {
            cur += 1;
        }
    }
    cur
}

/// One parsed step placed before the rest.
proof fn lemma_steps_cons(ss: Seq<SelStep>, st: SelStep)
    ensures
        steps_view(ss.insert(0, st)) == seq![st@] + steps_view(ss),
{
    assert(steps_view(ss.insert(0, st)) =~= seq![st@] + steps_view(ss));
}

/// Parses the steps of a selector from position `i` on. `Err(true)` marks an
/// empty key or query; `Err(false)` any other malformed text.
fn parse_steps(s: &Vec<char>, i: usize) -> (r: Result<Vec<SelStep>, bool>)
    ensures
        match r {
            Ok(ss) => spec_parse_steps(s@, i as int) == Ok::<Seq<SpecStep>, bool>(steps_view(ss@)),
            Err(b) => spec_parse_steps(s@, i as int) == Err::<Seq<SpecStep>, bool>(b),
        },
    decreases s@.len() - i,
{
    if i >= s.len() {
        return Err(false);
    }
    if s[i] == '\'' {
        let e = quote_run_end(s, i + 1);
        if e >= s.len() {
            return Err(false);
        }
        if e == i + 1 {
            return Err(true);
        }
        let raw = subvec(s, i + 1, e);
        let key = unescape_key_chars(&raw);
        let st = SelStep::Key(key);
        if e + 1 >= s.len() {
            let mut out: Vec<SelStep> = Vec::new();
            out.push(st);
            proof {
                assert(steps_view(out@) =~= seq![out@[0]@]);
            }
            return Ok(out);
        }
        if s[e + 1] == '.' {
            match parse_steps(s, e + 2) {
                Ok(mut rest) => {
                    proof {
                        lemma_steps_cons(rest@, st);
                    }
                    rest.insert(0, st);
                    Ok(rest)
                },
                Err(b) => Err(b),
            }
        } else {
            Err(false)
        }
    } else if s[i] == '[' {
        let e = digits_run_end(s, i + 1);
        if e == i + 1 {
            return Err(false);
        }
        if !(e < s.len() && s[e] == ']') {
            return Err(false);
        }
        let digits = subvec(s, i + 1, e);
        let idx = match parse_u32(&digits) {
            Some(n) => n,
            None => {
                proof {
                    assert forall|j: int| 0 <= j < digits@.len() implies is_digit(
                        #[trigger] digits@[j],
                    ) by {
                        lemma_digits_end_all(s@, i + 1, j + i + 1);
                    }
                }
                return Err(false);
            },
        };
        let st = SelStep::Index(idx as usize);
        if e + 1 >= s.len() {
            let mut out: Vec<SelStep> = Vec::new();
            out.push(st);
            proof {
                assert(steps_view(out@) =~= seq![out@[0]@]);
            }
            return Ok(out);
        }
        if s[e + 1] == '.' {
            match parse_steps(s, e + 2) {
                Ok(mut rest) => {
                    proof {
                        lemma_steps_cons(rest@, st);
                    }
                    rest.insert(0, st);
                    Ok(rest)
                },
                Err(b) => Err(b),
            }
        } else {
            Err(false)
        }
    } else {
        Err(false)
    }
}

/// Parses a selector query into its steps. An empty query, an empty quoted
/// key, or any text outside the grammar is rejected.
pub fn parse_selector(query: &str) -> (r: Result<Vec<SelStep>, FrError>)
    ensures
        match r {
            Ok(ss) => spec_parse_selector(query@) == Ok::<Seq<SpecStep>, bool>(steps_view(ss@)),
            Err(e) => spec_parse_selector(query@) is Err && e@ == (if spec_parse_selector(
                query@,
            )->Err_0 {
                SpecErr::ReadInstruction("validation selector cannot have an empty query"@)
            } else {
                SpecErr::Parse("selector parse error"@)
            }),
        },
{
    let s = chars_of(query);
    if s.len() == 0 {
        return Err(FrError::ReadInstruction("validation selector cannot have an empty query"));
    }
    if s.len() == 1 && s[0] == '.' {
        let out: Vec<SelStep> = Vec::new();
        proof {
            assert(steps_view(out@) =~= Seq::<SpecStep>::empty());
        }
        return Ok(out);
    }
    let from: usize = if s[0] == '.' {
        1
    } else {
        0
    };
    match parse_steps(&s, from) {
        Ok(ss) => Ok(ss),
        Err(true) => Err(
            FrError::ReadInstruction("validation selector cannot have an empty query"),
        ),
        Err(false) => Err(FrError::Parse("selector parse error".to_owned())),
    }
}

proof fn lemma_steps_push(ss: Seq<SelStep>, st: SelStep)
    ensures
        steps_view(ss.push(st)) == steps_view(ss).push(st@),
{
    assert(steps_view(ss.push(st)) =~= steps_view(ss).push(st@));
}

/// Digits run: every character before its end is a digit.
proof fn lemma_digits_end_all(s: Seq<char>, j: int, k: int)
    requires
        0 <= j <= s.len(),
        j <= k < digits_end(s, j),
    ensures
        is_digit(s[k]),
    decreases s.len() - j,
{
    lemma_digits_end_bounds(s, j);
    if j < s.len() && is_digit(s[j]) {
        if k > j {
            lemma_digits_end_all(s, j + 1, k);
        }
    }
}

/// The sub-value of `v` selected by the steps from `i` on: a key step reads
/// an object field, an index step reads an array element; anything else is
/// no selection.
pub open spec fn spec_select(v: SpecVal, steps: Seq<SpecStep>, i: int) -> Option<SpecVal>
    decreases steps.len() - i,
    when 0 <= i <= steps.len()
{
    if i >= steps.len() {
        Some(v)
    } else {
        match steps[i] {
            SpecStep::Key(k) => match v {
                SpecVal::Obj(es) => match spec_obj_get(es, k) {
                    Some(sub) => spec_select(sub, steps, i + 1),
                    None => None,
                },
                _ => None,
            },
            SpecStep::Index(n) => match v {
                SpecVal::Arr(a) => if 0 <= n < a.len() {
                    spec_select(a[n], steps, i + 1)
                } else {
                    None
                },
                _ => None,
            },
        }
    }
}

/// Walks the steps from `i` on, returning the selected sub-value.
pub fn select_at<'a>(v: &'a JsonVal, steps: &Vec<SelStep>, i: usize) -> (r: Option<&'a JsonVal>)
    requires
        i <= steps@.len(),
    ensures
        match r {
            Some(sub) => spec_select(v@, steps_view(steps@), i as int) == Some(sub@),
            None => spec_select(v@, steps_view(steps@), i as int) is None,
        },
    decreases steps@.len() - i,
{
    if i == steps.len() {
        return Some(v);
    }
    match &steps[i] {
        SelStep::Key(k) => match v {
            JsonVal::Obj(es) => {
                proof {
                    lemma_obj_node_view(*es);
                }
                match obj_get(es, k) {
                    Some(sub) => select_at(sub, steps, i + 1),
                    None => None,
                }
            },
            _ => None,
        },
        SelStep::Index(n) => match v {
            JsonVal::Arr(a) => {
                proof {
                    lemma_arr_node_view(*a);
                }
                if *n < a.len() {
                    let r = select_at(&a[*n], steps, i + 1);
                    proof {
                        assert(arr_view(a@)[*n as int] == a@[*n as int]@);
                    }
                    r
                } else {
                    None
                }
            },
            _ => None,
        },
    }
}

/// The outcome of compiling and applying a selector query to a value.
pub open spec fn spec_select_value(v: SpecVal, q: Seq<char>) -> Result<SpecVal, SpecErr> {
    match spec_parse_selector(q) {
        Err(empty) => if empty {
            Err(SpecErr::ReadInstruction("validation selector cannot have an empty query"@))
        } else {
            Err(SpecErr::Parse("selector parse error"@))
        },
        Ok(steps) => match spec_select(v, steps, 0) {
            Some(sub) => Ok(sub),
            None => Err(
                SpecErr::ReadInstructionf("get_jql_value did not return a selection: {}"@, q),
            ),
        },
    }
}

/// Compiles and applies a selector: the selected sub-value, cloned, or an
/// error when the query is malformed or selects nothing.
pub fn select_value(val: &JsonVal, query: &str) -> (r: Result<JsonVal, FrError>)
    ensures
        match r {
            Ok(sub) => spec_select_value(val@, query@) == Ok::<SpecVal, SpecErr>(sub@),
            Err(e) => spec_select_value(val@, query@) == Err::<SpecVal, SpecErr>(e@),
        },
{
    let steps = match parse_selector(query) {
        Ok(ss) => ss,
        Err(e) => {
            return Err(e);
        },
    };
    match select_at(val, &steps, 0) {
        Some(sub) => Ok(sub.duplicate()),
        None => Err(
            FrError::ReadInstructionf(
                "get_jql_value did not return a selection: {}",
                query.to_owned(),
            ),
        ),
    }
}


/// The first position of `k` among entries, or `-1`.
pub open spec fn spec_obj_index(es: Seq<(Seq<char>, SpecVal)>, k: Seq<char>) -> int
    decreases es.len(),
{
    if es.len() == 0 {
        -1
    } else if es[0].0 == k {
        0
    } else if spec_obj_index(es.drop_first(), k) < 0 {
        -1
    } else {
        spec_obj_index(es.drop_first(), k) + 1
    }
}

/// Where the first `p` keys differ from `k` and `es[p].0 == k`, the first
/// position of `k` is `p`.
pub proof fn lemma_obj_index_positional(es: Seq<(Seq<char>, SpecVal)>, k: Seq<char>, p: int)
    requires
        0 <= p < es.len(),
        forall|i: int| 0 <= i < p ==> (#[trigger] es[i]).0 != k,
        es[p].0 == k,
    ensures
        spec_obj_index(es, k) == p,
    decreases p,
{
    if p > 0 {
        let tail = es.drop_first();
        assert forall|i: int| 0 <= i < p - 1 implies (#[trigger] tail[i]).0 != k by {
            assert(tail[i] == es[i + 1]);
        }
        assert(tail[p - 1] == es[p]);
        lemma_obj_index_positional(tail, k, p - 1);
    }
}

/// A key absent from every entry has no position.
pub proof fn lemma_obj_index_absent(es: Seq<(Seq<char>, SpecVal)>, k: Seq<char>)
    requires
        forall|i: int| 0 <= i < es.len() ==> (#[trigger] es[i]).0 != k,
    ensures
        spec_obj_index(es, k) == -1,
    decreases es.len(),
{
    if es.len() > 0 {
        let tail = es.drop_first();
        assert forall|i: int| 0 <= i < tail.len() implies (#[trigger] tail[i]).0 != k by {
            assert(tail[i] == es[i + 1]);
        }
        lemma_obj_index_absent(tail, k);
    }
}

/// `v` with the sub-value selected by the steps from `i` on replaced by
/// `nv`; no change is possible where the steps select nothing.
pub open spec fn spec_replace(v: SpecVal, steps: Seq<SpecStep>, i: int, nv: SpecVal) -> Option<
    SpecVal,
>
    decreases steps.len() - i,
    when 0 <= i <= steps.len()
{
    if i >= steps.len() {
        Some(nv)
    } else {
        match steps[i] {
            SpecStep::Key(k) => match v {
                SpecVal::Obj(es) => {
                    let p = spec_obj_index(es, k);
                    if p < 0 {
                        None
                    } else {
                        match spec_replace(es[p].1, steps, i + 1, nv) {
                            Some(sub) => Some(SpecVal::Obj(es.update(p, (k, sub)))),
                            None => None,
                        }
                    }
                },
                _ => None,
            },
            SpecStep::Index(n) => match v {
                SpecVal::Arr(a) => if 0 <= n < a.len() {
                    match spec_replace(a[n], steps, i + 1, nv) {
                        Some(sub) => Some(SpecVal::Arr(a.update(n, sub))),
                        None => None,
                    }
                } else {
                    None
                },
                _ => None,
            },
        }
    }
}

/// Replaces the sub-value selected by the steps from `i` on with `nv`,
/// rebuilding the document. The untouched document comes back when the steps
/// select nothing.
#[verifier::loop_isolation(false)]
pub fn replace_at(v: JsonVal, steps: &Vec<SelStep>, i: usize, nv: JsonVal) -> (r: (JsonVal, bool))
    requires
        i <= steps@.len(),
        crate::json::wf(v@),
        crate::json::wf(nv@),
    ensures
        r.1 ==> spec_replace(v@, steps_view(steps@), i as int, nv@) == Some(r.0@),
        !r.1 ==> r.0@ == v@ && spec_replace(v@, steps_view(steps@), i as int, nv@) is None,
        crate::json::wf(r.0@),
    decreases steps@.len() - i,
{
    broadcast use lemma_arr_node_view, lemma_obj_node_view;

    if i == steps.len() {
        return (nv, true);
    }
    match &steps[i] {
        SelStep::Key(k) => match v {
            JsonVal::Obj(mut es) => {
                let ghost ges = entries_view(es@);
                let ghost gk = k@;
                assert(v@ == SpecVal::Obj(ges));
                let mut p: usize = 0;
                loop
                    invariant
                        p <= es@.len(),
                        ges == entries_view(es@),
                        forall|j: int| 0 <= j < p ==> (#[trigger] ges[j]).0 != gk,
                    decreases es@.len() - p,
                {
                    if p == es.len() {
                        proof {
                            lemma_obj_index_absent(ges, gk);
                            assert((JsonVal::Obj(es))@ == SpecVal::Obj(ges));
                        }
                        return (JsonVal::Obj(es), false);
                    }
                    proof {
                        assert(ges[p as int] == (es@[p as int].0@, es@[p as int].1@));
                    }
                    if crate::text::chars_eq(&es[p].0, k) {
                        proof {
                            lemma_obj_index_positional(ges, gk, p as int);
                            assert(crate::json::wf(ges[p as int].1));
                        }
                        let (key, sub) = es.remove(p);
                        assert(sub@ == ges[p as int].1);
                        let (nsub, ok) = replace_at(sub, steps, i + 1, nv);
                        es.insert(p, (key, nsub));
                        proof {
                            assert(entries_view(es@) =~= ges.update(p as int, (gk, nsub@)));
                            if ok {
                                assert(spec_replace(
                                    SpecVal::Obj(ges),
                                    steps_view(steps@),
                                    i as int,
                                    nv@,
                                ) == Some(SpecVal::Obj(ges.update(p as int, (gk, nsub@)))));
                            } else {
                                assert(ges.update(p as int, (gk, nsub@)) =~= ges);
                            }
                            let nes = entries_view(es@);
                            assert forall|a: int, b: int|
                                0 <= a < b < nes.len() implies crate::text::lex_lt(
                                nes[a].0,
                                nes[b].0,
                            ) by {
                                assert(nes[a].0 == ges[a].0);
                                assert(nes[b].0 == ges[b].0);
                            }
                            assert((JsonVal::Obj(es))@ == SpecVal::Obj(nes));
                        }
                        return (JsonVal::Obj(es), ok);
                    }
                    p += 1;
                }
            },
            other => (other, false),
        },
        SelStep::Index(n) => match v {
            JsonVal::Arr(mut a) => {
                let ghost ga = arr_view(a@);
                assert(v@ == SpecVal::Arr(ga));
                if *n >= a.len() {
                    return (JsonVal::Arr(a), false);
                }
                let el = a.remove(*n);
                assert(el@ == ga[*n as int]);
                let (nel, ok) = replace_at(el, steps, i + 1, nv);
                a.insert(*n, nel);
                proof {
                    assert(arr_view(a@) =~= ga.update(*n as int, nel@));
                    if !ok {
                        assert(ga.update(*n as int, nel@) =~= ga);
                    }
                }
                (JsonVal::Arr(a), ok)
            },
            other => (other, false),
        },
    }
}

} // verus!
