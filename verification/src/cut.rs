//! The cut register: the named value store a reel's frames share, with its
//! read (template substitution) and write (value extraction) operations.

use vstd::prelude::*;
use crate::error::{FrError, SpecErr};
use crate::json::{
    entries_sorted, entries_view, lemma_get_cons,
    obj_get, obj_insert, obj_remove, spec_obj_get, spec_obj_insert, spec_obj_remove, wf, JsonVal,
    SpecVal,
};
use crate::text::{
    chars_eq, chars_of, contains_sub, has_sub, is_digit, lex_lt, spec_splice, splice_chars,
    string_of_chars, subvec,
};

verus! {

broadcast use vstd::std_specs::vec::group_vec_axioms;

/// Characters a `${NAME}` occurrence may contain.
pub open spec fn is_name_char(c: char) -> bool {
    is_digit(c) || ('A' <= c && c <= 'Z') || ('a' <= c && c <= 'z') || c == '_'
}

/// A valid register variable name: a letter or underscore followed by
/// letters, digits and underscores.
pub open spec fn valid_var_name(n: Seq<char>) -> bool {
    &&& n.len() > 0
    &&& (('A' <= n[0] && n[0] <= 'Z') || ('a' <= n[0] && n[0] <= 'z') || n[0] == '_')
    &&& forall|i: int| 0 <= i < n.len() ==> is_name_char(#[trigger] n[i])
}

/// An ignored name: entirely lowercase letters and underscores. Such keys are
/// flushed from the register after each successful frame.
pub open spec fn ignored_name(n: Seq<char>) -> bool {
    n.len() > 0 && forall|i: int| 0 <= i < n.len() ==> (('a' <= #[trigger] n[i] && n[i] <= 'z') || n[i] == '_')
}

/// A hidden name: starts with an underscore; masked in human-facing output.
pub open spec fn hidden_name(n: Seq<char>) -> bool {
    n.len() > 0 && n[0] == '_'
}

/// Decides `is_name_char`.
pub fn name_char(c: char) -> (r: bool)
    ensures
        r == is_name_char(c),
{
    (c >= '0' && c <= '9') || (c >= 'A' && c <= 'Z') || (c >= 'a' && c <= 'z') || c == '_'
}

/// Decides `valid_var_name`.
pub fn check_var_name(n: &Vec<char>) -> (r: bool)
    ensures
        r == valid_var_name(n@),
{
    if n.len() == 0 {
        return false;
    }
    let c0 = n[0];
    if !((c0 >= 'A' && c0 <= 'Z') || (c0 >= 'a' && c0 <= 'z') || c0 == '_') {
        return false;
    }
    let mut i: usize = 0;
    while i < n.len()
        invariant
            i <= n@.len(),
            forall|j: int| 0 <= j < i ==> is_name_char(#[trigger] n@[j]),
        decreases n@.len() - i,
    {
        if !name_char(n[i]) {
            return false;
        }
        i += 1;
    }
    true
}

/// Decides `ignored_name`.
pub fn check_ignored_name(n: &Vec<char>) -> (r: bool)
    ensures
        r == ignored_name(n@),
{
    if n.len() == 0 {
        return false;
    }
    let mut i: usize = 0;
    while i < n.len()
        invariant
            i <= n@.len(),
            forall|j: int| 0 <= j < i ==> (('a' <= #[trigger] n@[j] && n@[j] <= 'z') || n@[j] == '_'),
        decreases n@.len() - i,
    {
        let c = n[i];
        if !((c >= 'a' && c <= 'z') || c == '_') {
            return false;
        }
        i += 1;
    }
    true
}

/// The literal occurrence text of a variable: `${NAME}`.
pub open spec fn var_pattern_of(name: Seq<char>) -> Seq<char> {
    "${"@ + name + "}"@
}

/// Builds the `${NAME}` text of a variable.
pub fn var_pattern(name: &Vec<char>) -> (r: Vec<char>)
    ensures
        r@ == var_pattern_of(name@),
{
    let mut out = chars_of("${");
    let mut i: usize = 0;
    while i < name.len()
        invariant
            i <= name@.len(),
            out@ =~= "${"@ + name@.subrange(0, i as int),
        decreases name@.len() - i,
    {
        out.push(name[i]);
        proof {
            assert(out@ =~= "${"@ + name@.subrange(0, i + 1));
        }
        i += 1;
    }
    proof {
        assert(name@.subrange(0, name@.len() as int) =~= name@);
    }
    out.push('}');
    proof {
        reveal_strlit("}");
        assert(out@ =~= "${"@ + name@ + "}"@);
    }
    out
}

/// A half-open range of character positions.
#[derive(Clone, Copy, PartialEq, Eq, Structural, Debug)]
pub struct Span {
    pub start: usize,
    pub end: usize,
}

/// Mathematical model of a `Match`.
#[verifier::ext_equal]
pub enum SpecMatch {
    Escape { start: int, end: int },
    Variable { name: Seq<char>, value: SpecVal, start: int, end: int },
    Hide,
}

/// One occurrence found by a read-match scan: an escaped occurrence whose
/// backslash is to be removed, or a variable occurrence paired with the
/// register value to substitute. `Hide` masks a hidden variable.
#[derive(Debug)]
pub enum Match {
    Escape(Span),
    Variable { name: Vec<char>, value: JsonVal, range: Span },
    Hide,
}

impl View for Match {
    type V = SpecMatch;

    open spec fn view(&self) -> SpecMatch {
        match self {
            Match::Escape(sp) => SpecMatch::Escape { start: sp.start as int, end: sp.end as int },
            Match::Variable { name, value, range } => SpecMatch::Variable {
                name: name@,
                value: value@,
                start: range.start as int,
                end: range.end as int,
            },
            Match::Hide => SpecMatch::Hide,
        }
    }
}

impl Match {
    /// The variable name of a `Variable` match.
    pub fn name(&self) -> (r: Option<&Vec<char>>)
        ensures
            match r {
                Some(n) => self@ matches SpecMatch::Variable { name, .. } && n@ == name,
                None => !(self@ is Variable),
            },
    {
        match self {
            Match::Escape(_) => None,
            Match::Hide => None,
            Match::Variable { name, .. } => Some(name),
        }
    }
}

/// The register: the mutable store of named JSON values a reel's frames
/// share. Entries are kept sorted by name, so serialization is deterministic.
pub struct Register {
    vars: Vec<(Vec<char>, JsonVal)>,
}

impl View for Register {
    type V = Seq<(Seq<char>, SpecVal)>;

    closed spec fn view(&self) -> Seq<(Seq<char>, SpecVal)> {
        entries_view(self.vars@)
    }
}

impl Register {
    /// Entries sorted by name and every value well-formed.
    pub open spec fn inv(self) -> bool {
        &&& entries_sorted(self@)
        &&& forall|i: int| 0 <= i < self@.len() ==> wf(#[trigger] self@[i].1)
    }

    /// An empty register.
    pub fn new() -> (r: Register)
        ensures
            r@.len() == 0,
            r.inv(),
    {
        Register { vars: Vec::new() }
    }

    /// The value stored under `key`.
    pub fn get(&self, key: &str) -> (r: Option<&JsonVal>)
        ensures
            match r {
                Some(v) => spec_obj_get(self@, key@) == Some(v@),
                None => spec_obj_get(self@, key@) is None,
            },
    {
        let kv = chars_of(key);
        obj_get(&self.vars, &kv)
    }

    /// The key and value stored under `key`; the key comes back as text.
    pub fn get_key_value(&self, key: &str) -> (r: Option<(String, &JsonVal)>)
        ensures
            match r {
                Some(p) => p.0@ == key@ && spec_obj_get(self@, key@) == Some(p.1@),
                None => spec_obj_get(self@, key@) is None,
            },
    {
        let kv = chars_of(key);
        match obj_get(&self.vars, &kv) {
            Some(v) => Some((string_of_chars(&kv), v)),
            None => None,
        }
    }

    /// Whether the register holds `key`.
    pub fn contains_key(&self, key: &str) -> (r: bool)
        ensures
            r == (spec_obj_get(self@, key@) is Some),
    {
        self.get(key).is_some()
    }

    /// Every entry, sorted by name, names rendered as text.
    pub fn iter(&self) -> (r: Vec<(String, JsonVal)>)
        ensures
            r@.len() == self@.len(),
            forall|j: int| 0 <= j < r@.len() ==> (#[trigger] r@[j]).0@ == self@[j].0
                && r@[j].1@ == self@[j].1,
    {
        let mut out: Vec<(String, JsonVal)> = Vec::new();
        let mut i: usize = 0;
        while i < self.vars.len()
            invariant
                i <= self.vars@.len(),
                out@.len() == i,
                forall|j: int| 0 <= j < i ==> (#[trigger] out@[j]).0@ == self@[j].0
                    && out@[j].1@ == self@[j].1,
            decreases self.vars@.len() - i,
        {
            out.push((string_of_chars(&self.vars[i].0), self.vars[i].1.duplicate()));
            i += 1;
        }
        out
    }

    /// Inserts a value under a name the caller has already validated.
    fn insert_entry(&mut self, key: Vec<char>, val: JsonVal) -> (prev: Option<JsonVal>)
        requires
            old(self).inv(),
            wf(val@),
        ensures
            final(self)@ == spec_obj_insert(old(self)@, key@, val@),
            final(self).inv(),
            match prev {
                Some(pv) => spec_obj_get(old(self)@, key@) == Some(pv@),
                None => spec_obj_get(old(self)@, key@) is None,
            },
    {
        let ghost oldv = self@;
        let ghost gk = key@;
        let ghost gv = val@;
        let prev = obj_insert(&mut self.vars, key, val);
        proof {
            assert forall|i: int| 0 <= i < self@.len() implies wf(#[trigger] self@[i].1) by {
                lemma_insert_values_wf(oldv, gk, gv, i);
            }
        }
        prev
    }

    /// Stores `val` under `key`. Rejects a key that is not a valid variable
    /// name; otherwise overwrites and returns the previous value, if any.
    pub fn write_operation(&mut self, key: &str, val: JsonVal) -> (r: Result<
        Option<JsonVal>,
        FrError,
    >)
        requires
            old(self).inv(),
            wf(val@),
        ensures
            final(self).inv(),
            match r {
                Ok(prev) => {
                    &&& valid_var_name(key@)
                    &&& final(self)@ == spec_obj_insert(old(self)@, key@, val@)
                    &&& match prev {
                        Some(pv) => spec_obj_get(old(self)@, key@) == Some(pv@),
                        None => spec_obj_get(old(self)@, key@) is None,
                    }
                },
                Err(e) => {
                    &&& !valid_var_name(key@)
                    &&& final(self)@ == old(self)@
                    &&& e@ == SpecErr::FrameParsef(VAR_NAME_ERR@, key@)
                },
            },
    {
        let kv = chars_of(key);
        if !check_var_name(&kv) {
            return Err(FrError::FrameParsef(VAR_NAME_ERR, key.to_owned()));
        }
        Ok(self.insert_entry(kv, val))
    }

    /// Removes `key`, returning its value if it was present.
    fn remove_entry(&mut self, key: &Vec<char>) -> (prev: Option<JsonVal>)
        requires
            old(self).inv(),
        ensures
            final(self)@ == spec_obj_remove(old(self)@, key@),
            final(self).inv(),
            match prev {
                Some(pv) => spec_obj_get(old(self)@, key@) == Some(pv@),
                None => spec_obj_get(old(self)@, key@) is None,
            },
    {
        let ghost oldv = self@;
        let ghost gk = key@;
        let prev = obj_remove(&mut self.vars, key);
        proof {
            assert forall|i: int| 0 <= i < self@.len() implies wf(#[trigger] self@[i].1) by {
                lemma_remove_values_wf(oldv, gk, i);
            }
        }
        prev
    }
}

pub const VAR_NAME_ERR: &'static str =
    "Only alphanumeric characters and underscores are permitted in Cut Variable names, starting with a letter or underscore";

/// Values of an insert result are the inserted value or old values.
pub proof fn lemma_insert_values_wf(es: Seq<(Seq<char>, SpecVal)>, k: Seq<char>, v: SpecVal, i: int)
    requires
        forall|j: int| 0 <= j < es.len() ==> wf(#[trigger] es[j].1),
        wf(v),
        0 <= i < spec_obj_insert(es, k, v).len(),
    ensures
        wf(spec_obj_insert(es, k, v)[i].1),
    decreases es.len(),
{
    if es.len() == 0 {
    } else if lex_lt(k, es[0].0) {
    } else if es[0].0 == k {
    } else {
        if i > 0 {
            assert(spec_obj_insert(es, k, v)[i] == spec_obj_insert(es.drop_first(), k, v)[i - 1]);
            assert forall|j: int| 0 <= j < es.drop_first().len() implies wf(
                #[trigger] es.drop_first()[j].1,
            ) by {
                assert(es.drop_first()[j] == es[j + 1]);
            }
            lemma_insert_values_wf(es.drop_first(), k, v, i - 1);
        }
    }
}

/// Values of a removal result are old values.
pub proof fn lemma_remove_values_wf(es: Seq<(Seq<char>, SpecVal)>, k: Seq<char>, i: int)
    requires
        forall|j: int| 0 <= j < es.len() ==> wf(#[trigger] es[j].1),
        0 <= i < spec_obj_remove(es, k).len(),
    ensures
        wf(spec_obj_remove(es, k)[i].1),
    decreases es.len(),
{
    if es.len() == 0 {
    } else if es[0].0 == k {
        assert(spec_obj_remove(es, k)[i] == es[i + 1]);
    } else {
        if i > 0 {
            assert(spec_obj_remove(es, k)[i] == spec_obj_remove(es.drop_first(), k)[i - 1]);
            assert forall|j: int| 0 <= j < es.drop_first().len() implies wf(
                #[trigger] es.drop_first()[j].1,
            ) by {
                assert(es.drop_first()[j] == es[j + 1]);
            }
            lemma_remove_values_wf(es.drop_first(), k, i - 1);
        }
    }
}


/// The entries left after flushing: those whose name is not ignored.
pub open spec fn spec_flush(es: Seq<(Seq<char>, SpecVal)>) -> Seq<(Seq<char>, SpecVal)>
    decreases es.len(),
{
    if es.len() == 0 {
        es
    } else if ignored_name(es[0].0) {
        spec_flush(es.drop_first())
    } else {
        seq![es[0]] + spec_flush(es.drop_first())
    }
}

/// Flushing removes exactly the ignored names.
pub proof fn lemma_flush_get(es: Seq<(Seq<char>, SpecVal)>, k: Seq<char>)
    ensures
        spec_obj_get(spec_flush(es), k) == if ignored_name(k) {
            None::<SpecVal>
        } else {
            spec_obj_get(es, k)
        },
    decreases es.len(),
{
    if es.len() == 0 {
    } else {
        lemma_flush_get(es.drop_first(), k);
        if ignored_name(es[0].0) {
            if es[0].0 == k {
            }
        } else {
            lemma_get_cons(es[0], spec_flush(es.drop_first()), k);
        }
    }
}

/// No flushed entry carries an ignored name.
pub proof fn lemma_flush_none_ignored(es: Seq<(Seq<char>, SpecVal)>)
    ensures
        forall|i: int| 0 <= i < spec_flush(es).len() ==> !ignored_name(
            #[trigger] spec_flush(es)[i].0,
        ),
    decreases es.len(),
{
    if es.len() > 0 {
        lemma_flush_none_ignored(es.drop_first());
        if !ignored_name(es[0].0) {
            assert forall|i: int| 0 <= i < spec_flush(es).len() implies !ignored_name(
                #[trigger] spec_flush(es)[i].0,
            ) by {
                if i == 0 {
                    assert(spec_flush(es)[0] == es[0]);
                } else {
                    assert(spec_flush(es)[i] == spec_flush(es.drop_first())[i - 1]);
                }
            }
        } else {
            assert forall|i: int| 0 <= i < spec_flush(es).len() implies !ignored_name(
                #[trigger] spec_flush(es)[i].0,
            ) by {
                assert(spec_flush(es)[i] == spec_flush(es.drop_first())[i]);
            }
        }
    }
}

/// A strict lower bound on every key survives flushing.
proof fn lemma_flush_lower(es: Seq<(Seq<char>, SpecVal)>, x: Seq<char>)
    requires
        forall|i: int| 0 <= i < es.len() ==> lex_lt(x, (#[trigger] es[i]).0),
    ensures
        forall|j: int| 0 <= j < spec_flush(es).len() ==> lex_lt(x, (#[trigger] spec_flush(es)[j]).0),
    decreases es.len(),
{
    if es.len() > 0 {
        assert forall|i: int| 0 <= i < es.drop_first().len() implies lex_lt(
            x,
            (#[trigger] es.drop_first()[i]).0,
        ) by {
            assert(es.drop_first()[i] == es[i + 1]);
        }
        lemma_flush_lower(es.drop_first(), x);
        if !ignored_name(es[0].0) {
            assert forall|j: int| 0 <= j < spec_flush(es).len() implies lex_lt(
                x,
                (#[trigger] spec_flush(es)[j]).0,
            ) by {
                if j == 0 {
                    assert(spec_flush(es)[0] == es[0]);
                } else {
                    assert(spec_flush(es)[j] == spec_flush(es.drop_first())[j - 1]);
                }
            }
        } else {
            assert forall|j: int| 0 <= j < spec_flush(es).len() implies lex_lt(
                x,
                (#[trigger] spec_flush(es)[j]).0,
            ) by {
                assert(spec_flush(es)[j] == spec_flush(es.drop_first())[j]);
            }
        }
    }
}

/// Flushing a sorted entry list keeps it sorted, and keeps values well-formed.
proof fn lemma_flush_sorted(es: Seq<(Seq<char>, SpecVal)>)
    requires
        entries_sorted(es),
        forall|i: int| 0 <= i < es.len() ==> wf(#[trigger] es[i].1),
    ensures
        entries_sorted(spec_flush(es)),
        forall|i: int| 0 <= i < spec_flush(es).len() ==> wf(#[trigger] spec_flush(es)[i].1),
    decreases es.len(),
{
    if es.len() > 0 {
        let tail = es.drop_first();
        assert forall|i: int, j: int| 0 <= i < j < tail.len() implies lex_lt(
            (#[trigger] tail[i]).0,
            (#[trigger] tail[j]).0,
        ) by {
            assert(tail[i] == es[i + 1]);
            assert(tail[j] == es[j + 1]);
        }
        assert forall|i: int| 0 <= i < tail.len() implies wf(#[trigger] tail[i].1) by {
            assert(tail[i] == es[i + 1]);
        }
        lemma_flush_sorted(tail);
        if !ignored_name(es[0].0) {
            assert forall|i: int| 0 <= i < tail.len() implies lex_lt(es[0].0, (#[trigger] tail[i]).0) by {
                assert(tail[i] == es[i + 1]);
            }
            lemma_flush_lower(tail, es[0].0);
            let r = spec_flush(es);
            assert forall|i: int, j: int| 0 <= i < j < r.len() implies lex_lt(r[i].0, r[j].0) by {
                if i == 0 {
                    assert(r[0] == es[0]);
                    assert(r[j] == spec_flush(tail)[j - 1]);
                } else {
                    assert(r[i] == spec_flush(tail)[i - 1]);
                    assert(r[j] == spec_flush(tail)[j - 1]);
                }
            }
            assert forall|i: int| 0 <= i < r.len() implies wf(#[trigger] r[i].1) by {
                if i == 0 {
                    assert(r[0] == es[0]);
                } else {
                    assert(r[i] == spec_flush(tail)[i - 1]);
                }
            }
        }
    }
}

/// Entries of `other` folded into `base` front to back, later names winning.
pub open spec fn spec_merge_entries(
    base: Seq<(Seq<char>, SpecVal)>,
    other: Seq<(Seq<char>, SpecVal)>,
) -> Seq<(Seq<char>, SpecVal)>
    decreases other.len(),
{
    if other.len() == 0 {
        base
    } else {
        spec_merge_entries(spec_obj_insert(base, other[0].0, other[0].1), other.drop_first())
    }
}

/// The models of a list of registers.
pub open spec fn regs_view(rs: Seq<Register>) -> Seq<Seq<(Seq<char>, SpecVal)>> {
    Seq::new(rs.len(), |i: int| if 0 <= i < rs.len() { rs[i]@ } else { Seq::empty() })
}

/// A list of registers folded into `base` in order.
pub open spec fn spec_merge_list(
    base: Seq<(Seq<char>, SpecVal)>,
    list: Seq<Seq<(Seq<char>, SpecVal)>>,
) -> Seq<(Seq<char>, SpecVal)>
    decreases list.len(),
{
    if list.len() == 0 {
        base
    } else {
        spec_merge_list(spec_merge_entries(base, list[0]), list.drop_first())
    }
}

impl Register {
    /// Removes every entry whose name is ignored (entirely lowercase letters
    /// and underscores): such variables do not persist across frames.
    pub fn flush_ignored(&mut self)
        requires
            old(self).inv(),
        ensures
            final(self)@ == spec_flush(old(self)@),
            final(self).inv(),
            forall|i: int| 0 <= i < final(self)@.len() ==> !ignored_name(
                (#[trigger] final(self)@[i]).0,
            ),
            forall|k: Seq<char>| spec_obj_get(final(self)@, k) == if ignored_name(k) {
                None::<SpecVal>
            } else {
                spec_obj_get(old(self)@, k)
            },
    {
        let ghost ges = self@;
        let mut out: Vec<(Vec<char>, JsonVal)> = Vec::new();
        let mut i: usize = 0;
        proof {
            assert(ges.skip(0) =~= ges);
        }
        while i < self.vars.len()
            invariant
                i <= self.vars@.len(),
                ges == entries_view(self.vars@),
                spec_flush(ges) =~= entries_view(out@) + spec_flush(ges.skip(i as int)),
            decreases self.vars@.len() - i,
        {
            let ghost gi = i as int;
            proof {
                assert(ges.skip(gi)[0] == ges[gi]);
                assert(ges.skip(gi).drop_first() =~= ges.skip(gi + 1));
            }
            let keep = !check_ignored_name(&self.vars[i].0);
            if keep {
                let entry = (self.vars[i].0.clone(), self.vars[i].1.duplicate());
                out.push(entry);
                proof {
                    assert(entries_view(out@) =~= entries_view(out@.drop_last()).push(ges[gi]));
                    assert(entries_view(out@.drop_last()).push(ges[gi]) + spec_flush(ges.skip(gi + 1))
                        =~= entries_view(out@.drop_last()) + (seq![ges[gi]] + spec_flush(
                        ges.skip(gi + 1),
                    )));
                }
            }
            i += 1;
        }
        proof {
            assert(ges.skip(self.vars@.len() as int) =~= Seq::<(Seq<char>, SpecVal)>::empty());
            assert(entries_view(out@) + spec_flush(ges.skip(self.vars@.len() as int)) =~= entries_view(
                out@,
            ));
        }
        self.vars = out;
        proof {
            lemma_flush_sorted(ges);
            lemma_flush_none_ignored(ges);
            assert forall|k: Seq<char>|
                spec_obj_get(self@, k) == (if ignored_name(k) {
                    None::<SpecVal>
                } else {
                    spec_obj_get(ges, k)
                }) by {
                lemma_flush_get(ges, k);
            }
        }
    }

    /// Folds each register of `others`, in order, into this one: every entry
    /// of a later register overwrites an earlier entry under the same name.
    pub fn destructive_merge(&mut self, others: Vec<Register>)
        requires
            old(self).inv(),
            forall|i: int| 0 <= i < others@.len() ==> (#[trigger] others@[i]).inv(),
        ensures
            final(self)@ == spec_merge_list(old(self)@, regs_view(others@)),
            final(self).inv(),
    {
        let ghost glist = regs_view(others@);
        let ghost gbase = self@;
        let mut i: usize = 0;
        proof {
            assert(glist.skip(0) =~= glist);
        }
        while i < others.len()
            invariant
                i <= others@.len(),
                glist == regs_view(others@),
                self.inv(),
                spec_merge_list(self@, glist.skip(i as int)) == spec_merge_list(gbase, glist),
                forall|j: int| 0 <= j < others@.len() ==> (#[trigger] others@[j]).inv(),
            decreases others@.len() - i,
        {
            let ghost gi = i as int;
            let ghost before = self@;
            let ghost oes = others@[gi]@;
            proof {
                assert(glist.skip(gi)[0] == glist[gi]);
                assert(glist[gi] == oes);
                assert(glist.skip(gi).drop_first() =~= glist.skip(gi + 1));
                assert(oes.skip(0) =~= oes);
            }
            let other = &others[i];
            let mut j: usize = 0;
            while j < other.vars.len()
                invariant
                    j <= other.vars@.len(),
                    oes == entries_view(other.vars@),
                    self.inv(),
                    forall|n: int| 0 <= n < other.vars@.len() ==> wf(
                        (#[trigger] entries_view(other.vars@)[n]).1,
                    ),
                    spec_merge_entries(self@, oes.skip(j as int)) == spec_merge_entries(
                        before,
                        oes,
                    ),
                decreases other.vars@.len() - j,
            {
                let ghost gj = j as int;
                proof {
                    assert(oes.skip(gj)[0] == oes[gj]);
                    assert(oes.skip(gj).drop_first() =~= oes.skip(gj + 1));
                }
                let key = other.vars[j].0.clone();
                let val = other.vars[j].1.duplicate();
                self.insert_entry(key, val);
                j += 1;
            }
            proof {
                assert(oes.skip(other.vars@.len() as int) =~= Seq::<(Seq<char>, SpecVal)>::empty());
            }
            i += 1;
        }
        proof {
            assert(glist.skip(others@.len() as int) =~= Seq::<Seq<(Seq<char>, SpecVal)>>::empty());
        }
    }
}


/// End of the maximal run of name characters starting at `j`.
pub open spec fn name_end(s: Seq<char>, j: int) -> int
    decreases s.len() - j,
    when 0 <= j <= s.len()
{
    if j < s.len() && is_name_char(s[j]) {
        name_end(s, j + 1)
    } else {
        j
    }
}

pub proof fn lemma_name_end_bounds(s: Seq<char>, j: int)
    requires
        0 <= j <= s.len(),
    ensures
        j <= name_end(s, j) <= s.len(),
    decreases s.len() - j,
{
    if j < s.len() && is_name_char(s[j]) {
        lemma_name_end_bounds(s, j + 1);
    }
}

/// An escaped occurrence starts at `i`: a backslash directly before `${` and
/// at least one name character.
pub open spec fn is_esc_at(s: Seq<char>, i: int) -> bool {
    &&& i + 3 < s.len()
    &&& s[i] == '\\'
    &&& s[i + 1] == '$'
    &&& s[i + 2] == '{'
    &&& is_name_char(s[i + 3])
}

/// A plain occurrence starts at `i`: `${` and at least one name character.
pub open spec fn is_var_at(s: Seq<char>, i: int) -> bool {
    &&& i + 2 < s.len()
    &&& s[i] == '$'
    &&& s[i + 1] == '{'
    &&& is_name_char(s[i + 2])
}

/// The scan of `s` against register entries `es`, from position `i` on:
/// occurrences in ascending order, or the text of an occurrence whose closing
/// brace is missing. An escaped occurrence contributes its backslash only and
/// is otherwise left alone; a plain occurrence whose name the register holds
/// contributes a `Variable`; an unknown name is skipped silently.
pub open spec fn spec_scan(
    s: Seq<char>,
    es: Seq<(Seq<char>, SpecVal)>,
    i: int,
) -> Result<Seq<SpecMatch>, Seq<char>>
    decreases s.len() - i,
    when 0 <= i
    via spec_scan_dec
{
    if i >= s.len() {
        Ok(Seq::empty())
    } else if is_esc_at(s, i) {
        let ne = name_end(s, i + 3);
        let me = if ne < s.len() && s[ne] == '}' {
            ne + 1
        } else {
            ne
        };
        match spec_scan(s, es, me) {
            Ok(rest) => Ok(seq![SpecMatch::Escape { start: i, end: i + 1 }] + rest),
            Err(e) => Err(e),
        }
    } else if is_var_at(s, i) {
        let ne = name_end(s, i + 2);
        if !(ne < s.len() && s[ne] == '}') {
            Err(s.subrange(i, ne))
        } else {
            let name = s.subrange(i + 2, ne);
            match spec_obj_get(es, name) {
                Some(v) => match spec_scan(s, es, ne + 1) {
                    Ok(rest) => Ok(
                        seq![SpecMatch::Variable { name, value: v, start: i, end: ne + 1 }] + rest,
                    ),
                    Err(e) => Err(e),
                },
                None => spec_scan(s, es, ne + 1),
            }
        }
    } else {
        spec_scan(s, es, i + 1)
    }
}

#[via_fn]
proof fn spec_scan_dec(s: Seq<char>, es: Seq<(Seq<char>, SpecVal)>, i: int) {
    if 0 <= i < s.len() {
        if is_esc_at(s, i) {
            lemma_name_end_bounds(s, i + 3);
        } else if is_var_at(s, i) {
            lemma_name_end_bounds(s, i + 2);
        }
    }
}

/// The models of a list of matches.
pub open spec fn match_views(ms: Seq<Match>) -> Seq<SpecMatch> {
    Seq::new(ms.len(), |j: int| if 0 <= j < ms.len() { ms[j]@ } else { SpecMatch::Hide })
}

/// Prepends already-collected matches to the rest of a scan.
pub open spec fn scan_combine(
    acc: Seq<SpecMatch>,
    r: Result<Seq<SpecMatch>, Seq<char>>,
) -> Result<Seq<SpecMatch>, Seq<char>> {
    match r {
        Ok(rest) => Ok(acc + rest),
        Err(e) => Err(e),
    }
}

proof fn lemma_combine_step(
    acc: Seq<SpecMatch>,
    m: SpecMatch,
    r: Result<Seq<SpecMatch>, Seq<char>>,
)
    ensures
        scan_combine(
            acc,
            match r {
                Ok(rest) => Ok(seq![m] + rest),
                Err(e) => Err(e),
            },
        ) == scan_combine(acc.push(m), r),
{
    match r {
        Ok(rest) => {
            assert(acc + (seq![m] + rest) =~= acc.push(m) + rest);
        },
        Err(_) => {},
    }
}

proof fn lemma_mv_push(ms: Seq<Match>, m: Match)
    ensures
        match_views(ms.push(m)) == match_views(ms).push(m@),
{
    assert(match_views(ms.push(m)) =~= match_views(ms).push(m@));
}

/// End of the maximal run of name characters starting at `j`.
fn name_run_end(s: &Vec<char>, j: usize) -> (e: usize)
    requires
        j <= s@.len(),
    ensures
        e as int == name_end(s@, j as int),
        j <= e <= s@.len(),
{
    proof {
        lemma_name_end_bounds(s@, j as int);
    }
    let mut cur = j;
    while cur < s.len()
        invariant
            j <= cur <= s@.len(),
            name_end(s@, j as int) == name_end(s@, cur as int),
        decreases s@.len() - cur,
    {
        if !name_char(s[cur]) {
            return cur;
        }
        proof {
            lemma_name_end_bounds(s@, cur as int);
        }
        cur += 1;
    }
    cur
}

impl Register {
    /// Scans a string for `${NAME}` occurrences and escaped occurrences,
    /// returning the matches ordered by descending start position, so that a
    /// caller can apply them one by one without shifting later ranges. A
    /// missing closing brace is an error; an unknown name is skipped.
    #[verifier::loop_isolation(false)]
    pub fn read_match(&self, json_string: &str) -> (r: Result<Vec<Match>, FrError>)
        ensures
            ({
                let scan = spec_scan(json_string@, self@, 0);
                match r {
                    Ok(ms) => scan is Ok && {
                        let sms = scan->Ok_0;
                        &&& ms@.len() == sms.len()
                        &&& forall|j: int|
                            0 <= j < ms@.len() ==> (#[trigger] ms@[j])@ == sms[sms.len() - 1 - j]
                    },
                    Err(e) => scan is Err && e@ == SpecErr::FrameParsef(
                        "Missing trailing brace for Cut Variable"@,
                        scan->Err_0,
                    ),
                }
            }),
    {
        let s = chars_of(json_string);
        let ghost gs = s@;
        let ghost ges = self@;
        let mut acc: Vec<Match> = Vec::new();
        let mut i: usize = 0;
        while i < s.len()
            invariant
                i <= s@.len(),
                scan_combine(match_views(acc@), spec_scan(gs, ges, i as int)) == spec_scan(
                    gs,
                    ges,
                    0,
                ),
            decreases s@.len() - i,
        {
            let ghost gi = i as int;
            let len = s.len();
            let c = s[i];
            let esc = c == '\\' && len - i > 3 && s[i + 1] == '$' && s[i + 2] == '{' && name_char(
                s[i + 3],
            );
            if esc {
                assert(is_esc_at(gs, gi));
                let ne = name_run_end(&s, i + 3);
                let me = if ne < len && s[ne] == '}' {
                    ne + 1
                } else {
                    ne
                };
                let m = Match::Escape(Span { start: i, end: i + 1 });
                proof {
                    lemma_combine_step(match_views(acc@), m@, spec_scan(gs, ges, me as int));
                    lemma_mv_push(acc@, m);
                }
                acc.push(m);
                i = me;
            } else {
                let var = c == '$' && len - i > 2 && s[i + 1] == '{' && name_char(s[i + 2]);
                if var {
                    assert(is_var_at(gs, gi));
                    assert(!is_esc_at(gs, gi));
                    let ne = name_run_end(&s, i + 2);
                    if !(ne < len && s[ne] == '}') {
                        let item = subvec(&s, i, ne);
                        assert(spec_scan(gs, ges, gi) == Err::<Seq<SpecMatch>, Seq<char>>(
                            gs.subrange(gi, ne as int),
                        ));
                        return Err(
                            FrError::FrameParsef(
                                "Missing trailing brace for Cut Variable",
                                string_of_chars(&item),
                            ),
                        );
                    }
                    let name = subvec(&s, i + 2, ne);
                    let looked = obj_get(&self.vars, &name);
                    match looked {
                        Some(v) => {
                            let mval = v.duplicate();
                            let m = Match::Variable {
                                name,
                                value: mval,
                                range: Span { start: i, end: ne + 1 },
                            };
                            proof {
                                lemma_combine_step(
                                    match_views(acc@),
                                    m@,
                                    spec_scan(gs, ges, ne + 1),
                                );
                                lemma_mv_push(acc@, m);
                            }
                            acc.push(m);
                        },
                        None => {
                        },
                    }
                    i = ne + 1;
                } else {
                    assert(!is_esc_at(gs, gi));
                    assert(!is_var_at(gs, gi));
                    assert(spec_scan(gs, ges, gi) == spec_scan(gs, ges, gi + 1));
                    i = i + 1;
                }
            }
        }
        assert(spec_scan(gs, ges, i as int) == Ok::<Seq<SpecMatch>, Seq<char>>(Seq::empty()));
        proof {
            assert(match_views(acc@) + Seq::<SpecMatch>::empty() =~= match_views(acc@));
        }
        let ghost full = acc@;
        let n = acc.len();
        let mut out: Vec<Match> = Vec::new();
        while acc.len() > 0
            invariant
                out@.len() + acc@.len() == n,
                acc@ == full.take(acc@.len() as int),
                forall|k: int| 0 <= k < out@.len() ==> out@[k] == full[n - 1 - k],
            decreases acc@.len(),
        {
            let ghost before = acc@;
            let m = match acc.pop() {
                Some(m) => m,
                None => {
                    proof {
                        assert(false);
                    }
                    Match::Hide
                },
            };
            proof {
                assert(m == before.last());
                assert(before.last() == full[before.len() - 1]);
                assert(acc@ =~= full.take(acc@.len() as int));
            }
            out.push(m);
        }
        proof {
            assert forall|j: int| 0 <= j < out@.len() implies (#[trigger] out@[j])@ == match_views(
                full,
            )[full.len() - 1 - j] by {
                assert(out@[j] == full[n - 1 - j]);
            }
        }
        Ok(out)
    }
}

/// One match applied to a value: the escape deletes its backslash from a
/// string; a string variable splices its text into a string; another value
/// replaces a standalone `${NAME}` string whole; `Hide` masks the string.
pub open spec fn spec_read_op(
    es: Seq<(Seq<char>, SpecVal)>,
    m: SpecMatch,
    v: SpecVal,
    hide: bool,
) -> Result<SpecVal, SpecErr> {
    match m {
        SpecMatch::Escape { start, end } => match v {
            SpecVal::Str(t) => Ok(SpecVal::Str(spec_splice(t, start, end, Seq::empty()))),
            _ => Err(SpecErr::ReadInstruction("Match::Escape.value is a non string Value"@)),
        },
        SpecMatch::Hide => match v {
            SpecVal::Str(t) => Ok(SpecVal::Str("${_HIDDEN}"@)),
            _ => Err(SpecErr::ReadInstruction("Match::Hide.value is a non string Value"@)),
        },
        SpecMatch::Variable { name, value, start, end } => {
            if spec_obj_get(es, name) is None {
                Err(SpecErr::ReadInstructionf("Key not present in Cut Register"@, name))
            } else if hide && hidden_name(name) && (v matches SpecVal::Str(t) && has_sub(
                t,
                var_pattern_of(name),
            )) {
                Ok(SpecVal::Str("${_HIDDEN}"@))
            } else {
                match value {
                    SpecVal::Str(mt) => match v {
                        SpecVal::Str(t) => Ok(SpecVal::Str(spec_splice(t, start, end, mt))),
                        _ => Err(
                            SpecErr::ReadInstruction(
                                "Match::Variable given a non string value to replace"@,
                            ),
                        ),
                    },
                    _ => {
                        if v == SpecVal::Str(var_pattern_of(name)) {
                            Ok(value)
                        } else {
                            Err(
                                SpecErr::ReadInstruction(
                                    "Match::Variable with a non string value must replace a standalone variable declaration"@,
                                ),
                            )
                        }
                    },
                }
            }
        },
    }
}

impl Register {
    /// Applies one match to a value in place. With `hide_vars`, a hidden
    /// variable occurring in the target string is masked as `${_HIDDEN}`
    /// instead of substituted.
    pub fn read_operation(&self, mat: Match, value: &mut JsonVal, hide_vars: bool) -> (r: Result<
        (),
        FrError,
    >)
        requires
            match (mat@, old(value)@) {
                (SpecMatch::Escape { start, end }, SpecVal::Str(t)) => start <= end <= t.len(),
                (SpecMatch::Variable { value: mv, start, end, .. }, SpecVal::Str(t)) => mv is Str
                    ==> start <= end <= t.len(),
                _ => true,
            },
        ensures
            match r {
                Ok(_) => spec_read_op(self@, mat@, old(value)@, hide_vars) == Ok::<
                    SpecVal,
                    SpecErr,
                >(final(value)@),
                Err(e) => spec_read_op(self@, mat@, old(value)@, hide_vars) == Err::<
                    SpecVal,
                    SpecErr,
                >(e@) && final(value)@ == old(value)@,
            },
    {
        match mat {
            Match::Escape(sp) => match value {
                JsonVal::Str(t) => {
                    let empty: Vec<char> = Vec::new();
                    let nt = splice_chars(t, sp.start, sp.end, &empty);
                    *t = nt;
                    Ok(())
                },
                _ => Err(FrError::ReadInstruction("Match::Escape.value is a non string Value")),
            },
            Match::Hide => match value {
                JsonVal::Str(t) => {
                    *t = chars_of("${_HIDDEN}");
                    Ok(())
                },
                _ => Err(FrError::ReadInstruction("Match::Hide.value is a non string Value")),
            },
            Match::Variable { name, value: mval, range } => {
                if obj_get(&self.vars, &name).is_none() {
                    return Err(
                        FrError::ReadInstructionf(
                            "Key not present in Cut Register",
                            string_of_chars(&name),
                        ),
                    );
                }
                if hide_vars && name.len() > 0 && name[0] == '_' {
                    let hid = match &*value {
                        JsonVal::Str(t) => {
                            let pat = var_pattern(&name);
                            contains_sub(t, &pat)
                        },
                        _ => false,
                    };
                    if hid {
                        match value {
                            JsonVal::Str(t) => {
                                *t = chars_of("${_HIDDEN}");
                                return Ok(());
                            },
                            _ => {
                                assert(false);
                            },
                        }
                    }
                }
                match mval {
                    JsonVal::Str(mt) => match value {
                        JsonVal::Str(t) => {
                            let nt = splice_chars(t, range.start, range.end, &mt);
                            *t = nt;
                            Ok(())
                        },
                        _ => Err(
                            FrError::ReadInstruction(
                                "Match::Variable given a non string value to replace",
                            ),
                        ),
                    },
                    _ => {
                        let standalone = match &*value {
                            JsonVal::Str(t) => {
                                let pat = var_pattern(&name);
                                chars_eq(t, &pat)
                            },
                            _ => false,
                        };
                        if standalone {
                            *value = mval;
                            Ok(())
                        } else {
                            Err(
                                FrError::ReadInstruction(
                                    "Match::Variable with a non string value must replace a standalone variable declaration",
                                ),
                            )
                        }
                    },
                }
            },
        }
    }
}


/// The outcome of matching a payload string against a frame-side template:
/// with `${VAR}` at its last occurrence in the template, the payload must
/// carry the template's prefix and suffix around a captured middle.
pub open spec fn spec_write_match(var: Seq<char>, f: Seq<char>, p: Seq<char>) -> Result<
    Option<Seq<char>>,
    SpecErr,
> {
    let pat = var_pattern_of(var);
    let q = crate::text::find_last(f, pat);
    if q < 0 {
        Ok(None)
    } else {
        let head = f.subrange(0, q);
        let tail = f.subrange(q + pat.len(), f.len() as int);
        if p.len() >= head.len() + tail.len() && p.subrange(0, head.len() as int) == head
            && p.subrange(p.len() - tail.len(), p.len() as int) == tail {
            Ok(Some(p.subrange(head.len() as int, p.len() - tail.len())))
        } else {
            Err(SpecErr::WriteInstruction("Frame String templating mismatch"@))
        }
    }
}

impl Register {
    /// Matches a payload string against a frame-side template string: the
    /// text standing where the template has `${var_name}` is captured, after
    /// checking that the payload repeats the template's surrounding literal
    /// text. `None` when the template holds no such occurrence.
    pub fn write_match(var_name: &str, frame_str: &str, payload_str: &str) -> (r: Result<
        Option<String>,
        FrError,
    >)
        ensures
            match r {
                Ok(Some(m)) => spec_write_match(var_name@, frame_str@, payload_str@) == Ok::<
                    Option<Seq<char>>,
                    SpecErr,
                >(Some(m@)),
                Ok(None) => spec_write_match(var_name@, frame_str@, payload_str@) == Ok::<
                    Option<Seq<char>>,
                    SpecErr,
                >(None),
                Err(e) => spec_write_match(var_name@, frame_str@, payload_str@) == Err::<
                    Option<Seq<char>>,
                    SpecErr,
                >(e@),
            },
    {
        let var = chars_of(var_name);
        let f = chars_of(frame_str);
        let p = chars_of(payload_str);
        let pat = var_pattern(&var);
        match crate::text::find_last_sub(&f, &pat) {
            None => Ok(None),
            Some(q) => {
                proof {
                    crate::text::lemma_find_last_is_sub(f@, pat@, f@.len() - pat@.len());
                }
                let flen = f.len();
                let plen = pat.len();
                assert(q + plen <= flen);
                let head = subvec(&f, 0, q);
                let tail = subvec(&f, q + plen, flen);
                if p.len() >= head.len() && p.len() - head.len() >= tail.len()
                    && crate::text::sub_at(&p, 0, &head) && crate::text::sub_at(
                    &p,
                    p.len() - tail.len(),
                    &tail,
                ) {
                    let mid = subvec(&p, head.len(), p.len() - tail.len());
                    Ok(Some(string_of_chars(&mid)))
                } else {
                    Err(FrError::WriteInstruction("Frame String templating mismatch"))
                }
            },
        }
    }

    /// Checks that a frame-side string is exactly the standalone declaration
    /// `${var_name}`; required before capturing a non-string payload value.
    pub fn expect_standalone_var(var_name: &str, frame_str: &str) -> (r: Result<(), FrError>)
        ensures
            match r {
                Ok(_) => frame_str@ == var_pattern_of(var_name@),
                Err(e) => frame_str@ != var_pattern_of(var_name@) && e@ == SpecErr::FrameParsef(
                    "Singe variable mismatch -"@,
                    "Expected:"@ + var_pattern_of(var_name@) + ", Got:"@ + frame_str@,
                ),
            },
    {
        let var = chars_of(var_name);
        let f = chars_of(frame_str);
        let pat = var_pattern(&var);
        if chars_eq(&f, &pat) {
            Ok(())
        } else {
            let item = crate::error::concat4(
                "Expected:",
                string_of_chars(&pat).as_str(),
                ", Got:",
                frame_str,
            );
            Err(FrError::FrameParsef("Singe variable mismatch -", item))
        }
    }
}


/// Entries with the values of hidden names masked as `${_HIDDEN}`.
pub open spec fn spec_mask_hidden(es: Seq<(Seq<char>, SpecVal)>) -> Seq<(Seq<char>, SpecVal)> {
    Seq::new(
        es.len(),
        |i: int| if 0 <= i < es.len() {
            (es[i].0, if hidden_name(es[i].0) {
                SpecVal::Str("${_HIDDEN}"@)
            } else {
                es[i].1
            })
        } else {
            (Seq::empty(), SpecVal::Null)
        },
    )
}

impl Register {
    /// The register rendered as a JSON object, keys in sorted order.
    pub fn to_string_pretty(&self) -> (r: String)
        ensures
            r@ == crate::codec::spec_ser(SpecVal::Obj(self@)),
    {
        let es = crate::json::dup_entries(&self.vars);
        let v = JsonVal::Obj(es);
        proof {
            crate::json::lemma_obj_node_view(v->Obj_0);
        }
        crate::codec::to_json_string(&v)
    }

    /// The register rendered as a JSON object with hidden variables (names
    /// starting with an underscore) masked as `${_HIDDEN}`.
    pub fn to_string_hidden(&self) -> (r: String)
        ensures
            r@ == crate::codec::spec_ser(SpecVal::Obj(spec_mask_hidden(self@))),
    {
        let vars = &self.vars;
        let mut es: Vec<(Vec<char>, JsonVal)> = Vec::new();
        let mut i: usize = 0;
        while i < vars.len()
            invariant
                i <= vars@.len(),
                es@.len() == i,
                entries_view(vars@) == self@,
                forall|j: int| 0 <= j < i ==> entries_view(es@)[j] == spec_mask_hidden(
                    entries_view(vars@),
                )[j],
            decreases vars@.len() - i,
        {
            let ghost gi = i as int;
            let key = vars[i].0.clone();
            let hidden = key.len() > 0 && key[0] == '_';
            let val = if hidden {
                JsonVal::Str(chars_of("${_HIDDEN}"))
            } else {
                vars[i].1.duplicate()
            };
            let ghost gkey = key@;
            let ghost gval = val@;
            let ghost pre_es = es@;
            es.push((key, val));
            proof {
                assert forall|j: int| 0 <= j < gi implies entries_view(pre_es)[j] == (
                #[trigger] entries_view(es@)[j]) by {
                    assert(entries_view(pre_es)[j] == (pre_es[j].0@, pre_es[j].1@));
                    assert(entries_view(es@)[j] == (es@[j].0@, es@[j].1@));
                }
                let ev = entries_view(vars@);
                assert(ev[gi] == (vars@[gi].0@, vars@[gi].1@));
                assert(gkey == ev[gi].0);
                assert(hidden == hidden_name(ev[gi].0));
                assert(gval == if hidden_name(ev[gi].0) {
                    SpecVal::Str("${_HIDDEN}"@)
                } else {
                    ev[gi].1
                });
                assert(spec_mask_hidden(ev)[gi] == (gkey, gval));
                assert forall|j: int| 0 <= j < gi + 1 implies entries_view(es@)[j]
                    == spec_mask_hidden(ev)[j] by {
                    assert(entries_view(es@)[j] == (es@[j].0@, es@[j].1@));
                }
            }
            i += 1;
        }
        proof {
            assert(entries_view(es@) =~= spec_mask_hidden(entries_view(vars@)));
        }
        let v = JsonVal::Obj(es);
        proof {
            crate::json::lemma_obj_node_view(v->Obj_0);
        }
        crate::codec::to_json_string(&v)
    }
}


impl Register {
    /// Reads a register out of JSON text, which must hold an object; its
    /// entries become the register's variables as they stand.
    pub fn from(json_string: &str) -> (r: Result<Register, FrError>)
        ensures
            match r {
                Ok(reg) => crate::codec::spec_parse_doc(json_string@) matches Some(v) && v
                    == SpecVal::Obj(reg@) && reg.inv(),
                Err(_) => crate::codec::spec_parse_doc(json_string@) is None
                    || !(crate::codec::spec_parse_doc(json_string@)->0 is Obj),
            },
    {
        let v = match crate::codec::parse_json(json_string) {
            Ok(v) => v,
            Err(e) => {
                return Err(e);
            },
        };
        Register::from_value(v)
    }

    /// Builds a register from a parsed JSON document, which must be an
    /// object; its entries become the register's variables as they stand.
    pub fn from_value(v: JsonVal) -> (r: Result<Register, FrError>)
        requires
            wf(v@),
        ensures
            match r {
                Ok(reg) => v@ matches SpecVal::Obj(es) && reg@ == es && reg.inv(),
                Err(e) => !(v@ is Obj) && e@ == SpecErr::Serde("expected a JSON object"@),
            },
    {
        match v {
            JsonVal::Obj(es) => {
                proof {
                    crate::json::lemma_obj_node_view(es);
                }
                Ok(Register { vars: es })
            },
            _ => Err(FrError::Serde("expected a JSON object".to_owned())),
        }
    }

    /// The register rendered as a plain JSON object value.
    pub fn to_value(&self) -> (r: JsonVal)
        ensures
            r@ == SpecVal::Obj(self@),
    {
        let es = crate::json::dup_entries(&self.vars);
        let v = JsonVal::Obj(es);
        proof {
            crate::json::lemma_obj_node_view(v->Obj_0);
        }
        v
    }
}

} // verus!
