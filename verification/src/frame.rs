//! Frames: one declared request/response exchange, and the hydration pass
//! that substitutes register variables into a frame's documents.

use vstd::prelude::*;
use crate::cut::{
    spec_read_op, spec_scan, Match, Register, SpecMatch,
};
use crate::error::{FrError, SpecErr};
use crate::codec::spec_parse_doc;
use crate::json::{
    entries_sorted, entries_view, spec_obj_get, spec_obj_insert, spec_obj_remove, wf, JsonVal,
    SpecVal,
};
use crate::response::Response;
use crate::text::{chars_of, string_of_chars};

verus! {

broadcast use vstd::std_specs::vec::group_vec_axioms;

pub const MISSING_VAR_ERR: &'static str = "Variable is not present in InstructionSet";

pub const DUPE_VAR_REFERENCE_ERR: &'static str =
    "Cut Variables cannot be referenced by both read and write instructions";

pub const DUPE_KEY_UPON_HYDRATION_ERR: &'static str = "Hydrated key produced a duplicate key value";

pub const INVALID_KEY_HYDRATION_ERR: &'static str =
    "Key attempted to be hydrated with a non-string cut variable";

/// The protocol a frame's request is sent over.
#[derive(PartialEq, Eq, Structural, Clone, Copy, Debug)]
pub enum Protocol {
    GRPC,
    HTTP,
}

/// Mathematical model of an instruction set.
#[verifier::ext_equal]
pub struct SpecInstr {
    pub reads: Seq<(Seq<char>, SpecVal)>,
    pub writes: Seq<(Seq<char>, SpecVal)>,
    pub hydrate_writes: bool,
}

/// The read (`from`) and write (`to`) instructions of a frame: which
/// variables hydration may substitute, and which selectors feed extracted
/// values back into the register. Reads are a name set; writes map a name to
/// a selector string.
pub struct InstructionSet {
    reads: Vec<(Vec<char>, JsonVal)>,
    writes: Vec<(Vec<char>, JsonVal)>,
    pub hydrate_writes: bool,
}

impl View for InstructionSet {
    type V = SpecInstr;

    closed spec fn view(&self) -> SpecInstr {
        SpecInstr {
            reads: entries_view(self.reads@),
            writes: entries_view(self.writes@),
            hydrate_writes: self.hydrate_writes,
        }
    }
}

/// A name is covered by the instruction set.
pub open spec fn in_set(instr: SpecInstr, n: Seq<char>) -> bool {
    spec_obj_get(instr.reads, n) is Some || spec_obj_get(instr.writes, n) is Some
}

impl InstructionSet {
    /// Read names sorted and paired with `Null`; write names sorted and
    /// paired with their selector string.
    pub open spec fn inv(self) -> bool {
        &&& entries_sorted(self@.reads)
        &&& forall|i: int| 0 <= i < self@.reads.len() ==> (#[trigger] self@.reads[i]).1 is Null
        &&& entries_sorted(self@.writes)
        &&& forall|i: int| 0 <= i < self@.writes.len() ==> (#[trigger] self@.writes[i]).1 is Str
    }

    /// An empty instruction set.
    pub fn new() -> (r: InstructionSet)
        ensures
            r@.reads.len() == 0,
            r@.writes.len() == 0,
            !r@.hydrate_writes,
            r.inv(),
    {
        InstructionSet { reads: Vec::new(), writes: Vec::new(), hydrate_writes: false }
    }

    /// Adds a name to the read instructions.
    pub fn insert_read(&mut self, name: &str)
        requires
            old(self).inv(),
        ensures
            final(self).inv(),
            final(self)@.reads == spec_obj_insert(old(self)@.reads, name@, SpecVal::Null),
            final(self)@.writes == old(self)@.writes,
            final(self)@.hydrate_writes == old(self)@.hydrate_writes,
    {
        let kv = chars_of(name);
        let ghost oldr = self@.reads;
        crate::json::obj_insert(&mut self.reads, kv, JsonVal::Null);
        proof {
            assert forall|i: int| 0 <= i < self@.reads.len() implies (
            #[trigger] self@.reads[i]).1 is Null by {
                crate::json::lemma_obj_insert_values(oldr, name@, SpecVal::Null, i);
            }
        }
    }

    /// Adds a name-to-selector pair to the write instructions.
    pub fn insert_write(&mut self, name: &str, selector: &str)
        requires
            old(self).inv(),
        ensures
            final(self).inv(),
            final(self)@.writes == spec_obj_insert(
                old(self)@.writes,
                name@,
                SpecVal::Str(selector@),
            ),
            final(self)@.reads == old(self)@.reads,
            final(self)@.hydrate_writes == old(self)@.hydrate_writes,
    {
        let kv = chars_of(name);
        let sv = chars_of(selector);
        let ghost oldw = self@.writes;
        crate::json::obj_insert(&mut self.writes, kv, JsonVal::Str(sv));
        proof {
            assert forall|i: int| 0 <= i < self@.writes.len() implies (
            #[trigger] self@.writes[i]).1 is Str by {
                crate::json::lemma_obj_insert_values(oldw, name@, SpecVal::Str(selector@), i);
            }
        }
    }

    /// Turns hydration of write variables on or off.
    pub fn set_hydrate_writes(&mut self, b: bool)
        ensures
            final(self)@.reads == old(self)@.reads,
            final(self)@.writes == old(self)@.writes,
            final(self)@.hydrate_writes == b,
            old(self).inv() ==> final(self).inv(),
    {
        self.hydrate_writes = b;
    }

    /// Neither reads nor writes are declared.
    pub fn is_empty(&self) -> (r: bool)
        ensures
            r == (self@.reads.len() == 0 && self@.writes.len() == 0),
    {
        self.reads.len() == 0 && self.writes.len() == 0
    }

    /// The set covers `var`, as a read or as a write.
    pub fn contains(&self, var: &str) -> (r: bool)
        ensures
            r == in_set(self@, var@),
    {
        let kv = chars_of(var);
        self.contains_name(&kv)
    }

    /// The set covers the name, as a read or as a write.
    pub fn contains_name(&self, n: &Vec<char>) -> (r: bool)
        ensures
            r == in_set(self@, n@),
    {
        crate::json::obj_get(&self.reads, n).is_some() || crate::json::obj_get(
            &self.writes,
            n,
        ).is_some()
    }

    /// The write entries: each name with its selector string.
    pub fn write_pairs(&self) -> (r: Vec<(String, String)>)
        requires
            self.inv(),
        ensures
            r@.len() == self@.writes.len(),
            forall|i: int| 0 <= i < r@.len() ==> (#[trigger] r@[i]).0@ == self@.writes[i].0
                && self@.writes[i].1 == SpecVal::Str(r@[i].1@),
    {
        let mut out: Vec<(String, String)> = Vec::new();
        let mut i: usize = 0;
        while i < self.writes.len()
            invariant
                i <= self.writes@.len(),
                out@.len() == i,
                self.inv(),
                forall|j: int| 0 <= j < i ==> (#[trigger] out@[j]).0@ == self@.writes[j].0
                    && self@.writes[j].1 == SpecVal::Str(out@[j].1@),
            decreases self.writes@.len() - i,
        {
            proof {
                assert(self@.writes[i as int] == (self.writes@[i as int].0@, self.writes@[i as int].1@));
            }
            let key = string_of_chars(&self.writes[i].0);
            let sel = match &self.writes[i].1 {
                JsonVal::Str(sv) => string_of_chars(sv),
                _ => {
                    proof {
                        assert(false);
                    }
                    String::new()
                },
            };
            out.push((key, sel));
            i += 1;
        }
        out
    }

    /// Checks that no variable stands in both the read and the write
    /// instructions; the offending name is reported.
    pub fn validate(&self) -> (r: Result<(), FrError>)
        ensures
            match r {
                Ok(_) => forall|i: int| 0 <= i < self@.reads.len() ==> spec_obj_get(
                    self@.writes,
                    (#[trigger] self@.reads[i]).0,
                ) is None,
                Err(e) => exists|i: int| 0 <= i < self@.reads.len() && spec_obj_get(
                    self@.writes,
                    (#[trigger] self@.reads[i]).0,
                ) is Some && e@ == SpecErr::FrameParsef(DUPE_VAR_REFERENCE_ERR@, self@.reads[i].0),
            },
    {
        let mut i: usize = 0;
        while i < self.reads.len()
            invariant
                i <= self.reads@.len(),
                forall|j: int| 0 <= j < i ==> spec_obj_get(
                    self@.writes,
                    (#[trigger] self@.reads[j]).0,
                ) is None,
            decreases self.reads@.len() - i,
        {
            proof {
                assert(self@.reads[i as int] == (self.reads@[i as int].0@, self.reads@[i as int].1@));
            }
            if crate::json::obj_get(&self.writes, &self.reads[i].0).is_some() {
                return Err(
                    FrError::FrameParsef(
                        DUPE_VAR_REFERENCE_ERR,
                        string_of_chars(&self.reads[i].0),
                    ),
                );
            }
            i += 1;
        }
        Ok(())
    }
}


pub const MATCH_RANGE_ERR: &'static str = "Match range does not fit the target string";

/// A sequence reversed.
pub open spec fn rev<A>(s: Seq<A>) -> Seq<A> {
    Seq::new(s.len(), |i: int| s[s.len() - 1 - i])
}

/// A match's splice range fits the value it is applied to.
pub open spec fn op_fits(m: SpecMatch, v: SpecVal) -> bool {
    match (m, v) {
        (SpecMatch::Escape { start, end }, SpecVal::Str(t)) => 0 <= start <= end <= t.len(),
        (SpecMatch::Variable { value: mv, start, end, .. }, SpecVal::Str(t)) => mv is Str ==> 0
            <= start <= end <= t.len(),
        _ => true,
    }
}

/// Matches applied to a value one after the other (the caller hands them in
/// descending start order). A variable match must be covered by the
/// instruction set; it is substituted when its name is a read, or a write
/// while writes are being hydrated, and left in place otherwise.
pub open spec fn spec_apply_matches(
    instr: SpecInstr,
    reg: Seq<(Seq<char>, SpecVal)>,
    ms: Seq<SpecMatch>,
    v: SpecVal,
    hide: bool,
) -> Result<SpecVal, SpecErr>
    decreases ms.len(),
{
    if ms.len() == 0 {
        Ok(v)
    } else {
        match ms[0] {
            SpecMatch::Variable { name, .. } => {
                if !in_set(instr, name) {
                    Err(SpecErr::FrameParsef(MISSING_VAR_ERR@, name))
                } else if spec_obj_get(instr.reads, name) is Some || (spec_obj_get(
                    instr.writes,
                    name,
                ) is Some && instr.hydrate_writes) {
                    if !op_fits(ms[0], v) {
                        Err(SpecErr::ReadInstruction(MATCH_RANGE_ERR@))
                    } else {
                        match spec_read_op(reg, ms[0], v, hide) {
                            Ok(v2) => spec_apply_matches(instr, reg, ms.drop_first(), v2, hide),
                            Err(e) => Err(e),
                        }
                    }
                } else {
                    spec_apply_matches(instr, reg, ms.drop_first(), v, hide)
                }
            },
            _ => {
                if !op_fits(ms[0], v) {
                    Err(SpecErr::ReadInstruction(MATCH_RANGE_ERR@))
                } else {
                    match spec_read_op(reg, ms[0], v, hide) {
                        Ok(v2) => spec_apply_matches(instr, reg, ms.drop_first(), v2, hide),
                        Err(e) => Err(e),
                    }
                }
            },
        }
    }
}

/// One string hydrated: its occurrences scanned, then applied in descending
/// start order; the flag says whether any occurrence was found.
pub open spec fn spec_hydrate_str(
    instr: SpecInstr,
    reg: Seq<(Seq<char>, SpecVal)>,
    t: Seq<char>,
    hide: bool,
) -> Result<(SpecVal, bool), SpecErr> {
    match spec_scan(t, reg, 0) {
        Err(txt) => Err(SpecErr::FrameParsef("Missing trailing brace for Cut Variable"@, txt)),
        Ok(sms) => if sms.len() == 0 {
            Ok((SpecVal::Str(t), false))
        } else {
            match spec_apply_matches(instr, reg, rev(sms), SpecVal::Str(t), hide) {
                Ok(v) => Ok((v, true)),
                Err(e) => Err(e),
            }
        },
    }
}

/// A value hydrated recursively: strings are substituted; arrays hydrate
/// each element; objects hydrate their values, then rewrite keys whose
/// hydration changed them, rejecting a collision with a pre-existing key.
pub open spec fn spec_hydrate_val(
    instr: SpecInstr,
    reg: Seq<(Seq<char>, SpecVal)>,
    v: SpecVal,
    hide: bool,
) -> Result<SpecVal, SpecErr>
    decreases v, 1int,
{
    match v {
        SpecVal::Str(t) => match spec_hydrate_str(instr, reg, t, hide) {
            Ok((v1, _)) => Ok(v1),
            Err(e) => Err(e),
        },
        SpecVal::Arr(a) => match spec_hydrate_arr(instr, reg, a, hide) {
            Ok(a1) => Ok(SpecVal::Arr(a1)),
            Err(e) => Err(e),
        },
        SpecVal::Obj(es) => match spec_hydrate_entries(instr, reg, es, hide) {
            Ok(es1) => match spec_collect_rekeys(instr, reg, es1, es1, hide) {
                Ok(list) => Ok(SpecVal::Obj(spec_apply_rekeys(es1, list))),
                Err(e) => Err(e),
            },
            Err(e) => Err(e),
        },
        _ => Ok(v),
    }
}

/// Array elements hydrated in order; the first failure wins.
pub open spec fn spec_hydrate_arr(
    instr: SpecInstr,
    reg: Seq<(Seq<char>, SpecVal)>,
    elems: Seq<SpecVal>,
    hide: bool,
) -> Result<Seq<SpecVal>, SpecErr>
    decreases elems, 0int,
{
    if elems.len() == 0 {
        Ok(Seq::empty())
    } else {
        match spec_hydrate_val(instr, reg, elems[0], hide) {
            Ok(e0) => match spec_hydrate_arr(instr, reg, elems.drop_first(), hide) {
                Ok(rest) => Ok(seq![e0] + rest),
                Err(e) => Err(e),
            },
            Err(e) => Err(e),
        }
    }
}

/// Object values hydrated in key order, keys untouched.
pub open spec fn spec_hydrate_entries(
    instr: SpecInstr,
    reg: Seq<(Seq<char>, SpecVal)>,
    es: Seq<(Seq<char>, SpecVal)>,
    hide: bool,
) -> Result<Seq<(Seq<char>, SpecVal)>, SpecErr>
    decreases es, 0int,
{
    if es.len() == 0 {
        Ok(Seq::empty())
    } else {
        match spec_hydrate_val(instr, reg, es[0].1, hide) {
            Ok(v0) => match spec_hydrate_entries(instr, reg, es.drop_first(), hide) {
                Ok(rest) => Ok(seq![(es[0].0, v0)] + rest),
                Err(e) => Err(e),
            },
            Err(e) => Err(e),
        }
    }
}

/// The key rewrites an object's hydration produces: each key whose own
/// hydration found occurrences maps to its new text. A non-string outcome
/// and a collision with one of the object's original keys are errors.
pub open spec fn spec_collect_rekeys(
    instr: SpecInstr,
    reg: Seq<(Seq<char>, SpecVal)>,
    es: Seq<(Seq<char>, SpecVal)>,
    origs: Seq<(Seq<char>, SpecVal)>,
    hide: bool,
) -> Result<Seq<(Seq<char>, Seq<char>)>, SpecErr>
    decreases es.len(),
{
    if es.len() == 0 {
        Ok(Seq::empty())
    } else {
        match spec_hydrate_str(instr, reg, es[0].0, hide) {
            Err(e) => Err(e),
            Ok((nk, changed)) => {
                if !changed {
                    spec_collect_rekeys(instr, reg, es.drop_first(), origs, hide)
                } else {
                    match nk {
                        SpecVal::Str(nks) => {
                            if spec_obj_get(origs, nks) is Some {
                                Err(SpecErr::FrameParsef(DUPE_KEY_UPON_HYDRATION_ERR@, nks))
                            } else {
                                match spec_collect_rekeys(instr, reg, es.drop_first(), origs, hide) {
                                    Ok(list) => Ok(seq![(es[0].0, nks)] + list),
                                    Err(e) => Err(e),
                                }
                            }
                        },
                        _ => Err(SpecErr::FrameParse(INVALID_KEY_HYDRATION_ERR@)),
                    }
                }
            },
        }
    }
}

/// The collected key rewrites applied in order: each moves a value from its
/// old key to its new one.
pub open spec fn spec_apply_rekeys(
    es: Seq<(Seq<char>, SpecVal)>,
    list: Seq<(Seq<char>, Seq<char>)>,
) -> Seq<(Seq<char>, SpecVal)>
    decreases list.len(),
{
    if list.len() == 0 {
        es
    } else {
        let moved = match spec_obj_get(es, list[0].0) {
            Some(v) => spec_obj_insert(spec_obj_remove(es, list[0].0), list[0].1, v),
            None => es,
        };
        spec_apply_rekeys(moved, list.drop_first())
    }
}

/// Values a lookup can return are values of the entries.
proof fn lemma_get_value_wf(es: Seq<(Seq<char>, SpecVal)>, k: Seq<char>)
    requires
        forall|j: int| 0 <= j < es.len() ==> wf((#[trigger] es[j]).1),
        spec_obj_get(es, k) is Some,
    ensures
        wf(spec_obj_get(es, k)->0),
    decreases es.len(),
{
    if es.len() > 0 && es[0].0 != k {
        let tail = es.drop_first();
        assert forall|j: int| 0 <= j < tail.len() implies wf((#[trigger] tail[j]).1) by {
            assert(tail[j] == es[j + 1]);
        }
        lemma_get_value_wf(tail, k);
    }
}

/// Every variable value a scan hands out is a register value, so well-formed.
proof fn lemma_scan_matches_wf(s: Seq<char>, es: Seq<(Seq<char>, SpecVal)>, i: int)
    requires
        0 <= i,
        forall|j: int| 0 <= j < es.len() ==> wf((#[trigger] es[j]).1),
        spec_scan(s, es, i) is Ok,
    ensures
        forall|j: int|
            0 <= j < spec_scan(s, es, i)->Ok_0.len() ==> match #[trigger] spec_scan(
                s,
                es,
                i,
            )->Ok_0[j] {
                SpecMatch::Variable { value, .. } => wf(value),
                _ => true,
            },
    decreases s.len() - i,
{
    if i >= s.len() {
    } else if crate::cut::is_esc_at(s, i) {
        let ne = crate::cut::name_end(s, i + 3);
        let me = if ne < s.len() && s[ne] == '}' {
            ne + 1
        } else {
            ne
        };
        crate::cut::lemma_name_end_bounds(s, i + 3);
        lemma_scan_matches_wf(s, es, me);
        let sms = spec_scan(s, es, i)->Ok_0;
        let rest = spec_scan(s, es, me)->Ok_0;
        assert forall|j: int| 0 <= j < sms.len() implies match #[trigger] sms[j] {
            SpecMatch::Variable { value, .. } => wf(value),
            _ => true,
        } by {
            if j > 0 {
                assert(sms[j] == rest[j - 1]);
            }
        }
    } else if crate::cut::is_var_at(s, i) {
        let ne = crate::cut::name_end(s, i + 2);
        crate::cut::lemma_name_end_bounds(s, i + 2);
        if ne < s.len() && s[ne] == '}' {
            let name = s.subrange(i + 2, ne);
            lemma_scan_matches_wf(s, es, ne + 1);
            match spec_obj_get(es, name) {
                Some(v) => {
                    lemma_get_value_wf(es, name);
                    let sms = spec_scan(s, es, i)->Ok_0;
                    let rest = spec_scan(s, es, ne + 1)->Ok_0;
                    assert forall|j: int| 0 <= j < sms.len() implies match #[trigger] sms[j] {
                        SpecMatch::Variable { value, .. } => wf(value),
                        _ => true,
                    } by {
                        if j > 0 {
                            assert(sms[j] == rest[j - 1]);
                        }
                    }
                },
                None => {},
            }
        }
    } else {
        lemma_scan_matches_wf(s, es, i + 1);
    }
}

/// A match application that succeeds yields a string or a register value.
proof fn lemma_read_op_wf(
    es: Seq<(Seq<char>, SpecVal)>,
    m: SpecMatch,
    v: SpecVal,
    hide: bool,
)
    requires
        match m {
            SpecMatch::Variable { value, .. } => wf(value),
            _ => true,
        },
        spec_read_op(es, m, v, hide) is Ok,
    ensures
        wf(spec_read_op(es, m, v, hide)->Ok_0),
{
}

/// Decides whether a match's splice range fits the value.
fn check_fits(mat: &Match, val: &JsonVal) -> (r: bool)
    ensures
        r == op_fits(mat@, val@),
{
    match (mat, val) {
        (Match::Escape(sp), JsonVal::Str(t)) => sp.start <= sp.end && sp.end <= t.len(),
        (Match::Variable { value: mv, range, .. }, JsonVal::Str(t)) => match mv {
            JsonVal::Str(_) => range.start <= range.end && range.end <= t.len(),
            _ => true,
        },
        _ => true,
    }
}

/// Hydrates one string value in place against the register, under the
/// frame's instruction set; the flag reports whether any occurrence was
/// found in the string.
#[verifier::loop_isolation(false)]
pub fn hydrate_str(set: &InstructionSet, val: &mut JsonVal, reg: &Register, hide: bool) -> (r:
    Result<bool, FrError>)
    requires
        old(val)@ is Str,
        reg.inv(),
    ensures
        match r {
            Ok(changed) => spec_hydrate_str(set@, reg@, old(val)@->Str_0, hide) == Ok::<
                (SpecVal, bool),
                SpecErr,
            >((final(val)@, changed)) && wf(final(val)@),
            Err(e) => spec_hydrate_str(set@, reg@, old(val)@->Str_0, hide) == Err::<
                (SpecVal, bool),
                SpecErr,
            >(e@),
        },
{
    let ghost gt = old(val)@->Str_0;
    let t_string = match &*val {
        JsonVal::Str(t) => string_of_chars(t),
        _ => {
            proof {
                assert(false);
            }
            String::new()
        },
    };
    let mut ms = match reg.read_match(t_string.as_str()) {
        Ok(ms) => ms,
        Err(e) => {
            return Err(e);
        },
    };
    let ghost scan = spec_scan(gt, reg@, 0);
    let ghost sms = scan->Ok_0;
    let ghost rsms = rev(sms);
    if ms.len() == 0 {
        assert(sms.len() == 0);
        return Ok(false);
    }
    proof {
        lemma_scan_matches_wf(gt, reg@, 0);
        assert forall|j: int| 0 <= j < rsms.len() implies match #[trigger] rsms[j] {
            SpecMatch::Variable { value, .. } => wf(value),
            _ => true,
        } by {
            assert(rsms[j] == sms[sms.len() - 1 - j]);
        }
        assert(rsms.skip(0) =~= rsms);
    }
    let ghost n = ms@.len();
    assert(n == rsms.len());
    while ms.len() > 0
        invariant
            ms@.len() <= n,
            forall|j: int| 0 <= j < ms@.len() ==> (#[trigger] ms@[j])@ == rsms[n - ms@.len() + j],
            spec_apply_matches(set@, reg@, rsms.skip(n - ms@.len()), val@, hide)
                == spec_apply_matches(set@, reg@, rsms, SpecVal::Str(gt), hide),
            wf(val@),
        decreases ms@.len(),
    {
        let ghost gk = n - ms@.len();
        let ghost cur = val@;
        proof {
            assert(rsms.skip(gk)[0] == rsms[gk]);
            assert(rsms.skip(gk).drop_first() =~= rsms.skip(gk + 1));
        }
        let mat = ms.remove(0);
        assert(mat@ == rsms[gk]);
        let apply: bool = match mat.name() {
            Some(nm) => {
                if !set.contains_name(nm) {
                    return Err(FrError::FrameParsef(MISSING_VAR_ERR, string_of_chars(nm)));
                }
                let in_reads = crate::json::obj_get(&set.reads, nm).is_some();
                let in_writes = crate::json::obj_get(&set.writes, nm).is_some();
                in_reads || (in_writes && set.hydrate_writes)
            },
            None => true,
        };
        if apply {
            if !check_fits(&mat, &*val) {
                return Err(FrError::ReadInstruction(MATCH_RANGE_ERR));
            }
            let ghost gm = mat@;
            match reg.read_operation(mat, val, hide) {
                Ok(_) => {
                    proof {
                        lemma_read_op_wf(reg@, gm, cur, hide);
                    }
                },
                Err(e) => {
                    return Err(e);
                },
            }
        }
    }
    proof {
        assert(rsms.skip(n - 0) =~= Seq::<SpecMatch>::empty());
        assert(spec_apply_matches(set@, reg@, rsms.skip(n as int), val@, hide) == Ok::<
            SpecVal,
            SpecErr,
        >(val@));
    }
    Ok(true)
}


/// Already-hydrated elements placed before the rest of an array hydration.
pub open spec fn arr_combine(
    pre: Seq<SpecVal>,
    r: Result<Seq<SpecVal>, SpecErr>,
) -> Result<Seq<SpecVal>, SpecErr> {
    match r {
        Ok(rest) => Ok(pre + rest),
        Err(e) => Err(e),
    }
}

/// Already-hydrated entries placed before the rest of an object hydration.
pub open spec fn ent_combine(
    pre: Seq<(Seq<char>, SpecVal)>,
    r: Result<Seq<(Seq<char>, SpecVal)>, SpecErr>,
) -> Result<Seq<(Seq<char>, SpecVal)>, SpecErr> {
    match r {
        Ok(rest) => Ok(pre + rest),
        Err(e) => Err(e),
    }
}

/// Already-collected key rewrites placed before the rest.
pub open spec fn rk_combine(
    pre: Seq<(Seq<char>, Seq<char>)>,
    r: Result<Seq<(Seq<char>, Seq<char>)>, SpecErr>,
) -> Result<Seq<(Seq<char>, Seq<char>)>, SpecErr> {
    match r {
        Ok(rest) => Ok(pre + rest),
        Err(e) => Err(e),
    }
}

/// The models of a key-rewrite list.
pub open spec fn pairs_view(ss: Seq<(Vec<char>, Vec<char>)>) -> Seq<(Seq<char>, Seq<char>)> {
    Seq::new(
        ss.len(),
        |i: int| if 0 <= i < ss.len() { (ss[i].0@, ss[i].1@) } else { (Seq::empty(), Seq::empty()) },
    )
}

/// Hydrates a value recursively, consuming and rebuilding it.
#[verifier::loop_isolation(false)]
#[verifier::rlimit(100)]
fn hydrate_val_owned(set: &InstructionSet, v: JsonVal, reg: &Register, hide: bool) -> (r: Result<
    JsonVal,
    FrError,
>)
    requires
        wf(v@),
        reg.inv(),
    ensures
        match r {
            Ok(nv) => spec_hydrate_val(set@, reg@, v@, hide) == Ok::<SpecVal, SpecErr>(nv@) && wf(
                nv@,
            ),
            Err(e) => spec_hydrate_val(set@, reg@, v@, hide) == Err::<SpecVal, SpecErr>(e@),
        },
    decreases v,
{
    broadcast use crate::json::lemma_arr_node_view, crate::json::lemma_obj_node_view;

    let ghost gv = v;
    match v {
        JsonVal::Str(t) => {
            let mut val = JsonVal::Str(t);
            match hydrate_str(set, &mut val, reg, hide) {
                Ok(_) => Ok(val),
                Err(e) => Err(e),
            }
        },
        JsonVal::Arr(mut a) => {
            let ghost ga = crate::json::arr_view(a@);
            let ghost a0 = a;
            proof {
                assert(ga.skip(0) =~= ga);
                assert(crate::json::arr_view(a@).take(0) =~= Seq::<SpecVal>::empty());
            }
            let mut i: usize = 0;
            while i < a.len()
                invariant
                    i <= a@.len(),
                    a@.len() == ga.len(),
                    gv == JsonVal::Arr(a0),
                    ga == crate::json::arr_view(a0@),
                    forall|j: int| i <= j < ga.len() ==> a@[j] == a0@[j],
                    forall|j: int| i <= j < ga.len() ==> crate::json::arr_view(a@)[j] == ga[j],
                    forall|j: int| 0 <= j < i ==> wf(#[trigger] crate::json::arr_view(a@)[j]),
                    arr_combine(
                        crate::json::arr_view(a@).take(i as int),
                        spec_hydrate_arr(set@, reg@, ga.skip(i as int), hide),
                    ) == spec_hydrate_arr(set@, reg@, ga, hide),
                decreases a@.len() - i,
            {
                let ghost gi = i as int;
                let ghost pre = crate::json::arr_view(a@).take(gi);
                proof {
                    assert(ga.skip(gi)[0] == ga[gi]);
                    assert(ga.skip(gi).drop_first() =~= ga.skip(gi + 1));
                    assert(wf(ga[gi]));
                }
                let ghost avec = a@;
                let el = a.remove(i);
                proof {
                    assert(el == a0@[gi]);
                }
                assert(el@ == ga[gi]);
                let nel = match hydrate_val_owned(set, el, reg, hide) {
                    Ok(nel) => nel,
                    Err(e) => {
                        proof {
                            assert(spec_hydrate_arr(set@, reg@, ga.skip(gi), hide) == Err::<
                                Seq<SpecVal>,
                                SpecErr,
                            >(e@));
                        }
                        return Err(e);
                    },
                };
                a.insert(i, nel);
                proof {
                    assert(a@ =~= avec.update(gi, a@[gi]));
                    let now = crate::json::arr_view(a@);
                    assert(now.take(gi + 1) =~= pre.push(nel@));
                    assert forall|j: int| 0 <= j < gi + 1 implies wf(#[trigger] now[j]) by {
                        if j < gi {
                            assert(now[j] == a@[j]@);
                            assert(a@[j] == avec[j]);
                            assert(crate::json::arr_view(avec)[j] == avec[j]@);
                        } else {
                            assert(now[j] == nel@);
                        }
                    }
                    match spec_hydrate_arr(set@, reg@, ga.skip(gi + 1), hide) {
                        Ok(rest) => {
                            assert(pre + (seq![nel@] + rest) =~= now.take(gi + 1) + rest);
                        },
                        Err(_) => {},
                    }
                }
                i += 1;
            }
            proof {
                assert(ga.skip(ga.len() as int) =~= Seq::<SpecVal>::empty());
                assert(crate::json::arr_view(a@).take(ga.len() as int) =~= crate::json::arr_view(
                    a@,
                ));
            }
            Ok(JsonVal::Arr(a))
        },
        JsonVal::Obj(es) => {
            proof {
                assert(gv == JsonVal::Obj(es));
            }
            match hydrate_obj_owned(set, es, reg, hide) {
                Ok(nes) => Ok(JsonVal::Obj(nes)),
                Err(e) => Err(e),
            }
        },
        other => Ok(other),
    }
}


/// Hydrates an object's values, then rewrites keys whose hydration changed
/// them.
#[verifier::loop_isolation(false)]
#[verifier::rlimit(100)]
fn hydrate_obj_owned(
    set: &InstructionSet,
    es: Vec<(Vec<char>, JsonVal)>,
    reg: &Register,
    hide: bool,
) -> (r: Result<Vec<(Vec<char>, JsonVal)>, FrError>)
    requires
        wf(SpecVal::Obj(crate::json::entries_view(es@))),
        reg.inv(),
    ensures
        match r {
            Ok(nes) => spec_hydrate_val(
                set@,
                reg@,
                SpecVal::Obj(crate::json::entries_view(es@)),
                hide,
            ) == Ok::<SpecVal, SpecErr>(SpecVal::Obj(crate::json::entries_view(nes@))) && wf(
                SpecVal::Obj(crate::json::entries_view(nes@)),
            ),
            Err(e) => spec_hydrate_val(
                set@,
                reg@,
                SpecVal::Obj(crate::json::entries_view(es@)),
                hide,
            ) == Err::<SpecVal, SpecErr>(e@),
        },
    decreases es,
{
    let mut es = es;
    let ghost gves = SpecVal::Obj(crate::json::entries_view(es@));
    let ghost ges = crate::json::entries_view(es@);
    let ghost es0 = es;
    proof {
        assert(ges.skip(0) =~= ges);
        assert(crate::json::entries_view(es@).take(0) =~= Seq::<
            (Seq<char>, SpecVal),
        >::empty());
    }
    let mut i: usize = 0;
    while i < es.len()
        invariant
            i <= es@.len(),
            es@.len() == ges.len(),
            ges == crate::json::entries_view(es0@),
            forall|j: int| i <= j < ges.len() ==> es@[j] == es0@[j],
            forall|j: int| i <= j < ges.len() ==> crate::json::entries_view(es@)[j] == ges[j],
            forall|j: int| 0 <= j < i ==> wf(
                (#[trigger] crate::json::entries_view(es@)[j]).1,
            ),
            forall|j: int| 0 <= j < ges.len() ==> (#[trigger] crate::json::entries_view(
                es@,
            )[j]).0 == ges[j].0,
            ent_combine(
                crate::json::entries_view(es@).take(i as int),
                spec_hydrate_entries(set@, reg@, ges.skip(i as int), hide),
            ) == spec_hydrate_entries(set@, reg@, ges, hide),
        decreases es@.len() - i,
    {
        let ghost gi = i as int;
        let ghost pre = crate::json::entries_view(es@).take(gi);
        proof {
            assert(ges.skip(gi)[0] == ges[gi]);
            assert(ges.skip(gi).drop_first() =~= ges.skip(gi + 1));
            assert(wf(ges[gi].1));
        }
        let ghost esvec = es@;
        let (key, el) = es.remove(i);
        proof {
            assert(es0@[gi].1 == el);
        }
        assert(key@ == ges[gi].0);
        assert(el@ == ges[gi].1);
        let nel = match hydrate_val_owned(set, el, reg, hide) {
            Ok(nel) => nel,
            Err(e) => {
                proof {
                    assert(spec_hydrate_entries(set@, reg@, ges.skip(gi), hide) == Err::<
                        Seq<(Seq<char>, SpecVal)>,
                        SpecErr,
                    >(e@));
                }
                return Err(e);
            },
        };
        es.insert(i, (key, nel));
        proof {
            assert(es@ =~= esvec.update(gi, es@[gi]));
            let now = crate::json::entries_view(es@);
            assert(now.take(gi + 1) =~= pre.push((ges[gi].0, nel@)));
            assert forall|j: int| 0 <= j < gi + 1 implies wf((#[trigger] now[j]).1) by {
                if j < gi {
                    assert(now[j] == (es@[j].0@, es@[j].1@));
                    assert(es@[j] == esvec[j]);
                    assert(crate::json::entries_view(esvec)[j] == (esvec[j].0@, esvec[j].1@));
                } else {
                    assert(now[j] == (ges[gi].0, nel@));
                }
            }
            assert forall|j: int| 0 <= j < ges.len() implies (#[trigger] now[j]).0
                == ges[j].0 by {
                assert(now[j] == (es@[j].0@, es@[j].1@));
                if j != gi {
                    assert(es@[j] == esvec[j]);
                    assert(crate::json::entries_view(esvec)[j] == (esvec[j].0@, esvec[j].1@));
                }
            }
            match spec_hydrate_entries(set@, reg@, ges.skip(gi + 1), hide) {
                Ok(rest) => {
                    assert(pre + (seq![(ges[gi].0, nel@)] + rest) =~= now.take(gi + 1)
                        + rest);
                },
                Err(_) => {},
            }
        }
        i += 1;
    }
    proof {
        assert(ges.skip(ges.len() as int) =~= Seq::<(Seq<char>, SpecVal)>::empty());
        assert(crate::json::entries_view(es@).take(ges.len() as int)
            =~= crate::json::entries_view(es@));
    }
    let ghost ges1 = crate::json::entries_view(es@);
    proof {
        assert(spec_hydrate_entries(set@, reg@, ges, hide) == Ok::<
            Seq<(Seq<char>, SpecVal)>,
            SpecErr,
        >(ges1));
        assert(entries_sorted(ges1)) by {
            assert forall|x: int, y: int| 0 <= x < y < ges1.len() implies crate::text::lex_lt(
                ges1[x].0,
                ges1[y].0,
            ) by {
                assert(ges1[x].0 == ges[x].0);
                assert(ges1[y].0 == ges[y].0);
            }
        }
        assert(ges1.skip(0) =~= ges1);
    }
    // collect the key rewrites
    let mut rlist: Vec<(Vec<char>, Vec<char>)> = Vec::new();
    let mut p: usize = 0;
    proof {
        assert(pairs_view(rlist@) =~= Seq::<(Seq<char>, Seq<char>)>::empty());
    }
    while p < es.len()
        invariant
            p <= es@.len(),
            ges1 == crate::json::entries_view(es@),
            reg.inv(),
            rk_combine(
                pairs_view(rlist@),
                spec_collect_rekeys(set@, reg@, ges1.skip(p as int), ges1, hide),
            ) == spec_collect_rekeys(set@, reg@, ges1, ges1, hide),
        decreases es@.len() - p,
    {
        let ghost gp = p as int;
        proof {
            assert(ges1.skip(gp)[0] == ges1[gp]);
            assert(ges1.skip(gp).drop_first() =~= ges1.skip(gp + 1));
        }
        let key_copy = es[p].0.clone();
        let mut kv = JsonVal::Str(key_copy);
        assert(kv@ == SpecVal::Str(ges1[gp].0));
        let changed = match hydrate_str(set, &mut kv, reg, hide) {
            Ok(changed) => changed,
            Err(e) => {
                return Err(e);
            },
        };
        if changed {
            match kv {
                JsonVal::Str(nks) => {
                    if crate::json::obj_get(&es, &nks).is_some() {
                        return Err(
                            FrError::FrameParsef(
                                DUPE_KEY_UPON_HYDRATION_ERR,
                                string_of_chars(&nks),
                            ),
                        );
                    }
                    let old_key = es[p].0.clone();
                    let ghost prelist = pairs_view(rlist@);
                    rlist.push((old_key, nks));
                    proof {
                        assert(pairs_view(rlist@) =~= prelist.push(
                            (ges1[gp].0, rlist@.last().1@),
                        ));
                        match spec_collect_rekeys(set@, reg@, ges1.skip(gp + 1), ges1, hide) {
                            Ok(rest) => {
                                assert(prelist + (seq![(ges1[gp].0, rlist@.last().1@)]
                                    + rest) =~= pairs_view(rlist@) + rest);
                            },
                            Err(_) => {},
                        }
                    }
                },
                _ => {
                    return Err(FrError::FrameParse(INVALID_KEY_HYDRATION_ERR));
                },
            }
        }
        p += 1;
    }
    proof {
        assert(ges1.skip(es@.len() as int) =~= Seq::<(Seq<char>, SpecVal)>::empty());
    }
    let ghost rks = pairs_view(rlist@);
    proof {
        assert(spec_collect_rekeys(set@, reg@, ges1, ges1, hide) == Ok::<
            Seq<(Seq<char>, Seq<char>)>,
            SpecErr,
        >(rks));
        assert(rks.skip(0) =~= rks);
    }
    // apply the rewrites
    let mut j: usize = 0;
    while j < rlist.len()
        invariant
            j <= rlist@.len(),
            rks == pairs_view(rlist@),
            entries_sorted(crate::json::entries_view(es@)),
            forall|q: int| 0 <= q < crate::json::entries_view(es@).len() ==> wf(
                (#[trigger] crate::json::entries_view(es@)[q]).1,
            ),
            spec_apply_rekeys(crate::json::entries_view(es@), rks.skip(j as int))
                == spec_apply_rekeys(ges1, rks),
        decreases rlist@.len() - j,
    {
        let ghost gj = j as int;
        let ghost before = crate::json::entries_view(es@);
        proof {
            assert(rks.skip(gj)[0] == rks[gj]);
            assert(rks.skip(gj).drop_first() =~= rks.skip(gj + 1));
        }
        let old_key = rlist[j].0.clone();
        let new_key = rlist[j].1.clone();
        assert(old_key@ == rks[gj].0);
        assert(new_key@ == rks[gj].1);
        match crate::json::obj_remove(&mut es, &old_key) {
            Some(moved) => {
                let ghost after_rm = crate::json::entries_view(es@);
                let ghost oldwf = before;
                proof {
                    lemma_get_value_wf(before, rks[gj].0);
                    assert forall|q: int| 0 <= q < after_rm.len() implies wf(
                        (#[trigger] after_rm[q]).1,
                    ) by {
                        crate::cut::lemma_remove_values_wf(before, rks[gj].0, q);
                    }
                }
                crate::json::obj_insert(&mut es, new_key, moved);
                proof {
                    let now = crate::json::entries_view(es@);
                    assert forall|q: int| 0 <= q < now.len() implies wf(
                        (#[trigger] now[q]).1,
                    ) by {
                        crate::cut::lemma_insert_values_wf(
                            after_rm,
                            rks[gj].1,
                            spec_obj_get(before, rks[gj].0)->0,
                            q,
                        );
                    }
                }
            },
            None => {
                proof {
                    crate::json::lemma_get_none_all_ne(before, rks[gj].0);
                    crate::json::lemma_obj_remove_absent(before, rks[gj].0);
                }
            },
        }
        j += 1;
    }
    proof {
        assert(rks.skip(rks.len() as int) =~= Seq::<(Seq<char>, Seq<char>)>::empty());
    }
    Ok(es)
}


/// Mathematical model of a request.
#[verifier::ext_equal]
pub struct SpecRequest {
    pub body: Option<SpecVal>,
    pub uri: SpecVal,
    pub etc: Option<SpecVal>,
    pub header: Option<SpecVal>,
    pub entrypoint: Option<SpecVal>,
}

/// The request side of a frame: the payload to send, the uri (an HTTP
/// method-and-path or a gRPC method name), optional headers, an optional
/// per-frame entrypoint, and preserved unknown sibling fields (`etc`).
pub struct Request {
    pub body: Option<JsonVal>,
    pub uri: JsonVal,
    pub etc: Option<JsonVal>,
    pub header: Option<JsonVal>,
    pub entrypoint: Option<JsonVal>,
}

pub open spec fn opt_view(o: Option<JsonVal>) -> Option<SpecVal> {
    match o {
        Some(v) => Some(v.view_rec()),
        None => None,
    }
}

impl View for Request {
    type V = SpecRequest;

    open spec fn view(&self) -> SpecRequest {
        SpecRequest {
            body: opt_view(self.body),
            uri: self.uri.view_rec(),
            etc: opt_view(self.etc),
            header: opt_view(self.header),
            entrypoint: opt_view(self.entrypoint),
        }
    }
}

pub open spec fn opt_wf(o: Option<SpecVal>) -> bool {
    match o {
        Some(v) => wf(v),
        None => true,
    }
}

impl Request {
    /// Documents well-formed; the uri is a string, as is any entrypoint.
    pub open spec fn inv(self) -> bool {
        &&& opt_wf(self@.body)
        &&& opt_wf(self@.etc)
        &&& opt_wf(self@.header)
        &&& opt_wf(self@.entrypoint)
        &&& self@.uri is Str
        &&& match self@.entrypoint {
            Some(e) => e is Str,
            None => true,
        }
    }

    /// The uri as text.
    pub fn get_uri(&self) -> (r: String)
        ensures
            match self@.uri {
                SpecVal::Str(t) => r@ == t,
                _ => r@.len() == 0,
            },
    {
        match &self.uri {
            JsonVal::Str(t) => string_of_chars(t),
            _ => String::new(),
        }
    }

    /// The preserved extra fields, cloned.
    pub fn get_etc(&self) -> (r: Option<JsonVal>)
        ensures
            opt_view(r) == self@.etc,
    {
        match &self.etc {
            Some(e) => Some(e.duplicate()),
            None => None,
        }
    }

    /// The declared headers, cloned.
    pub fn get_header(&self) -> (r: Option<JsonVal>)
        ensures
            opt_view(r) == self@.header,
    {
        match &self.header {
            Some(h) => Some(h.duplicate()),
            None => None,
        }
    }

    /// The per-frame entrypoint as text, if declared as a string.
    pub fn get_entrypoint(&self) -> (r: Option<String>)
        ensures
            match r {
                Some(t) => self@.entrypoint == Some(SpecVal::Str(t@)),
                None => match self@.entrypoint {
                    Some(e) => !(e is Str),
                    None => true,
                },
            },
    {
        match &self.entrypoint {
            Some(JsonVal::Str(t)) => Some(string_of_chars(t)),
            _ => None,
        }
    }

    /// The body, cloned.
    pub fn to_val_payload(&self) -> (r: Option<JsonVal>)
        ensures
            opt_view(r) == self@.body,
    {
        match &self.body {
            Some(b) => Some(b.duplicate()),
            None => None,
        }
    }

    /// A copy whose model equals this request's.
    pub fn duplicate(&self) -> (r: Request)
        ensures
            r@ == self@,
    {
        Request {
            body: match &self.body {
                Some(b) => Some(b.duplicate()),
                None => None,
            },
            uri: self.uri.duplicate(),
            etc: match &self.etc {
                Some(e) => Some(e.duplicate()),
                None => None,
            },
            header: match &self.header {
                Some(h) => Some(h.duplicate()),
                None => None,
            },
            entrypoint: match &self.entrypoint {
                Some(e) => Some(e.duplicate()),
                None => None,
            },
        }
    }
}

impl Default for Request {
    /// No body, a null uri, empty extras, no header and no entrypoint.
    fn default() -> (r: Request)
        ensures
            r@.body is None,
            r@.uri is Null,
            r@.etc == Some(SpecVal::Obj(Seq::<(Seq<char>, SpecVal)>::empty())),
            r@.header is None,
            r@.entrypoint is None,
    {
        let r = Request {
            body: None,
            uri: JsonVal::Null,
            etc: Some(JsonVal::Obj(Vec::new())),
            header: None,
            entrypoint: None,
        };
        proof {
            assert(r@.etc->0->Obj_0 =~= Seq::<(Seq<char>, SpecVal)>::empty());
        }
        r
    }
}

/// Mathematical model of a frame.
#[verifier::ext_equal]
pub struct SpecFrame {
    pub protocol: Protocol,
    pub cut: SpecInstr,
    pub request: SpecRequest,
    pub response: crate::response::SpecResponse,
}

/// One declared request/response exchange: the protocol, the register
/// instructions, the request to send and the response to expect.
pub struct Frame {
    pub protocol: Protocol,
    pub cut: InstructionSet,
    pub request: Request,
    pub response: Response,
}

impl View for Frame {
    type V = SpecFrame;

    open spec fn view(&self) -> SpecFrame {
        SpecFrame {
            protocol: self.protocol,
            cut: self.cut@,
            request: self.request@,
            response: self.response@,
        }
    }
}

/// An optional document hydrated.
pub open spec fn spec_hydrate_opt(
    instr: SpecInstr,
    reg: Seq<(Seq<char>, SpecVal)>,
    o: Option<SpecVal>,
    hide: bool,
) -> Result<Option<SpecVal>, SpecErr> {
    match o {
        Some(v) => match spec_hydrate_val(instr, reg, v, hide) {
            Ok(nv) => Ok(Some(nv)),
            Err(e) => Err(e),
        },
        None => Ok(None),
    }
}

impl Frame {
    /// Instruction set well-formed and every document well-formed.
    pub open spec fn inv(self) -> bool {
        &&& self.cut.inv()
        &&& self.request.inv()
        &&& self.response.inv()
    }

    /// Hydrates one value in place against the register, recursively.
    pub fn hydrate_val(set: &InstructionSet, val: &mut JsonVal, reg: &Register, hide: bool) -> (r:
        Result<(), FrError>)
        requires
            wf(old(val)@),
            reg.inv(),
        ensures
            match r {
                Ok(_) => spec_hydrate_val(set@, reg@, old(val)@, hide) == Ok::<SpecVal, SpecErr>(
                    final(val)@,
                ) && wf(final(val)@),
                Err(e) => spec_hydrate_val(set@, reg@, old(val)@, hide) == Err::<SpecVal, SpecErr>(
                    e@,
                ),
            },
    {
        let mut cur = JsonVal::Null;
        core::mem::swap(&mut cur, val);
        match hydrate_val_owned(set, cur, reg, hide) {
            Ok(nv) => {
                *val = nv;
                Ok(())
            },
            Err(e) => Err(e),
        }
    }

    /// Hydrates one optional document in place.
    fn hydrate_opt(set: &InstructionSet, o: &mut Option<JsonVal>, reg: &Register, hide: bool) -> (r:
        Result<(), FrError>)
        requires
            opt_wf(opt_view(*old(o))),
            reg.inv(),
        ensures
            match r {
                Ok(_) => spec_hydrate_opt(set@, reg@, opt_view(*old(o)), hide) == Ok::<
                    Option<SpecVal>,
                    SpecErr,
                >(opt_view(*final(o))) && opt_wf(opt_view(*final(o))),
                Err(e) => spec_hydrate_opt(set@, reg@, opt_view(*old(o)), hide) == Err::<
                    Option<SpecVal>,
                    SpecErr,
                >(e@),
            },
    {
        let mut cur: Option<JsonVal> = None;
        core::mem::swap(&mut cur, o);
        match cur {
            Some(v) => match hydrate_val_owned(set, v, reg, hide) {
                Ok(nv) => {
                    *o = Some(nv);
                    Ok(())
                },
                Err(e) => Err(e),
            },
            None => Ok(()),
        }
    }

    /// Hydrates the frame in place: the request body, the expected response
    /// body, the headers, the request extras, the uri and the entrypoint, in
    /// that order, stopping at the first failure.
    pub fn hydrate(&mut self, reg: &Register, hide: bool) -> (r: Result<(), FrError>)
        requires
            old(self).inv(),
            reg.inv(),
        ensures
            final(self)@.protocol == old(self)@.protocol,
            final(self)@.cut == old(self)@.cut,
            final(self)@.response.validation == old(self)@.response.validation,
            final(self)@.response.status == old(self)@.response.status,
            final(self)@.response.etc == old(self)@.response.etc,
            match r {
                Ok(_) => {
                    let instr = old(self)@.cut;
                    &&& spec_hydrate_opt(instr, reg@, old(self)@.request.body, hide) == Ok::<
                        Option<SpecVal>,
                        SpecErr,
                    >(final(self)@.request.body)
                    &&& spec_hydrate_opt(instr, reg@, old(self)@.response.body, hide) == Ok::<
                        Option<SpecVal>,
                        SpecErr,
                    >(final(self)@.response.body)
                    &&& spec_hydrate_opt(instr, reg@, old(self)@.request.header, hide) == Ok::<
                        Option<SpecVal>,
                        SpecErr,
                    >(final(self)@.request.header)
                    &&& spec_hydrate_opt(instr, reg@, old(self)@.request.etc, hide) == Ok::<
                        Option<SpecVal>,
                        SpecErr,
                    >(final(self)@.request.etc)
                    &&& spec_hydrate_str(instr, reg@, old(self)@.request.uri->Str_0, hide) matches
                        Ok(p) && p.0 == final(self)@.request.uri
                    &&& match old(self)@.request.entrypoint {
                        Some(e) => spec_hydrate_str(instr, reg@, e->Str_0, hide) matches Ok(p)
                            && final(self)@.request.entrypoint == Some(p.0),
                        None => final(self)@.request.entrypoint is None,
                    }
                    &&& opt_wf(final(self)@.request.body)
                    &&& opt_wf(final(self)@.response.body)
                    &&& opt_wf(final(self)@.request.header)
                    &&& opt_wf(final(self)@.request.etc)
                    &&& wf(final(self)@.request.uri)
                    &&& opt_wf(final(self)@.request.entrypoint)
                },
                Err(e) => {
                    let instr = old(self)@.cut;
                    ||| spec_hydrate_opt(instr, reg@, old(self)@.request.body, hide) == Err::<
                        Option<SpecVal>,
                        SpecErr,
                    >(e@)
                    ||| spec_hydrate_opt(instr, reg@, old(self)@.response.body, hide) == Err::<
                        Option<SpecVal>,
                        SpecErr,
                    >(e@)
                    ||| spec_hydrate_opt(instr, reg@, old(self)@.request.header, hide) == Err::<
                        Option<SpecVal>,
                        SpecErr,
                    >(e@)
                    ||| spec_hydrate_opt(instr, reg@, old(self)@.request.etc, hide) == Err::<
                        Option<SpecVal>,
                        SpecErr,
                    >(e@)
                    ||| spec_hydrate_str(instr, reg@, old(self)@.request.uri->Str_0, hide)
                        == Err::<(SpecVal, bool), SpecErr>(e@)
                    ||| (old(self)@.request.entrypoint matches Some(ep) && spec_hydrate_str(
                        instr,
                        reg@,
                        ep->Str_0,
                        hide,
                    ) == Err::<(SpecVal, bool), SpecErr>(e@))
                },
            },
    {
        let r1 = Self::hydrate_opt(&self.cut, &mut self.request.body, reg, hide);
        if let Err(e) = r1 {
            return Err(e);
        }
        let r2 = Self::hydrate_opt(&self.cut, &mut self.response.body, reg, hide);
        if let Err(e) = r2 {
            return Err(e);
        }
        let r3 = Self::hydrate_opt(&self.cut, &mut self.request.header, reg, hide);
        if let Err(e) = r3 {
            return Err(e);
        }
        let r4 = Self::hydrate_opt(&self.cut, &mut self.request.etc, reg, hide);
        if let Err(e) = r4 {
            return Err(e);
        }
        let r5 = hydrate_str(&self.cut, &mut self.request.uri, reg, hide);
        if let Err(e) = r5 {
            return Err(e);
        }
        let mut ep: Option<JsonVal> = None;
        core::mem::swap(&mut ep, &mut self.request.entrypoint);
        match ep {
            Some(mut e) => {
                match hydrate_str(&self.cut, &mut e, reg, hide) {
                    Ok(_) => {
                        self.request.entrypoint = Some(e);
                    },
                    Err(err) => {
                        return Err(err);
                    },
                }
            },
            None => {},
        }
        Ok(())
    }

    /// The request, cloned.
    pub fn get_request(&self) -> (r: Request)
        ensures
            r@ == self@.request,
    {
        self.request.duplicate()
    }

    /// The request uri as text.
    pub fn get_request_uri(&self) -> (r: String)
        requires
            self.inv(),
        ensures
            self@.request.uri == SpecVal::Str(r@),
    {
        self.request.get_uri()
    }

    /// The expected response body, `Null` where none is declared.
    pub fn get_response_value(&self) -> (r: JsonVal)
        ensures
            match self@.response.body {
                Some(b) => r@ == b,
                None => r@ is Null,
            },
    {
        match &self.response.body {
            Some(b) => b.duplicate(),
            None => JsonVal::Null,
        }
    }
}


impl Request {
    /// The request body rendered as JSON text; `null` where none is
    /// declared.
    pub fn to_payload(&self) -> (r: String)
        ensures
            r@ == crate::codec::spec_ser(match self@.body {
                Some(b) => b,
                None => SpecVal::Null,
            }),
    {
        match &self.body {
            Some(b) => crate::codec::to_json_string(b),
            None => crate::codec::to_json_string(&JsonVal::Null),
        }
    }
}


/// The request rendered as one JSON object: body, uri, header and
/// entrypoint where present, with the extra fields flattened alongside.
pub open spec fn spec_request_value(r: SpecRequest) -> SpecVal {
    let e0 = Seq::<(Seq<char>, SpecVal)>::empty();
    let e1 = match r.body {
        Some(b) => spec_obj_insert(e0, "body"@, b),
        None => e0,
    };
    let e2 = spec_obj_insert(e1, "uri"@, r.uri);
    let e3 = match r.header {
        Some(h) => spec_obj_insert(e2, "header"@, h),
        None => e2,
    };
    let e4 = match r.entrypoint {
        Some(e) => spec_obj_insert(e3, "entrypoint"@, e),
        None => e3,
    };
    let e5 = match r.etc {
        Some(SpecVal::Obj(ees)) => crate::cut::spec_merge_entries(e4, ees),
        _ => e4,
    };
    SpecVal::Obj(e5)
}

/// The read names rendered as a JSON array of strings, in sorted order.
pub open spec fn spec_read_names_value(rds: Seq<(Seq<char>, SpecVal)>) -> SpecVal {
    SpecVal::Arr(Seq::new(rds.len(), |i: int| SpecVal::Str(rds[i].0)))
}

/// The whole frame rendered as one JSON document: the protocol as its
/// literal, the instruction set (omitted when empty), the request and the
/// expected response.
pub open spec fn spec_frame_value(f: SpecFrame) -> SpecVal {
    let e0 = spec_obj_insert(
        Seq::<(Seq<char>, SpecVal)>::empty(),
        "protocol"@,
        SpecVal::Str(match f.protocol {
            Protocol::GRPC => "gRPC"@,
            Protocol::HTTP => "HTTP"@,
        }),
    );
    let e1 = if f.cut.reads.len() == 0 && f.cut.writes.len() == 0 {
        e0
    } else {
        let c0 = Seq::<(Seq<char>, SpecVal)>::empty();
        let c1 = if f.cut.reads.len() > 0 {
            spec_obj_insert(c0, "from"@, spec_read_names_value(f.cut.reads))
        } else {
            c0
        };
        let c2 = if f.cut.writes.len() > 0 {
            spec_obj_insert(c1, "to"@, SpecVal::Obj(f.cut.writes))
        } else {
            c1
        };
        spec_obj_insert(e0, "cut"@, SpecVal::Obj(c2))
    };
    let e2 = spec_obj_insert(e1, "request"@, spec_request_value(f.request));
    let e3 = spec_obj_insert(
        e2,
        "response"@,
        SpecVal::Obj(crate::response::spec_resp_entries(f.response)),
    );
    SpecVal::Obj(e3)
}

impl Frame {
    /// The whole frame rendered as one JSON document: the protocol as its
    /// literal, the instruction set (omitted when empty), the request and
    /// the expected response.
    pub fn to_value(&self) -> (r: JsonVal)
        requires
            self.inv(),
        ensures
            r@ == spec_frame_value(self@),
            wf(r@),
    {
        let mut root: Vec<(Vec<char>, JsonVal)> = Vec::new();
        proof {
            assert(crate::json::entries_view(root@) =~= Seq::<(Seq<char>, SpecVal)>::empty());
        }
        let proto = match self.protocol {
            Protocol::GRPC => JsonVal::string("gRPC"),
            Protocol::HTTP => JsonVal::string("HTTP"),
        };
        insert_wf(&mut root, "protocol", proto);
        let ghost ge0 = crate::json::entries_view(root@);
        if !self.cut.is_empty() {
            let mut cut_obj: Vec<(Vec<char>, JsonVal)> = Vec::new();
            proof {
                assert(crate::json::entries_view(cut_obj@) =~= Seq::<
                    (Seq<char>, SpecVal),
                >::empty());
            }
            if self.cut.read_count() > 0 {
                let froms = self.cut.read_names_value();
                insert_wf(&mut cut_obj, "from", froms);
            }
            if self.cut.write_count() > 0 {
                let tos = self.cut.write_map_value();
                insert_wf(&mut cut_obj, "to", tos);
            }
            let ghost gco = crate::json::entries_view(cut_obj@);
            let co = JsonVal::Obj(cut_obj);
            proof {
                crate::json::lemma_obj_node_view(co->Obj_0);
                assert(co@ == SpecVal::Obj(gco));
            }
            insert_wf(&mut root, "cut", co);
        }
        let req = self.request_value();
        insert_wf(&mut root, "request", req);
        let resp = self.response_value();
        insert_wf(&mut root, "response", resp);
        let out = JsonVal::Obj(root);
        proof {
            crate::json::lemma_obj_node_view(out->Obj_0);
            assert(out@ == spec_frame_value(self@));
        }
        out
    }

    /// The request rendered as one JSON object.
    fn request_value(&self) -> (r: JsonVal)
        requires
            self.inv(),
        ensures
            r@ == spec_request_value(self@.request),
            wf(r@),
    {
        let mut es: Vec<(Vec<char>, JsonVal)> = Vec::new();
        proof {
            assert(crate::json::entries_view(es@) =~= Seq::<(Seq<char>, SpecVal)>::empty());
        }
        match &self.request.body {
            Some(b) => insert_wf(&mut es, "body", b.duplicate()),
            None => {},
        }
        insert_wf(&mut es, "uri", self.request.uri.duplicate());
        match &self.request.header {
            Some(h) => insert_wf(&mut es, "header", h.duplicate()),
            None => {},
        }
        match &self.request.entrypoint {
            Some(e) => insert_wf(&mut es, "entrypoint", e.duplicate()),
            None => {},
        }
        let ghost base = crate::json::entries_view(es@);
        match &self.request.etc {
            Some(JsonVal::Obj(ees)) => {
                let ghost oes = crate::json::entries_view(ees@);
                proof {
                    assert(self@.request.etc == Some(SpecVal::Obj(oes))) by {
                        crate::json::lemma_obj_node_view(*ees);
                    }
                    assert(oes.skip(0) =~= oes);
                }
                let mut j: usize = 0;
                while j < ees.len()
                    invariant
                        j <= ees@.len(),
                        oes == crate::json::entries_view(ees@),
                        crate::json::entries_sorted(crate::json::entries_view(es@)),
                        forall|q: int| 0 <= q < oes.len() ==> wf((#[trigger] oes[q]).1),
                        forall|q: int| 0 <= q < crate::json::entries_view(es@).len() ==> wf(
                            (#[trigger] crate::json::entries_view(es@)[q]).1,
                        ),
                        crate::cut::spec_merge_entries(
                            crate::json::entries_view(es@),
                            oes.skip(j as int),
                        ) == crate::cut::spec_merge_entries(base, oes),
                    decreases ees@.len() - j,
                {
                    let ghost gj = j as int;
                    proof {
                        assert(oes.skip(gj)[0] == oes[gj]);
                        assert(oes.skip(gj).drop_first() =~= oes.skip(gj + 1));
                        assert(oes[gj] == (ees@[gj].0@, ees@[gj].1@));
                    }
                    let ghost before = crate::json::entries_view(es@);
                    crate::json::obj_insert(&mut es, ees[j].0.clone(), ees[j].1.duplicate());
                    proof {
                        assert forall|q: int| 0 <= q < crate::json::entries_view(es@).len() implies
                            wf((#[trigger] crate::json::entries_view(es@)[q]).1) by {
                            crate::cut::lemma_insert_values_wf(before, oes[gj].0, oes[gj].1, q);
                        }
                    }
                    j += 1;
                }
                proof {
                    assert(oes.skip(ees@.len() as int) =~= Seq::<(Seq<char>, SpecVal)>::empty());
                }
            },
            _ => {},
        }
        let out = JsonVal::Obj(es);
        proof {
            crate::json::lemma_obj_node_view(out->Obj_0);
        }
        out
    }

    /// The expected response rendered as one JSON object.
    fn response_value(&self) -> (r: JsonVal)
        requires
            self.inv(),
        ensures
            r@ == SpecVal::Obj(crate::response::spec_resp_entries(self@.response)),
            wf(r@),
    {
        self.response.to_value()
    }
}

/// Inserts a well-formed value under a literal key, keeping the object
/// well-formed.
fn insert_wf(es: &mut Vec<(Vec<char>, JsonVal)>, key: &str, val: JsonVal)
    requires
        crate::json::entries_sorted(crate::json::entries_view(old(es)@)),
        forall|q: int| 0 <= q < crate::json::entries_view(old(es)@).len() ==> wf(
            (#[trigger] crate::json::entries_view(old(es)@)[q]).1,
        ),
        wf(val@),
    ensures
        crate::json::entries_view(final(es)@) == spec_obj_insert(
            crate::json::entries_view(old(es)@),
            key@,
            val@,
        ),
        crate::json::entries_sorted(crate::json::entries_view(final(es)@)),
        forall|q: int| 0 <= q < crate::json::entries_view(final(es)@).len() ==> wf(
            (#[trigger] crate::json::entries_view(final(es)@)[q]).1,
        ),
{
    let ghost before = crate::json::entries_view(es@);
    let ghost gval = val@;
    let kv = chars_of(key);
    crate::json::obj_insert(es, kv, val);
    proof {
        assert forall|q: int| 0 <= q < crate::json::entries_view(es@).len() implies wf(
            (#[trigger] crate::json::entries_view(es@)[q]).1,
        ) by {
            crate::cut::lemma_insert_values_wf(before, key@, gval, q);
        }
    }
}


impl InstructionSet {
    /// How many read names are declared.
    pub fn read_count(&self) -> (r: usize)
        ensures
            r == self@.reads.len(),
    {
        self.reads.len()
    }

    /// How many write instructions are declared.
    pub fn write_count(&self) -> (r: usize)
        ensures
            r == self@.writes.len(),
    {
        self.writes.len()
    }

    /// The read names as a JSON array of strings, in sorted order.
    pub fn read_names_value(&self) -> (r: JsonVal)
        ensures
            r@ == spec_read_names_value(self@.reads),
            wf(r@),
    {
        let mut out: Vec<JsonVal> = Vec::new();
        let mut i: usize = 0;
        while i < self.reads.len()
            invariant
                i <= self.reads@.len(),
                out@.len() == i,
                forall|q: int| 0 <= q < i ==> #[trigger] crate::json::arr_view(out@)[q]
                    == SpecVal::Str(self@.reads[q].0),
            decreases self.reads@.len() - i,
        {
            let ghost gi = i as int;
            let ghost before = crate::json::arr_view(out@);
            proof {
                assert(self@.reads[gi] == (self.reads@[gi].0@, self.reads@[gi].1@));
            }
            out.push(JsonVal::Str(self.reads[i].0.clone()));
            proof {
                assert forall|q: int| 0 <= q < gi + 1 implies
                    #[trigger] crate::json::arr_view(out@)[q] == SpecVal::Str(self@.reads[q].0) by {
                    if q < gi {
                        assert(crate::json::arr_view(out@)[q] == before[q]);
                    }
                }
            }
            i += 1;
        }
        let r = JsonVal::Arr(out);
        proof {
            crate::json::lemma_arr_node_view(r->Arr_0);
            assert(r@->Arr_0 =~= spec_read_names_value(self@.reads)->Arr_0);
            assert forall|q: int| 0 <= q < r@->Arr_0.len() implies wf(
                #[trigger] r@->Arr_0[q],
            ) by {
                assert(r@->Arr_0[q] is Str);
            }
        }
        r
    }

    /// The write instructions as a JSON object mapping names to selector
    /// strings, in sorted key order.
    pub fn write_map_value(&self) -> (r: JsonVal)
        requires
            self.inv(),
        ensures
            r@ == SpecVal::Obj(self@.writes),
            wf(r@),
    {
        let out = crate::json::dup_entries(&self.writes);
        proof {
            assert(crate::json::entries_view(out@) == self@.writes);
        }
        let r = JsonVal::Obj(out);
        proof {
            crate::json::lemma_obj_node_view(r->Obj_0);
            assert(r@ == SpecVal::Obj(self@.writes));
            assert forall|q: int| 0 <= q < self@.writes.len() implies wf(
                (#[trigger] self@.writes[q]).1,
            ) by {
                assert(self@.writes[q].1 is Str);
            }
        }
        r
    }
}


/// Entries whose key is none of four given names.
fn omit_four(
    es: &Vec<(Vec<char>, JsonVal)>,
    k1: &str,
    k2: &str,
    k3: &str,
    k4: &str,
) -> (r: Vec<(Vec<char>, JsonVal)>)
    requires
        entries_sorted(entries_view(es@)),
        forall|q: int| 0 <= q < entries_view(es@).len() ==> wf(
            (#[trigger] entries_view(es@)[q]).1,
        ),
    ensures
        entries_sorted(entries_view(r@)),
        forall|q: int| 0 <= q < entries_view(r@).len() ==> wf((#[trigger] entries_view(r@)[q]).1),
{
    let ghost ges = entries_view(es@);
    let a = chars_of(k1);
    let b = chars_of(k2);
    let c = chars_of(k3);
    let d = chars_of(k4);
    let mut out: Vec<(Vec<char>, JsonVal)> = Vec::new();
    let mut i: usize = 0;
    proof {
        assert(entries_view(out@) =~= Seq::<(Seq<char>, SpecVal)>::empty());
    }
    while i < es.len()
        invariant
            i <= es@.len(),
            ges == entries_view(es@),
            entries_sorted(ges),
            forall|q: int| 0 <= q < ges.len() ==> wf((#[trigger] ges[q]).1),
            entries_sorted(entries_view(out@)),
            forall|q: int| 0 <= q < entries_view(out@).len() ==> wf(
                (#[trigger] entries_view(out@)[q]).1,
            ),
            forall|q: int, j: int|
                0 <= q < entries_view(out@).len() && i <= j < ges.len() ==> crate::text::lex_lt(
                    (#[trigger] entries_view(out@)[q]).0,
                    (#[trigger] ges[j]).0,
                ),
        decreases es@.len() - i,
    {
        let ghost gi = i as int;
        let skip = crate::text::chars_eq(&es[i].0, &a) || crate::text::chars_eq(&es[i].0, &b)
            || crate::text::chars_eq(&es[i].0, &c) || crate::text::chars_eq(&es[i].0, &d);
        if !skip {
            let ghost pre = entries_view(out@);
            out.push((es[i].0.clone(), es[i].1.duplicate()));
            proof {
                assert(ges[gi] == (es@[gi].0@, es@[gi].1@));
                assert(entries_view(out@) =~= pre.push(ges[gi]));
                let now = entries_view(out@);
                assert forall|x: int, y: int| 0 <= x < y < now.len() implies crate::text::lex_lt(
                    now[x].0,
                    now[y].0,
                ) by {
                    if y == now.len() - 1 {
                        assert(now[x] == pre[x]);
                        assert(now[y] == ges[gi]);
                    } else {
                        assert(now[x] == pre[x]);
                        assert(now[y] == pre[y]);
                    }
                }
                assert forall|q: int| 0 <= q < now.len() implies wf((#[trigger] now[q]).1) by {
                    if q < pre.len() {
                        assert(now[q] == pre[q]);
                    } else {
                        assert(now[q] == ges[gi]);
                    }
                }
                assert forall|q: int, j: int|
                    0 <= q < now.len() && gi + 1 <= j < ges.len() implies crate::text::lex_lt(
                    (#[trigger] now[q]).0,
                    (#[trigger] ges[j]).0,
                ) by {
                    if q < pre.len() {
                        assert(now[q] == pre[q]);
                    } else {
                        assert(now[q] == ges[gi]);
                    }
                }
            }
        }
        i += 1;
    }
    out
}


/// The read names of a `from` array folded into a sorted name set, in
/// order, as `InstructionSet::insert_read` builds it.
pub open spec fn spec_reads_fold(a: Seq<SpecVal>) -> Seq<(Seq<char>, SpecVal)>
    decreases a.len(),
{
    if a.len() == 0 {
        Seq::empty()
    } else {
        spec_obj_insert(spec_reads_fold(a.drop_last()), a.last()->Str_0, SpecVal::Null)
    }
}

/// The write instructions of a `to` object folded into a sorted map, in
/// order, as `InstructionSet::insert_write` builds it.
pub open spec fn spec_writes_fold(tes: Seq<(Seq<char>, SpecVal)>) -> Seq<(Seq<char>, SpecVal)>
    decreases tes.len(),
{
    if tes.len() == 0 {
        Seq::empty()
    } else {
        spec_obj_insert(spec_writes_fold(tes.drop_last()), tes.last().0, tes.last().1)
    }
}

/// A well-shaped `from` member: absent, or an array of strings.
pub open spec fn cut_from_ok(o: Option<SpecVal>) -> bool {
    match o {
        None => true,
        Some(SpecVal::Arr(a)) => forall|i: int| 0 <= i < a.len() ==> (#[trigger] a[i]) is Str,
        Some(_) => false,
    }
}

/// A well-shaped `to` member: absent, or an object with string selectors.
pub open spec fn cut_to_ok(o: Option<SpecVal>) -> bool {
    match o {
        None => true,
        Some(SpecVal::Obj(tes)) => forall|i: int| 0 <= i < tes.len() ==> (#[trigger] tes[i]).1
            is Str,
        Some(_) => false,
    }
}

/// A well-shaped `cut` member: absent, or an object whose `from` and `to`
/// are well-shaped.
pub open spec fn cut_shape_ok(o: Option<SpecVal>) -> bool {
    match o {
        None => true,
        Some(SpecVal::Obj(ces)) => cut_from_ok(spec_obj_get(ces, "from"@)) && cut_to_ok(
            spec_obj_get(ces, "to"@),
        ),
        Some(_) => false,
    }
}

/// The read and write instructions a `cut` member declares.
pub open spec fn spec_cut_of(o: Option<SpecVal>) -> (
    Seq<(Seq<char>, SpecVal)>,
    Seq<(Seq<char>, SpecVal)>,
) {
    match o {
        Some(SpecVal::Obj(ces)) => (
            match spec_obj_get(ces, "from"@) {
                Some(SpecVal::Arr(a)) => spec_reads_fold(a),
                _ => Seq::empty(),
            },
            match spec_obj_get(ces, "to"@) {
                Some(SpecVal::Obj(tes)) => spec_writes_fold(tes),
                _ => Seq::empty(),
            },
        ),
        _ => (Seq::empty(), Seq::empty()),
    }
}

/// A well-shaped `request` member: an object with a string `uri` and, when
/// present, a string `entrypoint`.
pub open spec fn request_shape_ok(o: Option<SpecVal>) -> bool {
    match o {
        Some(SpecVal::Obj(req)) => (match spec_obj_get(req, "uri"@) {
            Some(u) => u is Str,
            None => false,
        }) && (match spec_obj_get(req, "entrypoint"@) {
            Some(e) => e is Str,
            None => true,
        }),
        _ => false,
    }
}

/// A well-shaped `status` member: a number of plain digits that fits `u32`.
pub open spec fn status_ok(o: Option<SpecVal>) -> bool {
    match o {
        Some(SpecVal::Num(ds)) => ds.len() > 0 && (forall|i: int|
            0 <= i < ds.len() ==> crate::text::is_digit(#[trigger] ds[i]))
            && crate::text::digits_val(ds) <= u32::MAX,
        _ => false,
    }
}

/// A well-shaped validation flag: absent or a boolean.
pub open spec fn flag_ok(o: Option<SpecVal>) -> bool {
    match o {
        None => true,
        Some(SpecVal::Bool(_)) => true,
        Some(_) => false,
    }
}

/// A well-shaped validation rule: an object of boolean flags.
pub open spec fn rule_ok(v: SpecVal) -> bool {
    match v {
        SpecVal::Obj(re) => flag_ok(spec_obj_get(re, "partial"@)) && flag_ok(
            spec_obj_get(re, "unordered"@),
        ),
        _ => false,
    }
}

/// A well-shaped `validation` member: absent, or an object of rules whose
/// selectors point below the response body.
pub open spec fn validation_shape_ok(o: Option<SpecVal>) -> bool {
    match o {
        None => true,
        Some(SpecVal::Obj(ves)) => (forall|i: int| 0 <= i < ves.len() ==> #[trigger] rule_ok(
            ves[i].1,
        )) && (forall|i: int| 0 <= i < ves.len() ==> crate::text::is_sub_at(
            crate::response::strip_dots((#[trigger] ves[i]).0),
            0,
            "'response'.'body'"@,
        )),
        Some(_) => false,
    }
}

/// The reduction of `validation_shape_ok` on an object.
proof fn lemma_validation_shape_unfold(ves: Seq<(Seq<char>, SpecVal)>)
    ensures
        validation_shape_ok(Some(SpecVal::Obj(ves))) == ((forall|i: int|
            0 <= i < ves.len() ==> #[trigger] rule_ok(ves[i].1)) && (forall|i: int|
            0 <= i < ves.len() ==> crate::text::is_sub_at(
                crate::response::strip_dots((#[trigger] ves[i]).0),
                0,
                "'response'.'body'"@,
            ))),
{
    assert(Some(SpecVal::Obj(ves)) matches Some(SpecVal::Obj(x)) && x == ves);
}

/// One malformed rule refutes the validation shape.
proof fn lemma_validation_shape_not_rule(ves: Seq<(Seq<char>, SpecVal)>, i: int)
    requires
        0 <= i < ves.len(),
        !rule_ok(ves[i].1),
    ensures
        !validation_shape_ok(Some(SpecVal::Obj(ves))),
{
    lemma_validation_shape_unfold(ves);
}

/// One selector outside the response body refutes the validation shape.
proof fn lemma_validation_shape_not_key(ves: Seq<(Seq<char>, SpecVal)>, i: int)
    requires
        0 <= i < ves.len(),
        !crate::text::is_sub_at(
            crate::response::strip_dots(ves[i].0),
            0,
            "'response'.'body'"@,
        ),
    ensures
        !validation_shape_ok(Some(SpecVal::Obj(ves))),
{
    lemma_validation_shape_unfold(ves);
}

/// A well-shaped `response` member.
pub open spec fn response_shape_ok(o: Option<SpecVal>) -> bool {
    match o {
        Some(SpecVal::Obj(resp)) => status_ok(spec_obj_get(resp, "status"@))
            && validation_shape_ok(spec_obj_get(resp, "validation"@)),
        _ => false,
    }
}

/// A valid frame document: JSON text holding an object whose protocol is
/// the literal `"HTTP"` or `"gRPC"`, whose cut, request and response
/// members are well-shaped, and whose read and write instructions share no
/// name. `Frame::new` accepts exactly these documents.
pub open spec fn frame_doc_ok(t: Seq<char>) -> bool {
    &&& spec_parse_doc(t) is Some
    &&& spec_parse_doc(t)->0 is Obj
    &&& ({
        let es = spec_parse_doc(t)->0->Obj_0;
        &&& (spec_obj_get(es, "protocol"@) == Some(SpecVal::Str("HTTP"@)) || spec_obj_get(
            es,
            "protocol"@,
        ) == Some(SpecVal::Str("gRPC"@)))
        &&& cut_shape_ok(spec_obj_get(es, "cut"@))
        &&& ({
            let folds = spec_cut_of(spec_obj_get(es, "cut"@));
            forall|i: int| 0 <= i < folds.0.len() ==> spec_obj_get(
                folds.1,
                (#[trigger] folds.0[i]).0,
            ) is None
        })
        &&& request_shape_ok(spec_obj_get(es, "request"@))
        &&& response_shape_ok(spec_obj_get(es, "response"@))
    })
}

impl Frame {
    /// Reads a frame out of JSON text: the protocol, the optional
    /// instruction set (`from` names and `to` selectors), the request and
    /// the expected response, with unknown sibling fields preserved as
    /// extras. The instruction set and the validation selectors are checked
    /// as the original documents demand.
    #[verifier::loop_isolation(false)]
    #[verifier::rlimit(100)]
    pub fn new(json_string: &str) -> (r: Result<Frame, FrError>)
        ensures
            match r {
                Ok(f) => crate::codec::spec_parse_doc(json_string@) matches Some(dv)
                    && dv matches SpecVal::Obj(es) && {
                    &&& f.inv()
                    &&& (f.protocol == Protocol::HTTP ==> spec_obj_get(es, "protocol"@) == Some(
                        SpecVal::Str("HTTP"@),
                    ))
                    &&& (f.protocol == Protocol::GRPC ==> spec_obj_get(es, "protocol"@) == Some(
                        SpecVal::Str("gRPC"@),
                    ))
                    &&& spec_obj_get(es, "request"@) matches Some(SpecVal::Obj(req)) && {
                        &&& f@.request.body == spec_obj_get(req, "body"@)
                        &&& spec_obj_get(req, "uri"@) == Some(f@.request.uri)
                        &&& f@.request.header == spec_obj_get(req, "header"@)
                        &&& f@.request.entrypoint == spec_obj_get(req, "entrypoint"@)
                    }
                    &&& spec_obj_get(es, "response"@) matches Some(SpecVal::Obj(resp)) && {
                        &&& f@.response.body == spec_obj_get(resp, "body"@)
                        &&& spec_obj_get(resp, "status"@) matches Some(SpecVal::Num(ds))
                            && crate::text::digits_val(ds) == f@.response.status
                    }
                    &&& forall|q: int| 0 <= q < f@.cut.reads.len() ==> spec_obj_get(
                        f@.cut.writes,
                        (#[trigger] f@.cut.reads[q]).0,
                    ) is None
                    &&& match f@.response.validation {
                        Some(vs) => crate::response::validation_keys_ok(vs),
                        None => true,
                    }
                    &&& f@.cut.reads == spec_cut_of(spec_obj_get(es, "cut"@)).0
                    &&& f@.cut.writes == spec_cut_of(spec_obj_get(es, "cut"@)).1
                    &&& !f@.cut.hydrate_writes
                    &&& frame_doc_ok(json_string@)
                },
                Err(_) => !frame_doc_ok(json_string@),
            },
    {
        broadcast use crate::json::lemma_obj_node_view, crate::json::lemma_arr_node_view;

        let v = match crate::codec::parse_json(json_string) {
            Ok(v) => v,
            Err(e) => {
                return Err(e);
            },
        };
        let ghost gdoc = v@;
        let es = match v {
            JsonVal::Obj(es) => es,
            _ => {
                return Err(FrError::Serde("frame must be a JSON object".to_owned()));
            },
        };
        proof {
            crate::json::lemma_obj_node_view(es);
            assert(gdoc == SpecVal::Obj(entries_view(es@)));
            crate::json::lemma_entry_values_wf(entries_view(es@));
        }
        let ghost ges = entries_view(es@);
        let protocol = match crate::json::obj_get(&es, &chars_of("protocol")) {
            Some(JsonVal::Str(p)) => {
                if crate::text::chars_eq(p, &chars_of("HTTP")) {
                    Protocol::HTTP
                } else if crate::text::chars_eq(p, &chars_of("gRPC")) {
                    Protocol::GRPC
                } else {
                    proof {
                        assert(!frame_doc_ok(json_string@));
                    }
                    return Err(FrError::Serde("unknown protocol".to_owned()));
                }
            },
            _ => {
                proof {
                    assert(!frame_doc_ok(json_string@));
                }
                return Err(FrError::Serde("frame is missing its protocol".to_owned()));
            },
        };
        let mut cut = InstructionSet::new();
        let ghost gfolds = spec_cut_of(spec_obj_get(ges, "cut"@));
        match crate::json::obj_get(&es, &chars_of("cut")) {
            Some(JsonVal::Obj(ces)) => {
                proof {
                    crate::json::lemma_obj_node_view(*ces);
                }
                let ghost gces = entries_view(ces@);
                match crate::json::obj_get(ces, &chars_of("from")) {
                    Some(JsonVal::Arr(fa)) => {
                        proof {
                            crate::json::lemma_arr_node_view(*fa);
                        }
                        let ghost gfa = crate::json::arr_view(fa@);
                        let mut t: usize = 0;
                        proof {
                            assert(gfa.take(0) =~= Seq::<SpecVal>::empty());
                        }
                        while t < fa.len()
                            invariant
                                t <= fa@.len(),
                                cut.inv(),
                                gfa == crate::json::arr_view(fa@),
                                forall|i: int| 0 <= i < t ==> (#[trigger] gfa[i]) is Str,
                                cut@.reads == spec_reads_fold(gfa.take(t as int)),
                                cut@.writes.len() == 0,
                                !cut@.hydrate_writes,
                            decreases fa@.len() - t,
                        {
                            let ghost gt = t as int;
                            match &fa[t] {
                                JsonVal::Str(n) => {
                                    cut.insert_read(string_of_chars(n).as_str());
                                    proof {
                                        assert(gfa.take(gt + 1).drop_last() =~= gfa.take(gt));
                                        assert(gfa.take(gt + 1).last() == gfa[gt]);
                                    }
                                },
                                _ => {
                                    proof {
                                        assert(!(gfa[gt] is Str));
                                        assert(!cut_from_ok(spec_obj_get(gces, "from"@)));
                                        assert(!frame_doc_ok(json_string@));
                                    }
                                    return Err(
                                        FrError::Serde("read names must be strings".to_owned()),
                                    );
                                },
                            }
                            t += 1;
                        }
                        proof {
                            assert(gfa.take(fa@.len() as int) =~= gfa);
                            assert(cut_from_ok(spec_obj_get(gces, "from"@)));
                        }
                    },
                    Some(_) => {
                        proof {
                            assert(!cut_from_ok(spec_obj_get(gces, "from"@)));
                            assert(!frame_doc_ok(json_string@));
                        }
                        return Err(FrError::Serde("read names must be an array".to_owned()));
                    },
                    None => {},
                }
                let ghost grds = cut@.reads;
                match crate::json::obj_get(ces, &chars_of("to")) {
                    Some(JsonVal::Obj(tes)) => {
                        proof {
                            crate::json::lemma_obj_node_view(*tes);
                        }
                        let ghost gtes = entries_view(tes@);
                        let mut t: usize = 0;
                        proof {
                            assert(gtes.take(0) =~= Seq::<(Seq<char>, SpecVal)>::empty());
                        }
                        while t < tes.len()
                            invariant
                                t <= tes@.len(),
                                cut.inv(),
                                gtes == entries_view(tes@),
                                forall|i: int| 0 <= i < t ==> (#[trigger] gtes[i]).1 is Str,
                                cut@.reads == grds,
                                cut@.writes == spec_writes_fold(gtes.take(t as int)),
                                !cut@.hydrate_writes,
                            decreases tes@.len() - t,
                        {
                            let ghost gt = t as int;
                            proof {
                                assert(gtes[gt] == (tes@[gt].0@, tes@[gt].1@));
                            }
                            match &tes[t].1 {
                                JsonVal::Str(sel) => {
                                    cut.insert_write(
                                        string_of_chars(&tes[t].0).as_str(),
                                        string_of_chars(sel).as_str(),
                                    );
                                    proof {
                                        assert(gtes.take(gt + 1).drop_last() =~= gtes.take(gt));
                                        assert(gtes.take(gt + 1).last() == gtes[gt]);
                                        assert(gtes[gt].1 == SpecVal::Str(sel@));
                                    }
                                },
                                _ => {
                                    proof {
                                        assert(!(gtes[gt].1 is Str));
                                        assert(!cut_to_ok(spec_obj_get(gces, "to"@)));
                                        assert(!frame_doc_ok(json_string@));
                                    }
                                    return Err(
                                        FrError::Serde("selectors must be strings".to_owned()),
                                    );
                                },
                            }
                            t += 1;
                        }
                        proof {
                            assert(gtes.take(tes@.len() as int) =~= gtes);
                            assert(cut_to_ok(spec_obj_get(gces, "to"@)));
                        }
                    },
                    Some(_) => {
                        proof {
                            assert(!cut_to_ok(spec_obj_get(gces, "to"@)));
                            assert(!frame_doc_ok(json_string@));
                        }
                        return Err(FrError::Serde("write instructions must be an object".to_owned()));
                    },
                    None => {},
                }
                proof {
                    assert(cut@.reads == gfolds.0);
                    assert(cut@.writes == gfolds.1);
                    assert(cut_shape_ok(spec_obj_get(ges, "cut"@)));
                }
            },
            Some(_) => {
                proof {
                    assert(!cut_shape_ok(spec_obj_get(ges, "cut"@)));
                    assert(!frame_doc_ok(json_string@));
                }
                return Err(FrError::Serde("cut must be an object".to_owned()));
            },
            None => {
                proof {
                    assert(cut@.reads =~= gfolds.0);
                    assert(cut@.writes =~= gfolds.1);
                    assert(cut_shape_ok(spec_obj_get(ges, "cut"@)));
                }
            },
        }
        match cut.validate() {
            Ok(_) => {},
            Err(e) => {
                proof {
                    assert(!frame_doc_ok(json_string@));
                }
                return Err(e);
            },
        }
        let req_entries = match crate::json::obj_get(&es, &chars_of("request")) {
            Some(JsonVal::Obj(r)) => r,
            _ => {
                proof {
                    assert(!request_shape_ok(spec_obj_get(ges, "request"@)));
                    assert(!frame_doc_ok(json_string@));
                }
                return Err(FrError::Serde("frame is missing its request".to_owned()));
            },
        };
        proof {
            crate::json::lemma_obj_node_view(*req_entries);
            crate::json::lemma_get_value_wf_pub(entries_view(es@), "request"@);
            crate::json::lemma_entry_values_wf(entries_view(req_entries@));
            let rv = entries_view(req_entries@);
            if spec_obj_get(rv, "body"@) is Some {
                crate::json::lemma_get_value_wf_pub(rv, "body"@);
            }
            if spec_obj_get(rv, "uri"@) is Some {
                crate::json::lemma_get_value_wf_pub(rv, "uri"@);
            }
            if spec_obj_get(rv, "header"@) is Some {
                crate::json::lemma_get_value_wf_pub(rv, "header"@);
            }
            if spec_obj_get(rv, "entrypoint"@) is Some {
                crate::json::lemma_get_value_wf_pub(rv, "entrypoint"@);
            }
        }
        let body = match crate::json::obj_get(req_entries, &chars_of("body")) {
            Some(b) => Some(b.duplicate()),
            None => None,
        };
        let uri = match crate::json::obj_get(req_entries, &chars_of("uri")) {
            Some(u @ JsonVal::Str(_)) => u.duplicate(),
            Some(_) => {
                proof {
                    assert(!request_shape_ok(spec_obj_get(ges, "request"@)));
                    assert(!frame_doc_ok(json_string@));
                }
                return Err(FrError::Serde("the uri must be a string".to_owned()));
            },
            None => {
                proof {
                    assert(!request_shape_ok(spec_obj_get(ges, "request"@)));
                    assert(!frame_doc_ok(json_string@));
                }
                return Err(FrError::Serde("the request is missing its uri".to_owned()));
            },
        };
        let header = match crate::json::obj_get(req_entries, &chars_of("header")) {
            Some(h) => Some(h.duplicate()),
            None => None,
        };
        let entrypoint = match crate::json::obj_get(req_entries, &chars_of("entrypoint")) {
            Some(e @ JsonVal::Str(_)) => Some(e.duplicate()),
            Some(_) => {
                proof {
                    assert(!request_shape_ok(spec_obj_get(ges, "request"@)));
                    assert(!frame_doc_ok(json_string@));
                }
                return Err(FrError::Serde("the entrypoint must be a string".to_owned()));
            },
            None => None,
        };
        let req_etc = omit_four(req_entries, "body", "uri", "header", "entrypoint");
        let request = Request {
            body,
            uri,
            etc: Some(JsonVal::Obj(req_etc)),
            header,
            entrypoint,
        };
        let resp_entries = match crate::json::obj_get(&es, &chars_of("response")) {
            Some(JsonVal::Obj(r)) => r,
            _ => {
                proof {
                    assert(!response_shape_ok(spec_obj_get(ges, "response"@)));
                    assert(!frame_doc_ok(json_string@));
                }
                return Err(FrError::Serde("frame is missing its response".to_owned()));
            },
        };
        proof {
            crate::json::lemma_obj_node_view(*resp_entries);
            crate::json::lemma_get_value_wf_pub(entries_view(es@), "response"@);
            crate::json::lemma_entry_values_wf(entries_view(resp_entries@));
            let rv = entries_view(resp_entries@);
            if spec_obj_get(rv, "body"@) is Some {
                crate::json::lemma_get_value_wf_pub(rv, "body"@);
            }
        }
        let resp_body = match crate::json::obj_get(resp_entries, &chars_of("body")) {
            Some(b) => Some(b.duplicate()),
            None => None,
        };
        let status = match crate::json::obj_get(resp_entries, &chars_of("status")) {
            Some(JsonVal::Num(ds)) => match crate::text::parse_u32(ds) {
                Some(n) => n,
                None => {
                    proof {
                        assert(!status_ok(spec_obj_get(entries_view(resp_entries@), "status"@)));
                        assert(!response_shape_ok(spec_obj_get(ges, "response"@)));
                        assert(!frame_doc_ok(json_string@));
                    }
                    return Err(FrError::Serde("the status must be a whole number".to_owned()));
                },
            },
            _ => {
                proof {
                    assert(!status_ok(spec_obj_get(entries_view(resp_entries@), "status"@)));
                    assert(!response_shape_ok(spec_obj_get(ges, "response"@)));
                    assert(!frame_doc_ok(json_string@));
                }
                return Err(FrError::Serde("the response is missing its status".to_owned()));
            },
        };
        let ghost grespv = entries_view(resp_entries@);
        let validation = match crate::json::obj_get(resp_entries, &chars_of("validation")) {
            Some(JsonVal::Obj(ves)) => {
                proof {
                    crate::json::lemma_obj_node_view(*ves);
                }
                let ghost gves = entries_view(ves@);
                proof {
                    assert(spec_obj_get(grespv, "validation"@) == Some(SpecVal::Obj(gves)));
                }
                let mut out: Vec<(Vec<char>, crate::response::Validator)> = Vec::new();
                let mut t: usize = 0;
                while t < ves.len()
                    invariant
                        t <= ves@.len(),
                        gves == entries_view(ves@),
                        out@.len() == t,
                        forall|i: int| 0 <= i < t ==> rule_ok((#[trigger] gves[i]).1),
                        forall|i: int| 0 <= i < t ==> crate::response::validation_view(
                            out@,
                        )[i].0 == (#[trigger] gves[i]).0,
                    decreases ves@.len() - t,
                {
                    let ghost gt = t as int;
                    proof {
                        assert(gves[gt] == (ves@[gt].0@, ves@[gt].1@));
                    }
                    let rule = match &ves[t].1 {
                        JsonVal::Obj(re) => re,
                        _ => {
                            proof {
                                assert(!rule_ok(gves[gt].1));
                                lemma_validation_shape_not_rule(gves, gt);
                                assert(!validation_shape_ok(
                                    spec_obj_get(grespv, "validation"@),
                                ));
                                assert(!response_shape_ok(spec_obj_get(ges, "response"@)));
                                assert(!frame_doc_ok(json_string@));
                            }
                            return Err(
                                FrError::Serde("validation rules must be objects".to_owned()),
                            );
                        },
                    };
                    proof {
                        crate::json::lemma_obj_node_view(*rule);
                        assert(gves[gt].1 == SpecVal::Obj(entries_view(rule@)));
                    }
                    let partial = match crate::json::obj_get(rule, &chars_of("partial")) {
                        Some(JsonVal::Bool(b)) => *b,
                        None => false,
                        Some(_) => {
                            proof {
                                assert(!flag_ok(spec_obj_get(entries_view(rule@), "partial"@)));
                                assert(!rule_ok(gves[gt].1));
                                lemma_validation_shape_not_rule(gves, gt);
                                assert(!validation_shape_ok(
                                    spec_obj_get(grespv, "validation"@),
                                ));
                                assert(!response_shape_ok(spec_obj_get(ges, "response"@)));
                                assert(!frame_doc_ok(json_string@));
                            }
                            return Err(
                                FrError::Serde("validation flags must be booleans".to_owned()),
                            );
                        },
                    };
                    let unordered = match crate::json::obj_get(rule, &chars_of("unordered")) {
                        Some(JsonVal::Bool(b)) => *b,
                        None => false,
                        Some(_) => {
                            proof {
                                assert(!flag_ok(spec_obj_get(entries_view(rule@), "unordered"@)));
                                assert(!rule_ok(gves[gt].1));
                                lemma_validation_shape_not_rule(gves, gt);
                                assert(!validation_shape_ok(
                                    spec_obj_get(grespv, "validation"@),
                                ));
                                assert(!response_shape_ok(spec_obj_get(ges, "response"@)));
                                assert(!frame_doc_ok(json_string@));
                            }
                            return Err(
                                FrError::Serde("validation flags must be booleans".to_owned()),
                            );
                        },
                    };
                    let ghost pre = out@;
                    out.push(
                        (
                            ves[t].0.clone(),
                            crate::response::Validator { partial, unordered },
                        ),
                    );
                    proof {
                        assert forall|i: int| 0 <= i < gt + 1 implies
                            crate::response::validation_view(out@)[i].0 == (
                        #[trigger] gves[i]).0 by {
                            if i < gt {
                                assert(crate::response::validation_view(out@)[i]
                                    == crate::response::validation_view(pre)[i]);
                            } else {
                                assert(crate::response::validation_view(out@)[i] == (
                                out@[i].0@,
                                out@[i].1,
                                ));
                            }
                        }
                    }
                    t += 1;
                }
                proof {
                    let g = spec_obj_get(grespv, "validation"@)->0->Obj_0;
                    assert(g == gves);
                    assert(crate::response::validation_view(out@).len() == g.len());
                    assert(forall|i: int| 0 <= i < g.len() ==> crate::response::validation_view(
                        out@,
                    )[i].0 == (#[trigger] g[i]).0);
                    assert(forall|i: int| 0 <= i < g.len() ==> rule_ok((#[trigger] g[i]).1));
                }
                Some(out)
            },
            Some(_) => {
                proof {
                    assert(!validation_shape_ok(spec_obj_get(grespv, "validation"@)));
                    assert(!response_shape_ok(spec_obj_get(ges, "response"@)));
                    assert(!frame_doc_ok(json_string@));
                }
                return Err(FrError::Serde("validation must be an object".to_owned()));
            },
            None => None,
        };
        let resp_etc = omit_four(resp_entries, "body", "status", "validation", "validation");
        let response = Response {
            body: resp_body,
            etc: Some(JsonVal::Obj(resp_etc)),
            validation,
            status,
        };
        match response.validate() {
            Ok(_) => {},
            Err(e) => {
                proof {
                    match spec_obj_get(grespv, "validation"@) {
                        Some(SpecVal::Obj(g)) => {
                            let vs = response@.validation->0;
                            let i = choose|i: int|
                                0 <= i < vs.len() && !crate::text::is_sub_at(
                                    crate::response::strip_dots((#[trigger] vs[i]).0),
                                    0,
                                    "'response'.'body'"@,
                                );
                            assert(vs[i].0 == g[i].0);
                            assert(!validation_shape_ok(spec_obj_get(grespv, "validation"@)));
                        },
                        _ => {},
                    }
                    assert(!frame_doc_ok(json_string@));
                }
                return Err(e);
            },
        }
        proof {
            match spec_obj_get(grespv, "validation"@) {
                Some(SpecVal::Obj(g)) => {
                    let vs = response@.validation->0;
                    assert forall|i: int| 0 <= i < g.len() implies crate::text::is_sub_at(
                        crate::response::strip_dots((#[trigger] g[i]).0),
                        0,
                        "'response'.'body'"@,
                    ) by {
                        assert(g[i].0 == vs[i].0);
                    }
                    assert(validation_shape_ok(spec_obj_get(grespv, "validation"@)));
                },
                _ => {},
            }
            assert(response_shape_ok(spec_obj_get(ges, "response"@)));
            assert(request_shape_ok(spec_obj_get(ges, "request"@)));
            assert(frame_doc_ok(json_string@));
        }
        Ok(Frame { protocol, cut, request, response })
    }
}

} // verus!
