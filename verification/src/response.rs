//! The expected response side of a frame, the tolerance rules declared on
//! it, and the matching of live payloads against it.

use vstd::prelude::*;
use crate::cut::{spec_merge_entries, spec_write_match, var_pattern_of, Register};
use crate::error::{FrError, SpecErr};
use crate::frame::InstructionSet;
use crate::json::{
    entries_sorted, entries_view, spec_obj_get, spec_obj_insert, wf, JsonVal, SpecVal,
};
use crate::selector::{spec_parse_selector, spec_select, spec_select_value, select_value, spec_replace, spec_obj_index, replace_at, parse_selector, select_at, steps_view, SelStep, SpecStep};
use crate::text::{chars_of, is_sub_at, spec_u32_dec, string_of_chars, sub_at, subvec, u32_to_dec};

verus! {

broadcast use vstd::std_specs::vec::group_vec_axioms;

/// One validation ruleset applied to a single selection: tolerate extra
/// content (`partial`), tolerate order (`unordered`).
#[derive(PartialEq, Eq, Structural, Clone, Copy, Debug)]
pub struct Validator {
    pub partial: bool,
    pub unordered: bool,
}

/// Mathematical model of a response.
#[verifier::ext_equal]
pub struct SpecResponse {
    pub body: Option<SpecVal>,
    pub etc: Option<SpecVal>,
    pub validation: Option<Seq<(Seq<char>, Validator)>>,
    pub status: u32,
}

/// The response a frame expects: status, body, preserved unknown sibling
/// fields (`etc`), and the tolerance rules keyed by selector.
pub struct Response {
    pub body: Option<JsonVal>,
    pub etc: Option<JsonVal>,
    pub validation: Option<Vec<(Vec<char>, Validator)>>,
    pub status: u32,
}

/// The model of a validation entry list.
pub open spec fn validation_view(vs: Seq<(Vec<char>, Validator)>) -> Seq<(Seq<char>, Validator)> {
    Seq::new(
        vs.len(),
        |i: int| if 0 <= i < vs.len() { (vs[i].0@, vs[i].1) } else { (Seq::empty(), Validator { partial: false, unordered: false }) },
    )
}

impl View for Response {
    type V = SpecResponse;

    open spec fn view(&self) -> SpecResponse {
        SpecResponse {
            body: match self.body {
                Some(ref b) => Some(b@),
                None => None,
            },
            etc: match self.etc {
                Some(ref e) => Some(e@),
                None => None,
            },
            validation: match self.validation {
                Some(ref v) => Some(validation_view(v@)),
                None => None,
            },
            status: self.status,
        }
    }
}

/// Two responses compare equal: by body, extra fields and status alone; the
/// declared validation rules are left out, so an expected response compares
/// cleanly against a live one.
pub open spec fn resp_sim(a: SpecResponse, b: SpecResponse) -> bool {
    a.body == b.body && a.etc == b.etc && a.status == b.status
}

impl Response {
    /// Documents well-formed.
    pub open spec fn inv(self) -> bool {
        &&& match self.body {
            Some(b) => wf(b@),
            None => true,
        }
        &&& match self.etc {
            Some(e) => wf(e@),
            None => true,
        }
    }

    /// A response with no body, no validation, empty extras and status 0.
    pub fn new() -> (r: Response)
        ensures
            r@.body is None,
            r@.etc == Some(SpecVal::Obj(Seq::<(Seq<char>, SpecVal)>::empty())),
            r@.validation is None,
            r@.status == 0,
            r.inv(),
    {
        let r = Response { body: None, etc: Some(JsonVal::Obj(Vec::new())), validation: None, status: 0 };
        proof {
            assert(r@.etc->0->Obj_0 =~= Seq::<(Seq<char>, SpecVal)>::empty());
        }
        r
    }

    /// A copy whose model equals this response's.
    pub fn duplicate(&self) -> (r: Response)
        ensures
            r@ == self@,
    {
        let body = match &self.body {
            Some(b) => Some(b.duplicate()),
            None => None,
        };
        let etc = match &self.etc {
            Some(e) => Some(e.duplicate()),
            None => None,
        };
        let validation = match &self.validation {
            Some(v) => {
                let mut out: Vec<(Vec<char>, Validator)> = Vec::new();
                let mut i: usize = 0;
                while i < v.len()
                    invariant
                        i <= v@.len(),
                        out@.len() == i,
                        forall|j: int| 0 <= j < i ==> validation_view(out@)[j] == validation_view(
                            v@,
                        )[j],
                    decreases v@.len() - i,
                {
                    out.push((v[i].0.clone(), v[i].1));
                    i += 1;
                }
                proof {
                    assert(validation_view(out@) =~= validation_view(v@));
                }
                Some(out)
            },
            None => None,
        };
        Response { body, etc, validation, status: self.status }
    }
}

impl PartialEq for Response {
    fn eq(&self, other: &Response) -> (r: bool) {
        let body_eq = match (&self.body, &other.body) {
            (Some(a), Some(b)) => a.deep_eq(b),
            (None, None) => true,
            _ => false,
        };
        let etc_eq = match (&self.etc, &other.etc) {
            (Some(a), Some(b)) => a.deep_eq(b),
            (None, None) => true,
            _ => false,
        };
        body_eq && etc_eq && self.status == other.status
    }
}

impl vstd::std_specs::cmp::PartialEqSpecImpl for Response {
    open spec fn obeys_eq_spec() -> bool {
        true
    }

    open spec fn eq_spec(&self, other: &Response) -> bool {
        resp_sim(self@, other@)
    }
}


pub const INVALID_INSTRUCTION_TYPE_ERR: &'static str =
    "Frame write instruction did not correspond to a string object";

pub const MISSING_SELECTION_ERR: &'static str = "selection missing from Frame body";

/// Leading dots stripped.
pub open spec fn strip_dots(q: Seq<char>) -> Seq<char>
    decreases q.len(),
{
    if q.len() > 0 && q[0] == '.' {
        strip_dots(q.skip(1))
    } else {
        q
    }
}

/// Copies of a leading prefix stripped, repeatedly.
pub open spec fn strip_prefix_rep(q: Seq<char>, p: Seq<char>) -> Seq<char>
    decreases q.len(),
    when p.len() > 0
{
    if is_sub_at(q, 0, p) && q.len() >= p.len() {
        if q.len() == p.len() {
            Seq::empty()
        } else {
            strip_prefix_rep(q.skip(p.len() as int), p)
        }
    } else {
        q
    }
}

/// A whole-file selector rewritten to be relative to the response body:
/// `'response'.'body'.'key'` becomes `.'key'`, the body itself `.`.
pub open spec fn spec_strip_query(q: Seq<char>) -> Seq<char> {
    let a = strip_dots(q);
    let b = strip_prefix_rep(a, "'response'.'body'"@);
    if b.len() == 0 {
        "."@
    } else {
        b
    }
}

/// Rewrites a whole-file selector to be relative to the response body.
#[verifier::loop_isolation(false)]
pub fn strip_query(query: &str) -> (r: String)
    ensures
        r@ == spec_strip_query(query@),
{
    let s = chars_of(query);
    let ghost gs = s@;
    let mut i: usize = 0;
    proof {
        assert(gs.skip(0) =~= gs);
    }
    while i < s.len() && s[i] == '.'
        invariant
            i <= s@.len(),
            strip_dots(gs) == strip_dots(gs.skip(i as int)),
        decreases s@.len() - i,
    {
        proof {
            assert(gs.skip(i as int)[0] == gs[i as int]);
            assert(gs.skip(i as int).skip(1) =~= gs.skip(i + 1));
        }
        i += 1;
    }
    proof {
        if i < s.len() {
            assert(gs.skip(i as int)[0] == gs[i as int]);
        }
        assert(strip_dots(gs.skip(i as int)) == gs.skip(i as int));
    }
    let pat = chars_of("'response'.'body'");
    let ghost ga = gs.skip(i as int);
    let ghost gp = pat@;
    let mut j: usize = i;
    proof {
        reveal_strlit("'response'.'body'");
        assert(gp.len() == 17);
        assert(gs.skip(j as int) =~= ga.skip(j - i));
        assert(ga.skip(0) =~= ga);
    }
    while sub_at(&s, j, &pat)
        invariant
            i <= j <= s@.len(),
            gp == "'response'.'body'"@,
            gp.len() > 0,
            strip_prefix_rep(ga, gp) == strip_prefix_rep(gs.skip(j as int), gp),
        decreases s@.len() - j,
    {
        proof {
            assert(is_sub_at(gs, j as int, gp));
            assert(gs.skip(j as int).subrange(0, gp.len() as int) =~= gs.subrange(
                j as int,
                j + gp.len(),
            ));
            assert(is_sub_at(gs.skip(j as int), 0, gp));
            assert(gs.skip(j as int).skip(gp.len() as int) =~= gs.skip(j + gp.len()));
            reveal_strlit("'response'.'body'");
            assert(gp.len() == 17);
        }
        j += pat.len();
    }
    proof {
        assert(!is_sub_at(gs.skip(j as int), 0, gp)) by {
            if is_sub_at(gs.skip(j as int), 0, gp) {
                assert(gs.skip(j as int).subrange(0, gp.len() as int) =~= gs.subrange(
                    j as int,
                    j + gp.len(),
                ));
                assert(is_sub_at(gs, j as int, gp));
            }
        }
        assert(strip_prefix_rep(gs.skip(j as int), gp) == gs.skip(j as int));
    }
    if j >= s.len() {
        proof {
            assert(gs.skip(j as int).len() == 0);
            assert(spec_strip_query(query@) == "."@);
        }
        return ".".to_owned();
    }
    let out = subvec(&s, j, s.len());
    proof {
        assert(out@ =~= gs.skip(j as int));
    }
    string_of_chars(&out)
}

/// Digit sequences are usable number tokens.
pub proof fn lemma_u32_dec_wf(n: nat)
    ensures
        crate::json::num_token_wf(spec_u32_dec(n)),
    decreases n,
{
    if n < 10 {
        assert(spec_u32_dec(n) =~= seq![(48 + n) as char]);
        assert(crate::text::is_digit((48 + n) as char));
    } else {
        lemma_u32_dec_wf(n / 10);
        assert(crate::text::is_digit((48 + n % 10) as char));
        assert forall|i: int| 0 <= i < spec_u32_dec(n).len() implies crate::json::is_num_char(
            #[trigger] spec_u32_dec(n)[i],
        ) by {
            if i < spec_u32_dec(n / 10).len() {
                assert(spec_u32_dec(n)[i] == spec_u32_dec(n / 10)[i]);
            }
        }
    }
}

/// The entries of a response rendered as one JSON object: its body (when
/// present), its status, and its extra fields flattened alongside them.
pub open spec fn spec_resp_entries(r: SpecResponse) -> Seq<(Seq<char>, SpecVal)> {
    let e0 = Seq::<(Seq<char>, SpecVal)>::empty();
    let e1 = match r.body {
        Some(b) => spec_obj_insert(e0, "body"@, b),
        None => e0,
    };
    let e2 = spec_obj_insert(e1, "status"@, SpecVal::Num(spec_u32_dec(r.status as nat)));
    match r.etc {
        Some(SpecVal::Obj(ees)) => spec_merge_entries(e2, ees),
        _ => e2,
    }
}

/// A response wrapped under a synthetic `response` root, so that whole-file
/// selectors such as `'response'.'body'` apply to it.
pub open spec fn spec_frame_root(r: SpecResponse) -> SpecVal {
    SpecVal::Obj(
        spec_obj_insert(
            Seq::<(Seq<char>, SpecVal)>::empty(),
            "response"@,
            SpecVal::Obj(spec_resp_entries(r)),
        ),
    )
}

impl Response {
    /// Renders the response as one JSON object: its body when present, its
    /// status, and its extra fields flattened alongside them; the declared
    /// validation rules are not rendered.
    pub fn to_value(&self) -> (r: JsonVal)
        requires
            self.inv(),
        ensures
            r@ == SpecVal::Obj(spec_resp_entries(self@)),
            wf(r@),
    {
        let mut es: Vec<(Vec<char>, JsonVal)> = Vec::new();
        proof {
            assert(entries_view(es@) =~= Seq::<(Seq<char>, SpecVal)>::empty());
        }
        match &self.body {
            Some(b) => {
                let ghost e0 = entries_view(es@);
                crate::json::obj_insert(&mut es, chars_of("body"), b.duplicate());
                proof {
                    assert forall|q: int| 0 <= q < entries_view(es@).len() implies wf(
                        (#[trigger] entries_view(es@)[q]).1,
                    ) by {
                        crate::cut::lemma_insert_values_wf(e0, "body"@, self@.body->0, q);
                    }
                }
            },
            None => {},
        }
        proof {
            lemma_u32_dec_wf(self.status as nat);
        }
        let ghost e1 = entries_view(es@);
        crate::json::obj_insert(&mut es, chars_of("status"), JsonVal::Num(u32_to_dec(self.status)));
        proof {
            assert forall|q: int| 0 <= q < entries_view(es@).len() implies wf(
                (#[trigger] entries_view(es@)[q]).1,
            ) by {
                crate::cut::lemma_insert_values_wf(
                    e1,
                    "status"@,
                    SpecVal::Num(spec_u32_dec(self.status as nat)),
                    q,
                );
            }
        }
        let ghost base = entries_view(es@);
        match &self.etc {
            Some(JsonVal::Obj(ees)) => {
                let ghost oes = entries_view(ees@);
                proof {
                    assert(self@.etc == Some(SpecVal::Obj(oes))) by {
                        crate::json::lemma_obj_node_view(*ees);
                    }
                    assert(oes.skip(0) =~= oes);
                }
                let mut j: usize = 0;
                while j < ees.len()
                    invariant
                        j <= ees@.len(),
                        oes == entries_view(ees@),
                        entries_sorted(entries_view(es@)),
                        forall|q: int| 0 <= q < oes.len() ==> wf((#[trigger] oes[q]).1),
                        forall|q: int| 0 <= q < entries_view(es@).len() ==> wf(
                            (#[trigger] entries_view(es@)[q]).1,
                        ),
                        spec_merge_entries(entries_view(es@), oes.skip(j as int))
                            == spec_merge_entries(base, oes),
                    decreases ees@.len() - j,
                {
                    let ghost gj = j as int;
                    proof {
                        assert(oes.skip(gj)[0] == oes[gj]);
                        assert(oes.skip(gj).drop_first() =~= oes.skip(gj + 1));
                        assert(oes[gj] == (ees@[gj].0@, ees@[gj].1@));
                    }
                    let ghost before = entries_view(es@);
                    crate::json::obj_insert(&mut es, ees[j].0.clone(), ees[j].1.duplicate());
                    proof {
                        assert forall|q: int| 0 <= q < entries_view(es@).len() implies wf(
                            (#[trigger] entries_view(es@)[q]).1,
                        ) by {
                            crate::cut::lemma_insert_values_wf(before, oes[gj].0, oes[gj].1, q);
                        }
                    }
                    j += 1;
                }
                proof {
                    assert(oes.skip(ees@.len() as int) =~= Seq::<(Seq<char>, SpecVal)>::empty());
                }
            },
            _ => {},
        }
        let out = JsonVal::Obj(es);
        proof {
            crate::json::lemma_obj_node_view(out->Obj_0);
        }
        out
    }

    /// Renders the response as a JSON value under a synthetic `response`
    /// root, for selector traversal.
    pub fn to_frame_value(&self) -> (r: JsonVal)
        requires
            self.inv(),
        ensures
            r@ == spec_frame_root(self@),
            wf(r@),
    {
        let inner = self.to_value();
        let mut root: Vec<(Vec<char>, JsonVal)> = Vec::new();
        proof {
            assert(entries_view(root@) =~= Seq::<(Seq<char>, SpecVal)>::empty());
        }
        let ghost r0 = entries_view(root@);
        crate::json::obj_insert(&mut root, chars_of("response"), inner);
        proof {
            assert forall|q: int| 0 <= q < entries_view(root@).len() implies wf(
                (#[trigger] entries_view(root@)[q]).1,
            ) by {
                crate::cut::lemma_insert_values_wf(
                    r0,
                    "response"@,
                    SpecVal::Obj(spec_resp_entries(self@)),
                    q,
                );
            }
        }
        let out = JsonVal::Obj(root);
        proof {
            crate::json::lemma_obj_node_view(out->Obj_0);
        }
        out
    }
}

/// The models of a captured name/value list./// The models of a captured name/value list.
pub open spec fn caps_view(ss: Seq<(String, JsonVal)>) -> Seq<(Seq<char>, SpecVal)> {
    Seq::new(
        ss.len(),
        |i: int| if 0 <= i < ss.len() { (ss[i].0@, ss[i].1@) } else { (Seq::empty(), SpecVal::Null) },
    )
}

/// Every validation selector points below the response body.
pub open spec fn validation_keys_ok(vs: Seq<(Seq<char>, Validator)>) -> bool {
    forall|i: int| 0 <= i < vs.len() ==> is_sub_at(
        strip_dots((#[trigger] vs[i]).0),
        0,
        "'response'.'body'"@,
    )
}

pub open spec fn spec_mpr(
    ws: Seq<(Seq<char>, SpecVal)>,
    fv: SpecVal,
    pv: SpecVal,
) -> Result<Seq<(Seq<char>, SpecVal)>, SpecErr>
    decreases ws.len(),
{
    if ws.len() == 0 {
        Ok(Seq::empty())
    } else {
        let k = ws[0].0;
        let q = ws[0].1->Str_0;
        match spec_select_value(fv, q) {
            Err(e) => Err(e),
            Ok(fsel) => match fsel {
                SpecVal::Str(fs) => match spec_select_value(pv, q) {
                    Err(e) => Err(e),
                    Ok(psel) => match psel {
                        SpecVal::Str(ps) => match spec_write_match(k, fs, ps) {
                            Err(e) => Err(e),
                            Ok(Some(m)) => match spec_mpr(ws.drop_first(), fv, pv) {
                                Ok(rest) => Ok(seq![(k, SpecVal::Str(m))] + rest),
                                Err(e) => Err(e),
                            },
                            Ok(None) => spec_mpr(ws.drop_first(), fv, pv),
                        },
                        other => if fs == var_pattern_of(k) {
                            match spec_mpr(ws.drop_first(), fv, pv) {
                                Ok(rest) => Ok(seq![(k, other)] + rest),
                                Err(e) => Err(e),
                            }
                        } else {
                            Err(
                                SpecErr::FrameParsef(
                                    "Singe variable mismatch -"@,
                                    "Expected:"@ + var_pattern_of(k) + ", Got:"@ + fs,
                                ),
                            )
                        },
                    },
                },
                _ => Err(SpecErr::FrameParsef(INVALID_INSTRUCTION_TYPE_ERR@, q)),
            },
        }
    }
}

impl Response {
    /// Collects, for each write instruction, the value the live payload
    /// carries where the frame declares `${VAR}`; `None` when the frame
    /// declares no extraction that matched.
    #[verifier::loop_isolation(false)]
    pub fn match_payload_response(&self, set: &InstructionSet, payload_response: &Response) -> (r:
        Result<Option<Vec<(String, JsonVal)>>, FrError>)
        requires
            self.inv(),
            payload_response.inv(),
            set.inv(),
        ensures
            ({
                let m = spec_mpr(
                    set@.writes,
                    spec_frame_root(self@),
                    spec_frame_root(payload_response@),
                );
                match r {
                    Ok(Some(list)) => m is Ok && m->Ok_0.len() > 0 && list@.len() == m->Ok_0.len()
                        && forall|j: int| 0 <= j < list@.len() ==> ((#[trigger] list@[j]).0@,
                        list@[j].1@) == m->Ok_0[j] && wf(list@[j].1@),
                    Ok(None) => m == Ok::<Seq<(Seq<char>, SpecVal)>, SpecErr>(Seq::empty()),
                    Err(e) => m == Err::<Seq<(Seq<char>, SpecVal)>, SpecErr>(e@),
                }
            }),
    {
        let fv = self.to_frame_value();
        let pv = payload_response.to_frame_value();
        let ghost gws = set@.writes;
        let ghost gfv = spec_frame_root(self@);
        let ghost gpv = spec_frame_root(payload_response@);
        let pairs = set.write_pairs();
        let mut out: Vec<(String, JsonVal)> = Vec::new();
        let mut idx: usize = 0;
        proof {
            assert(gws.skip(0) =~= gws);
        }
        while idx < pairs.len()
            invariant
                idx <= pairs@.len(),
                pairs@.len() == gws.len(),
                forall|j: int| 0 <= j < pairs@.len() ==> (#[trigger] pairs@[j]).0@ == gws[j].0
                    && gws[j].1 == SpecVal::Str(pairs@[j].1@),
                crate::frame::ent_combine(
                    caps_view(out@),
                    spec_mpr(gws.skip(idx as int), gfv, gpv),
                ) == spec_mpr(gws, gfv, gpv),
                forall|j: int| 0 <= j < out@.len() ==> wf((#[trigger] caps_view(out@)[j]).1),
            decreases pairs@.len() - idx,
        {
            let ghost gi = idx as int;
            proof {
                assert(gws.skip(gi)[0] == gws[gi]);
                assert(gws.skip(gi).drop_first() =~= gws.skip(gi + 1));
            }
            let fsel = match select_value(&fv, pairs[idx].1.as_str()) {
                Ok(v) => v,
                Err(e) => {
                    return Err(e);
                },
            };
            let fs = match fsel {
                JsonVal::Str(fsv) => string_of_chars(&fsv),
                _ => {
                    return Err(
                        FrError::FrameParsef(INVALID_INSTRUCTION_TYPE_ERR, pairs[idx].1.clone()),
                    );
                },
            };
            let psel = match select_value(&pv, pairs[idx].1.as_str()) {
                Ok(v) => v,
                Err(e) => {
                    return Err(e);
                },
            };
            let ghost before = caps_view(out@);
            match psel {
                JsonVal::Str(psv) => {
                    let ps = string_of_chars(&psv);
                    match Register::write_match(pairs[idx].0.as_str(), fs.as_str(), ps.as_str()) {
                        Ok(Some(m)) => {
                            let item = (pairs[idx].0.clone(), JsonVal::Str(chars_of(m.as_str())));
                            out.push(item);
                            proof {
                                assert(caps_view(out@) =~= before.push((gws[gi].0, SpecVal::Str(m@))));
                                assert forall|j: int| 0 <= j < out@.len() implies wf(
                                    (#[trigger] caps_view(out@)[j]).1,
                                ) by {
                                    if j < before.len() {
                                        assert(caps_view(out@)[j] == before[j]);
                                    }
                                }
                                match spec_mpr(gws.skip(gi + 1), gfv, gpv) {
                                    Ok(rest) => {
                                        assert(before + (seq![(gws[gi].0, SpecVal::Str(m@))] + rest)
                                            =~= caps_view(out@) + rest);
                                    },
                                    Err(_) => {},
                                }
                            }
                        },
                        Ok(None) => {},
                        Err(e) => {
                            return Err(e);
                        },
                    }
                },
                other => {
                    match Register::expect_standalone_var(pairs[idx].0.as_str(), fs.as_str()) {
                        Ok(_) => {},
                        Err(e) => {
                            return Err(e);
                        },
                    }
                    proof {
                        if spec_parse_selector(pairs@[gi].1@) is Ok {
                            lemma_select_wf(
                                gpv,
                                spec_parse_selector(pairs@[gi].1@)->Ok_0,
                                0,
                            );
                        }
                        assert(wf(other@));
                    }
                    let ghost gother = other@;
                    let item = (pairs[idx].0.clone(), other);
                    out.push(item);
                    proof {
                        assert(caps_view(out@) =~= before.push((gws[gi].0, gother)));
                        assert forall|j: int| 0 <= j < out@.len() implies wf(
                            (#[trigger] caps_view(out@)[j]).1,
                        ) by {
                            if j < before.len() {
                                assert(caps_view(out@)[j] == before[j]);
                            }
                        }
                        match spec_mpr(gws.skip(gi + 1), gfv, gpv) {
                            Ok(rest) => {
                                assert(before + (seq![(gws[gi].0, gother)] + rest) =~= caps_view(
                                    out@,
                                ) + rest);
                            },
                            Err(_) => {},
                        }
                    }
                },
            }
            idx += 1;
        }
        proof {
            assert(gws.skip(pairs@.len() as int) =~= Seq::<(Seq<char>, SpecVal)>::empty());
            assert(caps_view(out@) + Seq::<(Seq<char>, SpecVal)>::empty() =~= caps_view(
                out@,
            ));
        }
        if out.len() > 0 {
            Ok(Some(out))
        } else {
            proof {
                assert(caps_view(out@) =~= Seq::<(Seq<char>, SpecVal)>::empty());
            }
            Ok(None)
        }
    }

    /// Checks that every declared validation selector points below the
    /// response body.
    pub fn validate(&self) -> (r: Result<(), FrError>)
        ensures
            match r {
                Ok(_) => match self@.validation {
                    Some(vs) => validation_keys_ok(vs),
                    None => true,
                },
                Err(e) => self@.validation matches Some(vs) && e@ == SpecErr::ReadInstruction(
                    "validation options currently only support the response body"@,
                ) && !validation_keys_ok(vs),
            },
    {
        let vs = match &self.validation {
            None => {
                return Ok(());
            },
            Some(vs) => vs,
        };
        let pat = chars_of("'response'.'body'");
        let mut i: usize = 0;
        while i < vs.len()
            invariant
                i <= vs@.len(),
                self@.validation == Some(validation_view(vs@)),
                pat@ == "'response'.'body'"@,
                forall|j: int| 0 <= j < i ==> is_sub_at(
                    strip_dots((#[trigger] validation_view(vs@)[j]).0),
                    0,
                    "'response'.'body'"@,
                ),
                self.validation == Some(*vs),
            decreases vs@.len() - i,
        {
            let ghost gi = i as int;
            let k = &vs[i].0;
            let ghost gk = k@;
            proof {
                assert(validation_view(vs@)[gi] == (vs@[gi].0@, vs@[gi].1));
            }
            let mut d: usize = 0;
            proof {
                assert(gk.skip(0) =~= gk);
            }
            while d < k.len() && k[d] == '.'
                invariant
                    d <= k@.len(),
                    gk == k@,
                    strip_dots(gk) == strip_dots(gk.skip(d as int)),
                decreases k@.len() - d,
            {
                proof {
                    assert(gk.skip(d as int)[0] == gk[d as int]);
                    assert(gk.skip(d as int).skip(1) =~= gk.skip(d + 1));
                }
                d += 1;
            }
            proof {
                if d < k.len() {
                    assert(gk.skip(d as int)[0] == gk[d as int]);
                }
                assert(strip_dots(gk.skip(d as int)) == gk.skip(d as int));
            }
            let rest = subvec(k, d, k.len());
            proof {
                assert(rest@ =~= gk.skip(d as int));
            }
            if !sub_at(&rest, 0, &pat) {
                proof {
                    assert(validation_view(vs@)[gi].0 == gk);
                    assert(!is_sub_at(strip_dots(gk), 0, "'response'.'body'"@));
                    assert(!validation_keys_ok(validation_view(vs@))) by {
                        assert(0 <= gi < validation_view(vs@).len() && !is_sub_at(
                            strip_dots(validation_view(vs@)[gi].0),
                            0,
                            "'response'.'body'"@,
                        ));
                    }
                }
                return Err(
                    FrError::ReadInstruction(
                        "validation options currently only support the response body",
                    ),
                );
            }
            i += 1;
        }
        Ok(())
    }
}


pub const BAD_TARGET_ERR: &'static str =
    "validation selectors must point to a JSON object or array";

/// The keys of an object's entries.
pub open spec fn keys_of(es: Seq<(Seq<char>, SpecVal)>) -> Seq<Seq<char>> {
    Seq::new(es.len(), |i: int| es[i].0)
}

/// Ordering-equivalence of two array elements: objects compare by their key
/// set alone, every other value by equality. Value mismatches inside objects
/// are deliberately ignored; the later equality comparison still catches
/// them.
pub open spec fn key_like_eq(a: SpecVal, b: SpecVal) -> bool {
    match (a, b) {
        (SpecVal::Obj(x), SpecVal::Obj(y)) => keys_of(x) == keys_of(y),
        (SpecVal::Obj(_), _) => false,
        (_, SpecVal::Obj(_)) => false,
        _ => a == b,
    }
}

/// The entries of `oes` whose key also stands in `ses`.
pub open spec fn spec_keep_keys(
    oes: Seq<(Seq<char>, SpecVal)>,
    ses: Seq<(Seq<char>, SpecVal)>,
) -> Seq<(Seq<char>, SpecVal)>
    decreases oes.len(),
{
    if oes.len() == 0 {
        oes
    } else if spec_obj_get(ses, oes[0].0) is Some {
        seq![oes[0]] + spec_keep_keys(oes.drop_first(), ses)
    } else {
        spec_keep_keys(oes.drop_first(), ses)
    }
}

/// `sa` stands somewhere in `oa` as a contiguous run.
pub open spec fn has_window(oa: Seq<SpecVal>, sa: Seq<SpecVal>) -> bool {
    exists|i: int| 0 <= i && i + sa.len() <= oa.len() && #[trigger] oa.subrange(i, i + sa.len()) == sa
}

/// The first position in `oa` ordering-equivalent to `v`, or `-1`.
pub open spec fn spec_find_keyeq(oa: Seq<SpecVal>, v: SpecVal) -> int
    decreases oa.len(),
{
    if oa.len() == 0 {
        -1
    } else if key_like_eq(oa[0], v) {
        0
    } else if spec_find_keyeq(oa.drop_first(), v) < 0 {
        -1
    } else {
        spec_find_keyeq(oa.drop_first(), v) + 1
    }
}

/// The unordered split of a payload array against a frame array: for each
/// frame element in order, the first unused ordering-equivalent payload
/// element moves into the sink; the leftover keeps its payload order.
pub open spec fn spec_unordered_split(sa: Seq<SpecVal>, oa: Seq<SpecVal>) -> (
    Seq<SpecVal>,
    Seq<SpecVal>,
)
    decreases sa.len(),
{
    if sa.len() == 0 {
        (Seq::empty(), oa)
    } else {
        let j = spec_find_keyeq(oa, sa[0]);
        if j < 0 {
            spec_unordered_split(sa.drop_first(), oa)
        } else {
            let rec = spec_unordered_split(sa.drop_first(), oa.remove(j));
            (seq![oa[j]] + rec.0, rec.1)
        }
    }
}

/// One partial rule applied: an object selection drops payload keys the
/// frame does not declare; an array selection is replaced by the frame's
/// array where it stands as a contiguous ordered run in the payload.
pub open spec fn spec_apply_partial(
    steps: Seq<SpecStep>,
    q: Seq<char>,
    sv: SpecVal,
    ov: SpecVal,
) -> Result<SpecVal, SpecErr> {
    match spec_select(sv, steps, 0) {
        None => Err(SpecErr::ReadInstructionf(MISSING_SELECTION_ERR@, q)),
        Some(SpecVal::Obj(ses)) => match spec_select(ov, steps, 0) {
            Some(SpecVal::Obj(oes)) => Ok(
                spec_replace(ov, steps, 0, SpecVal::Obj(spec_keep_keys(oes, ses)))->0,
            ),
            _ => Ok(ov),
        },
        Some(SpecVal::Arr(sa)) => match spec_select(ov, steps, 0) {
            Some(SpecVal::Arr(oa)) => if sa.len() >= oa.len() {
                Ok(ov)
            } else if has_window(oa, sa) {
                Ok(spec_replace(ov, steps, 0, SpecVal::Arr(sa))->0)
            } else {
                Ok(ov)
            },
            _ => Ok(ov),
        },
        Some(_) => Err(SpecErr::ReadInstruction(BAD_TARGET_ERR@)),
    }
}

/// One unordered rule applied: where frame and payload selections are
/// arrays, the matched payload elements move to the front in frame order,
/// the leftover keeps its order; nothing moves when nothing matched.
pub open spec fn spec_apply_unordered(
    steps: Seq<SpecStep>,
    q: Seq<char>,
    sv: SpecVal,
    ov: SpecVal,
) -> Result<SpecVal, SpecErr> {
    match spec_select(sv, steps, 0) {
        None => Err(SpecErr::ReadInstructionf(MISSING_SELECTION_ERR@, q)),
        Some(SpecVal::Obj(_)) => Ok(ov),
        Some(SpecVal::Arr(sa)) => match spec_select(ov, steps, 0) {
            Some(SpecVal::Arr(oa)) => {
                let split = spec_unordered_split(sa, oa);
                if split.0.len() == 0 {
                    Ok(ov)
                } else {
                    Ok(spec_replace(ov, steps, 0, SpecVal::Arr(split.0 + split.1))->0)
                }
            },
            _ => Ok(ov),
        },
        Some(_) => Err(SpecErr::ReadInstruction(BAD_TARGET_ERR@)),
    }
}

/// All declared rules applied in key order: unordered first, then partial,
/// for each selector; rules declaring neither tolerance do nothing.
pub open spec fn spec_apply_validation(
    vs: Seq<(Seq<char>, Validator)>,
    sv: SpecVal,
    ov: SpecVal,
) -> Result<SpecVal, SpecErr>
    decreases vs.len(),
{
    if vs.len() == 0 {
        Ok(ov)
    } else {
        let k = vs[0].0;
        let rule = vs[0].1;
        if !rule.partial && !rule.unordered {
            spec_apply_validation(vs.drop_first(), sv, ov)
        } else {
            match spec_parse_selector(spec_strip_query(k)) {
                Err(empty) => if empty {
                    Err(
                        SpecErr::ReadInstruction(
                            "validation selector cannot have an empty query"@,
                        ),
                    )
                } else {
                    Err(SpecErr::Parse("selector parse error"@))
                },
                Ok(steps) => {
                    let after_u = if rule.unordered {
                        spec_apply_unordered(steps, k, sv, ov)
                    } else {
                        Ok(ov)
                    };
                    match after_u {
                        Err(e) => Err(e),
                        Ok(o1) => {
                            let after_p = if rule.partial {
                                spec_apply_partial(steps, k, sv, o1)
                            } else {
                                Ok(o1)
                            };
                            match after_p {
                                Err(e) => Err(e),
                                Ok(o2) => spec_apply_validation(vs.drop_first(), sv, o2),
                            }
                        },
                    }
                },
            }
        }
    }
}

/// Lookup success gives a position with that value.
proof fn lemma_index_get(es: Seq<(Seq<char>, SpecVal)>, k: Seq<char>)
    requires
        spec_obj_get(es, k) is Some,
    ensures
        0 <= spec_obj_index(es, k) < es.len(),
        es[spec_obj_index(es, k)].1 == spec_obj_get(es, k)->0,
        es[spec_obj_index(es, k)].0 == k,
    decreases es.len(),
{
    if es.len() > 0 && es[0].0 != k {
        lemma_index_get(es.drop_first(), k);
    }
}

/// Where a selection exists, the same steps can replace it.
pub proof fn lemma_select_replace(v: SpecVal, steps: Seq<SpecStep>, i: int, nv: SpecVal)
    requires
        0 <= i <= steps.len(),
        spec_select(v, steps, i) is Some,
    ensures
        spec_replace(v, steps, i, nv) is Some,
    decreases steps.len() - i,
{
    if i < steps.len() {
        match steps[i] {
            SpecStep::Key(k) => match v {
                SpecVal::Obj(es) => {
                    lemma_index_get(es, k);
                    lemma_select_replace(es[spec_obj_index(es, k)].1, steps, i + 1, nv);
                },
                _ => {},
            },
            SpecStep::Index(n) => match v {
                SpecVal::Arr(a) => {
                    if 0 <= n < a.len() {
                        lemma_select_replace(a[n], steps, i + 1, nv);
                    }
                },
                _ => {},
            },
        }
    }
}

/// A selection of a well-formed document is well-formed.
pub proof fn lemma_select_wf(v: SpecVal, steps: Seq<SpecStep>, i: int)
    requires
        0 <= i <= steps.len(),
        wf(v),
        spec_select(v, steps, i) is Some,
    ensures
        wf(spec_select(v, steps, i)->0),
    decreases steps.len() - i,
{
    if i < steps.len() {
        match steps[i] {
            SpecStep::Key(k) => match v {
                SpecVal::Obj(es) => {
                    lemma_index_get(es, k);
                    lemma_select_wf(es[spec_obj_index(es, k)].1, steps, i + 1);
                },
                _ => {},
            },
            SpecStep::Index(n) => match v {
                SpecVal::Arr(a) => {
                    if 0 <= n < a.len() {
                        lemma_select_wf(a[n], steps, i + 1);
                    }
                },
                _ => {},
            },
        }
    }
}

/// A strict lower bound on every kept key survives filtering.
proof fn lemma_keep_lower(
    oes: Seq<(Seq<char>, SpecVal)>,
    ses: Seq<(Seq<char>, SpecVal)>,
    x: Seq<char>,
)
    requires
        forall|i: int| 0 <= i < oes.len() ==> crate::text::lex_lt(x, (#[trigger] oes[i]).0),
    ensures
        forall|j: int| 0 <= j < spec_keep_keys(oes, ses).len() ==> crate::text::lex_lt(
            x,
            (#[trigger] spec_keep_keys(oes, ses)[j]).0,
        ),
    decreases oes.len(),
{
    if oes.len() > 0 {
        let tail = oes.drop_first();
        assert forall|i: int| 0 <= i < tail.len() implies crate::text::lex_lt(
            x,
            (#[trigger] tail[i]).0,
        ) by {
            assert(tail[i] == oes[i + 1]);
        }
        lemma_keep_lower(tail, ses, x);
        if spec_obj_get(ses, oes[0].0) is Some {
            assert forall|j: int| 0 <= j < spec_keep_keys(oes, ses).len() implies crate::text::lex_lt(
                x,
                (#[trigger] spec_keep_keys(oes, ses)[j]).0,
            ) by {
                if j == 0 {
                    assert(spec_keep_keys(oes, ses)[0] == oes[0]);
                } else {
                    assert(spec_keep_keys(oes, ses)[j] == spec_keep_keys(tail, ses)[j - 1]);
                }
            }
        } else {
            assert forall|j: int| 0 <= j < spec_keep_keys(oes, ses).len() implies crate::text::lex_lt(
                x,
                (#[trigger] spec_keep_keys(oes, ses)[j]).0,
            ) by {
                assert(spec_keep_keys(oes, ses)[j] == spec_keep_keys(tail, ses)[j]);
            }
        }
    }
}

/// Filtering a sorted object keeps it sorted and its values well-formed.
pub proof fn lemma_keep_keys_wf(oes: Seq<(Seq<char>, SpecVal)>, ses: Seq<(Seq<char>, SpecVal)>)
    requires
        wf(SpecVal::Obj(oes)),
    ensures
        wf(SpecVal::Obj(spec_keep_keys(oes, ses))),
    decreases oes.len(),
{
    if oes.len() > 0 {
        let tail = oes.drop_first();
        assert(wf(SpecVal::Obj(tail))) by {
            assert forall|i: int, j: int| 0 <= i < j < tail.len() implies crate::text::lex_lt(
                (#[trigger] tail[i]).0,
                (#[trigger] tail[j]).0,
            ) by {
                assert(tail[i] == oes[i + 1]);
                assert(tail[j] == oes[j + 1]);
            }
            assert forall|i: int| 0 <= i < tail.len() implies wf((#[trigger] tail[i]).1) by {
                assert(tail[i] == oes[i + 1]);
            }
        }
        lemma_keep_keys_wf(tail, ses);
        let r = spec_keep_keys(oes, ses);
        if spec_obj_get(ses, oes[0].0) is Some {
            assert forall|i: int| 0 <= i < tail.len() implies crate::text::lex_lt(
                oes[0].0,
                (#[trigger] tail[i]).0,
            ) by {
                assert(tail[i] == oes[i + 1]);
            }
            lemma_keep_lower(tail, ses, oes[0].0);
            assert forall|i: int, j: int| 0 <= i < j < r.len() implies crate::text::lex_lt(
                r[i].0,
                r[j].0,
            ) by {
                if i == 0 {
                    assert(r[0] == oes[0]);
                    assert(r[j] == spec_keep_keys(tail, ses)[j - 1]);
                } else {
                    assert(r[i] == spec_keep_keys(tail, ses)[i - 1]);
                    assert(r[j] == spec_keep_keys(tail, ses)[j - 1]);
                }
            }
            assert forall|i: int| 0 <= i < r.len() implies wf((#[trigger] r[i]).1) by {
                if i == 0 {
                    assert(r[0] == oes[0]);
                } else {
                    assert(r[i] == spec_keep_keys(tail, ses)[i - 1]);
                }
            }
        } else {
            assert forall|i: int, j: int| 0 <= i < j < r.len() implies crate::text::lex_lt(
                r[i].0,
                r[j].0,
            ) by {
                assert(r[i] == spec_keep_keys(tail, ses)[i]);
                assert(r[j] == spec_keep_keys(tail, ses)[j]);
            }
            assert forall|i: int| 0 <= i < r.len() implies wf((#[trigger] r[i]).1) by {
                assert(r[i] == spec_keep_keys(tail, ses)[i]);
            }
        }
    }
}

/// Both halves of an unordered split carry payload elements only.
pub proof fn lemma_split_wf(sa: Seq<SpecVal>, oa: Seq<SpecVal>)
    requires
        forall|i: int| 0 <= i < oa.len() ==> wf(#[trigger] oa[i]),
    ensures
        forall|i: int| 0 <= i < spec_unordered_split(sa, oa).0.len() ==> wf(
            #[trigger] spec_unordered_split(sa, oa).0[i],
        ),
        forall|i: int| 0 <= i < spec_unordered_split(sa, oa).1.len() ==> wf(
            #[trigger] spec_unordered_split(sa, oa).1[i],
        ),
    decreases sa.len(),
{
    if sa.len() > 0 {
        let j = spec_find_keyeq(oa, sa[0]);
        if j < 0 {
            lemma_split_wf(sa.drop_first(), oa);
            let r = spec_unordered_split(sa, oa);
            let rec = spec_unordered_split(sa.drop_first(), oa);
            assert forall|i: int| 0 <= i < r.0.len() implies wf(#[trigger] r.0[i]) by {
                assert(r.0[i] == rec.0[i]);
            }
            assert forall|i: int| 0 <= i < r.1.len() implies wf(#[trigger] r.1[i]) by {
                assert(r.1[i] == rec.1[i]);
            }
        } else {
            lemma_find_keyeq_bounds(oa, sa[0]);
            let rem = oa.remove(j);
            assert forall|i: int| 0 <= i < rem.len() implies wf(#[trigger] rem[i]) by {
                if i < j {
                    assert(rem[i] == oa[i]);
                } else {
                    assert(rem[i] == oa[i + 1]);
                }
            }
            lemma_split_wf(sa.drop_first(), rem);
            let r = spec_unordered_split(sa, oa);
            let rec = spec_unordered_split(sa.drop_first(), rem);
            assert forall|i: int| 0 <= i < r.0.len() implies wf(#[trigger] r.0[i]) by {
                if i == 0 {
                    assert(r.0[0] == oa[j]);
                } else {
                    assert(r.0[i] == rec.0[i - 1]);
                }
            }
            assert forall|i: int| 0 <= i < r.1.len() implies wf(#[trigger] r.1[i]) by {
                assert(r.1[i] == rec.1[i]);
            }
        }
    }
}

/// A found position is in range and ordering-equivalent.
pub proof fn lemma_find_keyeq_bounds(oa: Seq<SpecVal>, v: SpecVal)
    requires
        spec_find_keyeq(oa, v) >= 0,
    ensures
        spec_find_keyeq(oa, v) < oa.len(),
        key_like_eq(oa[spec_find_keyeq(oa, v)], v),
    decreases oa.len(),
{
    if oa.len() > 0 && !key_like_eq(oa[0], v) {
        if spec_find_keyeq(oa.drop_first(), v) >= 0 {
            lemma_find_keyeq_bounds(oa.drop_first(), v);
        }
    }
}


/// Decides ordering-equivalence of two array elements.
#[verifier::loop_isolation(false)]
fn key_eq_vals(a: &JsonVal, b: &JsonVal) -> (r: bool)
    ensures
        r == key_like_eq(a@, b@),
{
    broadcast use crate::json::lemma_obj_node_view;

    match (a, b) {
        (JsonVal::Obj(x), JsonVal::Obj(y)) => {
            proof {
                crate::json::lemma_obj_node_view(*x);
                crate::json::lemma_obj_node_view(*y);
                assert(a@->Obj_0 == entries_view(x@));
                assert(b@->Obj_0 == entries_view(y@));
            }
            if x.len() != y.len() {
                assert(keys_of(a@->Obj_0).len() != keys_of(b@->Obj_0).len());
                return false;
            }
            let mut i: usize = 0;
            while i < x.len()
                invariant
                    i <= x@.len(),
                    x@.len() == y@.len(),
                    forall|j: int| 0 <= j < i ==> entries_view(x@)[j].0 == entries_view(y@)[j].0,
                decreases x@.len() - i,
            {
                if !crate::text::chars_eq(&x[i].0, &y[i].0) {
                    assert(entries_view(x@)[i as int].0 != entries_view(y@)[i as int].0);
                    assert(keys_of(a@->Obj_0)[i as int] != keys_of(b@->Obj_0)[i as int]);
                    return false;
                }
                i += 1;
            }
            proof {
                assert(keys_of(a@->Obj_0) =~= keys_of(b@->Obj_0));
            }
            true
        },
        (JsonVal::Obj(_), _) => {
            assert(!(b@ is Obj));
            false
        },
        (_, JsonVal::Obj(_)) => {
            assert(!(a@ is Obj));
            false
        },
        _ => a.deep_eq(b),
    }
}

impl Validator {
    /// Applies this rule's partial tolerance at one selection: payload keys
    /// the frame does not declare are dropped; a payload array is replaced
    /// by the frame's array where that stands in it as a contiguous ordered
    /// run.
    #[verifier::loop_isolation(false)]
    pub fn apply_partial(
        &self,
        query: &str,
        steps: &Vec<SelStep>,
        self_body: &JsonVal,
        other_body: &mut JsonVal,
    ) -> (r: Result<(), FrError>)
        requires
            wf(self_body@),
            wf(old(other_body)@),
        ensures
            match r {
                Ok(_) => spec_apply_partial(steps_view(steps@), query@, self_body@, old(
                    other_body,
                )@) == Ok::<SpecVal, SpecErr>(final(other_body)@) && wf(final(other_body)@),
                Err(e) => spec_apply_partial(steps_view(steps@), query@, self_body@, old(
                    other_body,
                )@) == Err::<SpecVal, SpecErr>(e@) && final(other_body)@ == old(other_body)@,
            },
    {
        broadcast use crate::json::lemma_obj_node_view, crate::json::lemma_arr_node_view;

        let sel = match select_at(self_body, steps, 0) {
            Some(s) => s,
            None => {
                return Err(FrError::ReadInstructionf(MISSING_SELECTION_ERR, query.to_owned()));
            },
        };
        match sel {
            JsonVal::Obj(ses) => {
                let osel = match select_at(&*other_body, steps, 0) {
                    Some(JsonVal::Obj(oes)) => oes,
                    _ => {
                        return Ok(());
                    },
                };
                let ghost goes = entries_view(osel@);
                let ghost gses = entries_view(ses@);
                let mut kept: Vec<(Vec<char>, JsonVal)> = Vec::new();
                let mut i: usize = 0;
                proof {
                    assert(goes.skip(0) =~= goes);
                    assert(entries_view(kept@) =~= Seq::<(Seq<char>, SpecVal)>::empty());
                }
                while i < osel.len()
                    invariant
                        i <= osel@.len(),
                        other_body@ == old(other_body)@,
                        goes == entries_view(osel@),
                        entries_view(kept@) + spec_keep_keys(goes.skip(i as int), gses)
                            =~= spec_keep_keys(goes, gses),
                    decreases osel@.len() - i,
                {
                    let ghost gi = i as int;
                    proof {
                        assert(goes.skip(gi)[0] == goes[gi]);
                        assert(goes.skip(gi).drop_first() =~= goes.skip(gi + 1));
                    }
                    let ghost pre = entries_view(kept@);
                    if crate::json::obj_get(ses, &osel[i].0).is_some() {
                        kept.push((osel[i].0.clone(), osel[i].1.duplicate()));
                        proof {
                            assert(entries_view(kept@) =~= pre.push(goes[gi]));
                            assert(pre + (seq![goes[gi]] + spec_keep_keys(goes.skip(gi + 1), gses))
                                =~= entries_view(kept@) + spec_keep_keys(goes.skip(gi + 1), gses));
                        }
                    }
                    i += 1;
                }
                proof {
                    assert(goes.skip(osel@.len() as int) =~= Seq::<(Seq<char>, SpecVal)>::empty());
                    assert(entries_view(kept@) + Seq::<(Seq<char>, SpecVal)>::empty()
                        =~= entries_view(kept@));
                    lemma_select_wf(old(other_body)@, steps_view(steps@), 0);
                    assert(wf(SpecVal::Obj(goes)));
                    lemma_keep_keys_wf(goes, gses);
                    lemma_select_replace(old(other_body)@, steps_view(steps@), 0, SpecVal::Obj(
                        spec_keep_keys(goes, gses),
                    ));
                }
                let mut cur = JsonVal::Null;
                core::mem::swap(&mut cur, other_body);
                let (nv, ok) = replace_at(cur, steps, 0, JsonVal::Obj(kept));
                assert(ok);
                *other_body = nv;
                Ok(())
            },
            JsonVal::Arr(sa) => {
                proof {
                    crate::json::lemma_arr_node_view(*sa);
                }
                let osel = match select_at(&*other_body, steps, 0) {
                    Some(JsonVal::Arr(oa)) => oa,
                    _ => {
                        return Ok(());
                    },
                };
                let ghost gsa = crate::json::arr_view(sa@);
                let ghost goa = crate::json::arr_view(osel@);
                assert(sel@ == SpecVal::Arr(gsa));
                if sa.len() >= osel.len() {
                    return Ok(());
                }
                let limit = osel.len() - sa.len();
                let mut i: usize = 0;
                while i <= limit
                    invariant
                        i <= limit + 1,
                        other_body@ == old(other_body)@,
                        limit == goa.len() - gsa.len(),
                        gsa.len() < goa.len(),
                        gsa == crate::json::arr_view(sa@),
                        goa == crate::json::arr_view(osel@),
                        forall|n: int| 0 <= n < i ==> #[trigger] goa.subrange(n, n + gsa.len()) != gsa,
                    decreases limit - i + 1,
                {
                    let mut k: usize = 0;
                    let mut same = true;
                    while k < sa.len() && same
                        invariant
                            k <= sa@.len(),
                            other_body@ == old(other_body)@,
                            i + sa@.len() <= osel@.len(),
                            same ==> (forall|m: int| 0 <= m < k ==> #[trigger] goa[i + m] == gsa[m]),
                            !same ==> (exists|m: int| 0 <= m < sa@.len() && #[trigger] goa[i + m] != gsa[m]),
                        decreases sa@.len() - k, (if same { 1int } else { 0int }),
                    {
                        if !osel[i + k].deep_eq(&sa[k]) {
                            assert(goa[i + k as int] != gsa[k as int]);
                            same = false;
                        } else {
                            k += 1;
                        }
                    }
                    if same {
                        proof {
                            assert forall|m: int| 0 <= m < gsa.len() implies goa.subrange(
                                i as int,
                                i + gsa.len(),
                            )[m] == gsa[m] by {
                                assert(goa[i + m] == gsa[m]);
                            }
                            assert(goa.subrange(i as int, i + gsa.len()) =~= gsa);
                            assert(has_window(goa, gsa));
                            lemma_select_wf(self_body@, steps_view(steps@), 0);
                            assert(wf(SpecVal::Arr(gsa)));
                            lemma_select_replace(
                                old(other_body)@,
                                steps_view(steps@),
                                0,
                                SpecVal::Arr(gsa),
                            );
                        }
                        let dup = crate::json::dup_elems(sa);
                        proof {
                            crate::json::lemma_arr_node_view(dup);
                        }
                        let replacement = JsonVal::Arr(dup);
                        assert(replacement@ == SpecVal::Arr(gsa));
                        let mut cur = JsonVal::Null;
                        core::mem::swap(&mut cur, other_body);
                        let (nv, ok) = replace_at(cur, steps, 0, replacement);
                        assert(ok);
                        *other_body = nv;
                        return Ok(());
                    }
                    proof {
                        let ghost w = choose|m: int| 0 <= m < sa@.len() && #[trigger] goa[i + m] != gsa[m];
                        assert(goa.subrange(i as int, i + gsa.len()) != gsa) by {
                            assert(goa.subrange(i as int, i + gsa.len())[w] == goa[i + w]);
                        }
                    }
                    i += 1;
                }
                proof {
                    assert(!has_window(goa, gsa)) by {
                        if has_window(goa, gsa) {
                            let n = choose|n: int| 0 <= n && n + gsa.len() <= goa.len()
                                && #[trigger] goa.subrange(n, n + gsa.len()) == gsa;
                            assert(goa.subrange(n, n + gsa.len()) != gsa);
                        }
                    }
                }
                Ok(())
            },
            _ => Err(FrError::ReadInstruction(BAD_TARGET_ERR)),
        }
    }
}


/// Where the scan finds the first ordering-equivalent element, that is the
/// position the split uses.
proof fn lemma_find_keyeq_positional(oa: Seq<SpecVal>, v: SpecVal, p: int)
    requires
        0 <= p < oa.len(),
        forall|i: int| 0 <= i < p ==> !key_like_eq(#[trigger] oa[i], v),
        key_like_eq(oa[p], v),
    ensures
        spec_find_keyeq(oa, v) == p,
    decreases p,
{
    if p > 0 {
        let tail = oa.drop_first();
        assert forall|i: int| 0 <= i < p - 1 implies !key_like_eq(#[trigger] tail[i], v) by {
            assert(tail[i] == oa[i + 1]);
        }
        assert(tail[p - 1] == oa[p]);
        lemma_find_keyeq_positional(tail, v, p - 1);
    }
}

/// No ordering-equivalent element, no position.
proof fn lemma_find_keyeq_absent(oa: Seq<SpecVal>, v: SpecVal)
    requires
        forall|i: int| 0 <= i < oa.len() ==> !key_like_eq(#[trigger] oa[i], v),
    ensures
        spec_find_keyeq(oa, v) == -1,
    decreases oa.len(),
{
    if oa.len() > 0 {
        let tail = oa.drop_first();
        assert forall|i: int| 0 <= i < tail.len() implies !key_like_eq(#[trigger] tail[i], v) by {
            assert(tail[i] == oa[i + 1]);
        }
        lemma_find_keyeq_absent(tail, v);
    }
}

impl Validator {
    /// Applies this rule's unordered tolerance at one selection: payload
    /// elements ordering-equivalent to frame elements move to the front, in
    /// frame order; the leftover keeps its payload order.
    #[verifier::loop_isolation(false)]
    pub fn apply_unordered(
        &self,
        query: &str,
        steps: &Vec<SelStep>,
        self_body: &JsonVal,
        other_body: &mut JsonVal,
    ) -> (r: Result<(), FrError>)
        requires
            wf(self_body@),
            wf(old(other_body)@),
        ensures
            match r {
                Ok(_) => spec_apply_unordered(steps_view(steps@), query@, self_body@, old(
                    other_body,
                )@) == Ok::<SpecVal, SpecErr>(final(other_body)@) && wf(final(other_body)@),
                Err(e) => spec_apply_unordered(steps_view(steps@), query@, self_body@, old(
                    other_body,
                )@) == Err::<SpecVal, SpecErr>(e@) && final(other_body)@ == old(other_body)@,
            },
    {
        broadcast use crate::json::lemma_obj_node_view, crate::json::lemma_arr_node_view;

        let sel = match select_at(self_body, steps, 0) {
            Some(s) => s,
            None => {
                return Err(FrError::ReadInstructionf(MISSING_SELECTION_ERR, query.to_owned()));
            },
        };
        match sel {
            JsonVal::Obj(_) => Ok(()),
            JsonVal::Arr(sa) => {
                proof {
                    crate::json::lemma_arr_node_view(*sa);
                }
                let ghost gsa = crate::json::arr_view(sa@);
                assert(sel@ == SpecVal::Arr(gsa));
                let osel = match select_at(&*other_body, steps, 0) {
                    Some(JsonVal::Arr(oa)) => oa,
                    _ => {
                        return Ok(());
                    },
                };
                let ghost goa = crate::json::arr_view(osel@);
                proof {
                    lemma_select_wf(old(other_body)@, steps_view(steps@), 0);
                    assert(wf(SpecVal::Arr(goa)));
                    assert(gsa.skip(0) =~= gsa);
                }
                let mut remaining = crate::json::dup_elems(osel);
                let mut sink: Vec<JsonVal> = Vec::new();
                let mut t: usize = 0;
                proof {
                    assert(crate::json::arr_view(sink@) =~= Seq::<SpecVal>::empty());
                }
                while t < sa.len()
                    invariant
                        t <= sa@.len(),
                        other_body@ == old(other_body)@,
                        gsa == crate::json::arr_view(sa@),
                        spec_unordered_split(gsa, goa).0 =~= crate::json::arr_view(sink@)
                            + spec_unordered_split(
                            gsa.skip(t as int),
                            crate::json::arr_view(remaining@),
                        ).0,
                        spec_unordered_split(gsa, goa).1 =~= spec_unordered_split(
                            gsa.skip(t as int),
                            crate::json::arr_view(remaining@),
                        ).1,
                        forall|q: int| 0 <= q < crate::json::arr_view(remaining@).len() ==> wf(
                            #[trigger] crate::json::arr_view(remaining@)[q],
                        ),
                        forall|q: int| 0 <= q < crate::json::arr_view(sink@).len() ==> wf(
                            #[trigger] crate::json::arr_view(sink@)[q],
                        ),
                    decreases sa@.len() - t,
                {
                    let ghost gt = t as int;
                    let ghost grem = crate::json::arr_view(remaining@);
                    let ghost gsink = crate::json::arr_view(sink@);
                    proof {
                        assert(gsa.skip(gt)[0] == gsa[gt]);
                        assert(gsa.skip(gt).drop_first() =~= gsa.skip(gt + 1));
                        assert(gsa[gt] == sa@[gt]@);
                    }
                    let mut j: usize = 0;
                    let mut found = false;
                    while j < remaining.len() && !found
                        invariant
                            j <= remaining@.len(),
                            grem == crate::json::arr_view(remaining@),
                            gsa == crate::json::arr_view(sa@),
                            gt < sa@.len(),
                            !found ==> forall|q: int| 0 <= q < j ==> !key_like_eq(
                                #[trigger] grem[q],
                                gsa[gt],
                            ),
                            found ==> j < remaining@.len() && key_like_eq(grem[j as int], gsa[gt])
                                && forall|q: int| 0 <= q < j ==> !key_like_eq(
                                #[trigger] grem[q],
                                gsa[gt],
                            ),
                        decreases remaining@.len() - j, (if found { 0int } else { 1int }),
                    {
                        if key_eq_vals(&remaining[j], &sa[t]) {
                            found = true;
                        } else {
                            j += 1;
                        }
                    }
                    if found {
                        proof {
                            lemma_find_keyeq_positional(grem, gsa[gt], j as int);
                        }
                        let el = remaining.remove(j);
                        assert(el@ == grem[j as int]);
                        let ghost presink = crate::json::arr_view(sink@);
                        sink.push(el);
                        proof {
                            assert(crate::json::arr_view(remaining@) =~= grem.remove(j as int));
                            assert(crate::json::arr_view(sink@) =~= presink.push(grem[j as int]));
                            let rec = spec_unordered_split(gsa.skip(gt + 1), grem.remove(j as int));
                            assert(spec_unordered_split(gsa.skip(gt), grem).0 == seq![grem[j as int]]
                                + rec.0);
                            assert(presink + (seq![grem[j as int]] + rec.0)
                                =~= crate::json::arr_view(sink@) + rec.0);
                        }
                    } else {
                        proof {
                            lemma_find_keyeq_absent(grem, gsa[gt]);
                        }
                    }
                    t += 1;
                }
                proof {
                    assert(gsa.skip(sa@.len() as int) =~= Seq::<SpecVal>::empty());
                    assert(crate::json::arr_view(sink@) + Seq::<SpecVal>::empty()
                        =~= crate::json::arr_view(sink@));
                }
                if sink.len() == 0 {
                    proof {
                        assert(spec_unordered_split(gsa, goa).0.len() == 0);
                    }
                    return Ok(());
                }
                let ghost gsink = crate::json::arr_view(sink@);
                let ghost gleft = crate::json::arr_view(remaining@);
                let mut merged = sink;
                merged.append(&mut remaining);
                proof {
                    assert forall|q: int| 0 <= q < crate::json::arr_view(merged@).len() implies
                        crate::json::arr_view(merged@)[q] == (gsink + gleft)[q] by {
                        if q < gsink.len() {
                        } else {
                        }
                    }
                    assert(crate::json::arr_view(merged@) =~= gsink + gleft);
                    assert forall|q: int| 0 <= q < gsink.len() + gleft.len() implies wf(
                        #[trigger] (gsink + gleft)[q],
                    ) by {
                        if q < gsink.len() {
                            assert((gsink + gleft)[q] == gsink[q]);
                        } else {
                            assert((gsink + gleft)[q] == gleft[q - gsink.len()]);
                        }
                    }
                    lemma_select_replace(
                        old(other_body)@,
                        steps_view(steps@),
                        0,
                        SpecVal::Arr(gsink + gleft),
                    );
                }
                let replacement = JsonVal::Arr(merged);
                assert(replacement@ == SpecVal::Arr(gsink + gleft));
                let mut cur = JsonVal::Null;
                core::mem::swap(&mut cur, other_body);
                let (nv, ok) = replace_at(cur, steps, 0, replacement);
                assert(ok);
                *other_body = nv;
                Ok(())
            },
            _ => Err(FrError::ReadInstruction(BAD_TARGET_ERR)),
        }
    }
}


impl Response {
    /// Applies every declared validation rule to a live payload: for each
    /// selector with a tolerance, unordered first, then partial. On success
    /// the rules are cleared, so the two responses compare by body, extras
    /// and status alone.
    #[verifier::loop_isolation(false)]
    pub fn apply_validation(&mut self, other: &mut Response) -> (r: Result<(), FrError>)
        requires
            old(self).inv(),
            old(other).inv(),
        ensures
            final(self)@.body == old(self)@.body,
            final(self)@.etc == old(self)@.etc,
            final(self)@.status == old(self)@.status,
            final(other)@.etc == old(other)@.etc,
            final(other)@.status == old(other)@.status,
            final(other)@.validation == old(other)@.validation,
            final(self).inv(),
            final(other).inv(),
            match r {
                Ok(_) => match (old(self)@.body, old(other)@.body, old(self)@.validation) {
                    (Some(sb), Some(ob), Some(vs)) => spec_apply_validation(vs, sb, ob) matches
                        Ok(nb) && final(other)@.body == Some(nb) && final(self)@.validation is None,
                    _ => final(other)@.body == old(other)@.body && final(self)@.validation == old(
                        self,
                    )@.validation,
                },
                Err(e) => {
                    &&& old(self)@.body is Some
                    &&& old(other)@.body is Some
                    &&& old(self)@.validation matches Some(vs) && spec_apply_validation(
                        vs,
                        old(self)@.body->0,
                        old(other)@.body->0,
                    ) == Err::<SpecVal, SpecErr>(e@)
                    &&& final(self)@.validation == old(self)@.validation
                },
            },
    {
        if self.body.is_none() || other.body.is_none() || self.validation.is_none() {
            return Ok(());
        }
        let ghost sb = old(self)@.body->0;
        let ghost ob0 = old(other)@.body->0;
        let ghost gvs = old(self)@.validation->0;
        let mut curopt: Option<JsonVal> = None;
        core::mem::swap(&mut curopt, &mut other.body);
        let mut cur = match curopt {
            Some(c) => c,
            None => {
                proof {
                    assert(false);
                }
                JsonVal::Null
            },
        };
        assert(cur@ == ob0);
        let mut t: usize = 0;
        proof {
            assert(gvs.skip(0) =~= gvs);
        }
        loop
            invariant
                self.body == old(self).body,
                self.etc == old(self).etc,
                self.status == old(self).status,
                self.validation == old(self).validation,
                other.body is None,
                other.etc == old(other).etc,
                other.status == old(other).status,
                other.validation == old(other).validation,
                self.validation matches Some(vlist) && t <= vlist@.len() && gvs == validation_view(
                    vlist@,
                ),
                wf(cur@),
                spec_apply_validation(gvs.skip(t as int), sb, cur@) == spec_apply_validation(
                    gvs,
                    sb,
                    ob0,
                ),
            decreases gvs.len() - t,
        {
            let vlen = match &self.validation {
                Some(v) => v.len(),
                None => {
                    proof {
                        assert(false);
                    }
                    0
                },
            };
            if t >= vlen {
                break;
            }
            let ghost gt = t as int;
            proof {
                assert(gvs.skip(gt)[0] == gvs[gt]);
                assert(gvs.skip(gt).drop_first() =~= gvs.skip(gt + 1));
            }
            let (key_text, rule) = match &self.validation {
                Some(v) => {
                    proof {
                        assert(validation_view(v@)[gt] == (v@[gt].0@, v@[gt].1));
                    }
                    (string_of_chars(&v[t].0), v[t].1)
                },
                None => {
                    proof {
                        assert(false);
                    }
                    (String::new(), Validator { partial: false, unordered: false })
                },
            };
            if !rule.partial && !rule.unordered {
                t += 1;
                continue;
            }
            let sq = strip_query(key_text.as_str());
            let steps = match parse_selector(sq.as_str()) {
                Ok(ss) => ss,
                Err(e) => {
                    other.body = Some(cur);
                    return Err(e);
                },
            };
            let sbody = match &self.body {
                Some(b) => b,
                None => {
                    proof {
                        assert(false);
                    }
                    &JsonVal::Null
                },
            };
            let ghost before_u = cur@;
            if rule.unordered {
                match rule.apply_unordered(key_text.as_str(), &steps, sbody, &mut cur) {
                    Ok(_) => {},
                    Err(e) => {
                        other.body = Some(cur);
                        return Err(e);
                    },
                }
            }
            if rule.partial {
                match rule.apply_partial(key_text.as_str(), &steps, sbody, &mut cur) {
                    Ok(_) => {},
                    Err(e) => {
                        other.body = Some(cur);
                        return Err(e);
                    },
                }
            }
            t += 1;
        }
        other.body = Some(cur);
        self.validation = None;
        Ok(())
    }
}

} // verus!
