//! Run parameters: the run-wide values a take starts from, and the per-frame
//! parameters built by overlaying a frame's request on top of them.

use vstd::prelude::*;
use crate::error::FrError;
use crate::frame::Request;
use crate::json::{spec_obj_get, JsonVal, SpecVal};
use crate::text::{chars_of, digits_val, is_digit, parse_u32};

verus! {

broadcast use vstd::std_specs::vec::group_vec_axioms;

/// A retry policy: how many attempts in all, and the pause between them.
#[derive(Clone, Copy, PartialEq, Eq, Structural, Debug)]
pub struct Attempts {
    pub times: u32,
    pub ms: u64,
}

/// The parameters one request is sent with.
pub struct Params {
    pub timeout: u64,
    pub use_timestamp: bool,
    pub tls: bool,
    pub header: Option<String>,
    pub address: String,
    pub proto_path: Option<Vec<String>>,
    pub proto: Option<Vec<String>>,
    pub attempts: Option<Attempts>,
}

/// The run-wide parameter values, before a frame's request overlays its own.
pub struct BaseParams {
    pub timeout: u64,
    pub use_timestamp: bool,
    pub tls: bool,
    pub header: Option<String>,
    pub address: Option<String>,
    pub proto_path: Vec<String>,
    pub proto: Vec<String>,
    pub cut_out: Option<String>,
    pub interactive: bool,
    pub verbose: bool,
}

/// Relies on chrono's `Utc::now`: the current time rendered as text. The
/// result depends on the clock, so nothing is assumed of it. Note that
/// chrono itself aborts on a clock set before the Unix epoch.
#[verifier::external_body]
fn now_utc_string() -> String {
    chrono::Utc::now().to_string()
}

/// Parses a `u64` out of decimal digits.
pub fn parse_u64(s: &Vec<char>) -> (r: Option<u64>)
    ensures
        match r {
            Some(n) => s@.len() > 0 && (forall|j: int| 0 <= j < s@.len() ==> is_digit(
                #[trigger] s@[j],
            )) && n == digits_val(s@),
            None => s@.len() == 0 || (exists|j: int| 0 <= j < s@.len() && !is_digit(s@[j]))
                || digits_val(s@) > u64::MAX,
        },
{
    if s.len() == 0 {
        return None;
    }
    let mut acc: u64 = 0;
    let mut i: usize = 0;
    while i < s.len()
        invariant
            i <= s.len(),
            forall|j: int| 0 <= j < i ==> is_digit(#[trigger] s@[j]),
            acc == digits_val(s@.take(i as int)),
        decreases s.len() - i,
    {
        let c = s[i];
        let cu = c as u32;
        if cu < '0' as u32 || cu > '9' as u32 {
            assert(!is_digit(s@[i as int]));
            return None;
        }
        let d: u64 = (cu - '0' as u32) as u64;
        if acc > (u64::MAX - d) / 10 {
            proof {
                crate::text::lemma_digits_val_extend(s@, i as int);
                crate::text::lemma_digits_val_prefix_le(s@, i + 1);
            }
            return None;
        }
        proof {
            crate::text::lemma_digits_val_extend(s@, i as int);
        }
        acc = acc * 10 + d;
        i += 1;
    }
    proof {
        assert(s@.take(s@.len() as int) =~= s@);
    }
    Some(acc)
}

/// The retry policy a request's extras declare: an `attempts` object with
/// whole-number `times` and `ms` fields; absent extras or an absent
/// `attempts` key declare none.
pub open spec fn spec_attempts_of(etc: Option<SpecVal>) -> Result<Option<(u32, u64)>, ()> {
    match etc {
        Some(SpecVal::Obj(es)) => match spec_obj_get(es, "attempts"@) {
            Some(SpecVal::Obj(aes)) => {
                let t = spec_obj_get(aes, "times"@);
                let m = spec_obj_get(aes, "ms"@);
                if t matches Some(SpecVal::Num(td)) && m matches Some(SpecVal::Num(md)) && (forall|
                    i: int,
                |
                    0 <= i < td.len() ==> is_digit(#[trigger] td[i])) && (forall|i: int|
                    0 <= i < md.len() ==> is_digit(#[trigger] md[i])) && td.len() > 0 && md.len()
                    > 0 && digits_val(td) <= u32::MAX && digits_val(md) <= u64::MAX {
                    Ok(
                        Some(
                            (
                                digits_val(t->0->Num_0) as u32,
                                digits_val(m->0->Num_0) as u64,
                            ),
                        ),
                    )
                } else {
                    Err(())
                }
            },
            Some(SpecVal::Null) => Ok(None),
            Some(_) => Err(()),
            None => Ok(None),
        },
        _ => Ok(None),
    }
}

impl BaseParams {
    /// Builds per-frame parameters: the frame's header and entrypoint
    /// override the run-wide values, and a declared `attempts` object sets
    /// the retry policy. Fails when neither the frame nor the run names an
    /// address, or the retry declaration is malformed.
    pub fn init(&self, request: Request) -> (r: Result<Params, FrError>)
        ensures
            match r {
                Ok(p) => {
                    &&& p.timeout == self.timeout
                    &&& p.use_timestamp == self.use_timestamp
                    &&& p.tls == self.tls
                    &&& match request@.header {
                        Some(h) => p.header matches Some(t) && t@ == crate::codec::spec_ser(h),
                        None => p.header == self.header,
                    }
                    &&& match request@.entrypoint {
                        Some(SpecVal::Str(e)) => p.address@ == e,
                        _ => self.address matches Some(a) && p.address@ == a@,
                    }
                    &&& spec_attempts_of(request@.etc) matches Ok(att) && (match (
                        p.attempts,
                        att,
                    ) {
                        (Some(pa), Some((t, m))) => pa.times == t && pa.ms == m,
                        (None, None) => true,
                        _ => false,
                    })
                    &&& (p.proto_path is Some <==> self.proto_path@.len() > 0)
                    &&& (p.proto is Some <==> self.proto@.len() > 0)
                    &&& match p.proto_path {
                        Some(pp) => pp@.len() == self.proto_path@.len() && forall|i: int|
                            0 <= i < pp@.len() ==> (#[trigger] pp@[i])@ == self.proto_path@[i]@,
                        None => true,
                    }
                    &&& match p.proto {
                        Some(pp) => pp@.len() == self.proto@.len() && forall|i: int|
                            0 <= i < pp@.len() ==> (#[trigger] pp@[i])@ == self.proto@[i]@,
                        None => true,
                    }
                },
                Err(_) => (request@.entrypoint matches Some(e) ==> !(e is Str)) && (self.address
                    is None && !(request@.entrypoint matches Some(e) && e is Str))
                    || spec_attempts_of(request@.etc) is Err,
            },
    {
        let header: Option<String> = match request.get_header() {
            Some(h) => Some(crate::codec::to_json_string(&h)),
            None => match &self.header {
                Some(h) => Some(h.clone()),
                None => None,
            },
        };
        let address = match request.get_entrypoint() {
            Some(e) => e,
            None => match &self.address {
                Some(a) => a.clone(),
                None => {
                    return Err(FrError::Parse("Params: missing address".to_owned()));
                },
            },
        };
        let attempts: Option<Attempts> = match request.get_etc() {
            Some(JsonVal::Obj(es)) => {
                proof {
                    crate::json::lemma_obj_node_view(es);
                }
                match crate::json::obj_get(&es, &chars_of("attempts")) {
                    Some(JsonVal::Obj(aes)) => {
                        proof {
                            crate::json::lemma_obj_node_view(*aes);
                        }
                        let times = match crate::json::obj_get(aes, &chars_of("times")) {
                            Some(JsonVal::Num(td)) => match parse_u32(td) {
                                Some(t) => t,
                                None => {
                                    return Err(
                                        FrError::Serde("invalid attempts declaration".to_owned()),
                                    );
                                },
                            },
                            _ => {
                                return Err(
                                    FrError::Serde("invalid attempts declaration".to_owned()),
                                );
                            },
                        };
                        let ms = match crate::json::obj_get(aes, &chars_of("ms")) {
                            Some(JsonVal::Num(md)) => match parse_u64(md) {
                                Some(m) => m,
                                None => {
                                    return Err(
                                        FrError::Serde("invalid attempts declaration".to_owned()),
                                    );
                                },
                            },
                            _ => {
                                return Err(
                                    FrError::Serde("invalid attempts declaration".to_owned()),
                                );
                            },
                        };
                        Some(Attempts { times, ms })
                    },
                    Some(JsonVal::Null) => None,
                    Some(_) => {
                        return Err(FrError::Serde("invalid attempts declaration".to_owned()));
                    },
                    None => None,
                }
            },
            _ => None,
        };
        let proto_path = if self.proto_path.len() == 0 {
            None
        } else {
            Some(dup_strings(&self.proto_path))
        };
        let proto = if self.proto.len() == 0 {
            None
        } else {
            Some(dup_strings(&self.proto))
        };
        Ok(
            Params {
                timeout: self.timeout,
                use_timestamp: self.use_timestamp,
                tls: self.tls,
                header,
                address,
                proto_path,
                proto,
                attempts,
            },
        )
    }

    /// The same parameters with another timeout.
    pub fn with_timeout(self, timeout: u64) -> (r: BaseParams)
        ensures
            r.timeout == timeout,
            r.use_timestamp == self.use_timestamp,
            r.tls == self.tls,
            r.header == self.header,
            r.address == self.address,
            r.proto_path == self.proto_path,
            r.proto == self.proto,
            r.cut_out == self.cut_out,
            r.interactive == self.interactive,
            r.verbose == self.verbose,
    {
        BaseParams { timeout, ..self }
    }

    /// The same parameters with timestamp printing switched.
    pub fn with_timestamp(self, timestamp: bool) -> (r: BaseParams)
        ensures
            r.use_timestamp == timestamp,
            r.timeout == self.timeout,
            r.tls == self.tls,
            r.header == self.header,
            r.address == self.address,
            r.proto_path == self.proto_path,
            r.proto == self.proto,
            r.cut_out == self.cut_out,
            r.interactive == self.interactive,
            r.verbose == self.verbose,
    {
        BaseParams { use_timestamp: timestamp, ..self }
    }

    /// A bracketed timestamp when timestamps are on, empty text otherwise.
    pub fn fmt_timestamp(&self) -> (r: String)
        ensures
            !self.use_timestamp ==> r@.len() == 0,
    {
        if self.use_timestamp {
            let now = now_utc_string();
            crate::error::concat4("[", now.as_str(), "] ", "")
        } else {
            String::new()
        }
    }
}

impl Params {
    /// A bracketed timestamp when timestamps are on, empty text otherwise.
    pub fn fmt_timestamp(&self) -> (r: String)
        ensures
            !self.use_timestamp ==> r@.len() == 0,
    {
        if self.use_timestamp {
            let now = now_utc_string();
            crate::error::concat4("[", now.as_str(), "] ", "")
        } else {
            String::new()
        }
    }
}

/// Copies a string list.
pub fn dup_strings(v: &Vec<String>) -> (r: Vec<String>)
    ensures
        r@.len() == v@.len(),
        forall|i: int| 0 <= i < v@.len() ==> (#[trigger] r@[i])@ == v@[i]@,
{
    let mut out: Vec<String> = Vec::new();
    let mut i: usize = 0;
    while i < v.len()
        invariant
            i <= v@.len(),
            out@.len() == i,
            forall|j: int| 0 <= j < i ==> (#[trigger] out@[j])@ == v@[j]@,
        decreases v@.len() - i,
    {
        out.push(v[i].clone());
        i += 1;
    }
    out
}

/// Interleaves a flag before every path, as handed to an external process.
pub fn iter_path_args(prefix: &str, paths: &Vec<String>) -> (r: Vec<String>)
    ensures
        r@.len() == 2 * paths@.len(),
        forall|i: int| 0 <= i < paths@.len() ==> (#[trigger] r@[2 * i])@ == prefix@ && r@[2 * i
            + 1]@ == paths@[i]@,
{
    let mut out: Vec<String> = Vec::new();
    let mut i: usize = 0;
    while i < paths.len()
        invariant
            i <= paths@.len(),
            out@.len() == 2 * i,
            forall|j: int| 0 <= j < out@.len() ==> (#[trigger] out@[j])@ == (if j % 2 == 0 {
                prefix@
            } else {
                paths@[j / 2]@
            }),
        decreases paths@.len() - i,
    {
        let ghost pre = out@;
        out.push(prefix.to_owned());
        out.push(paths[i].clone());
        proof {
            assert forall|j: int| 0 <= j < out@.len() implies (#[trigger] out@[j])@ == (if j % 2
                == 0 {
                prefix@
            } else {
                paths@[j / 2]@
            }) by {
                if j < pre.len() {
                    assert(out@[j] == pre[j]);
                }
            }
        }
        i += 1;
    }
    proof {
        assert forall|k: int| 0 <= k < paths@.len() implies (#[trigger] out@[2 * k])@ == prefix@
            && out@[2 * k + 1]@ == paths@[k]@ by {
            assert((2 * k) % 2 == 0);
            assert((2 * k + 1) % 2 == 1);
            assert((2 * k + 1) / 2 == k);
        }
    }
    out
}

/// Whether a piece of text looks like a JSON object rather than a file
/// path: ignoring whitespace, it opens with `{"`, closes with `}`, and holds
/// a `":` key mark after the opening.
pub open spec fn spec_guess_json_obj(s: Seq<char>) -> bool {
    let t = spec_strip_ws(s);
    &&& t.len() >= 2
    &&& t[0] == '{'
    &&& t[1] == '"'
    &&& t[t.len() - 1] == '}'
    &&& exists|i: int| 2 <= i && i + 2 <= t.len() && #[trigger] t.subrange(i, i + 2) =~= seq!['"', ':']
}

/// The text with all whitespace characters removed.
pub open spec fn spec_strip_ws(s: Seq<char>) -> Seq<char>
    decreases s.len(),
{
    if s.len() == 0 {
        s
    } else if s[0] == ' ' || s[0] == '\n' || s[0] == '\t' || s[0] == '\r' {
        spec_strip_ws(s.drop_first())
    } else {
        seq![s[0]] + spec_strip_ws(s.drop_first())
    }
}

/// Guesses whether a piece of text is a JSON object rather than a file path.
#[verifier::loop_isolation(false)]
pub fn guess_json_obj(input: &str) -> (r: bool)
    ensures
        r == spec_guess_json_obj(input@),
{
    let s = chars_of(input);
    let ghost gs = s@;
    let mut t: Vec<char> = Vec::new();
    let mut i: usize = 0;
    proof {
        assert(gs.skip(0) =~= gs);
    }
    while i < s.len()
        invariant
            i <= gs.len(),
            spec_strip_ws(gs) =~= t@ + spec_strip_ws(gs.skip(i as int)),
        decreases gs.len() - i,
    {
        let ghost gi = i as int;
        proof {
            assert(gs.skip(gi)[0] == gs[gi]);
            assert(gs.skip(gi).drop_first() =~= gs.skip(gi + 1));
        }
        let c = s[i];
        if !(c == ' ' || c == '\n' || c == '\t' || c == '\r') {
            t.push(c);
        }
        i += 1;
    }
    proof {
        assert(gs.skip(gs.len() as int) =~= Seq::<char>::empty());
        assert(t@ + Seq::<char>::empty() =~= t@);
        assert(t@ == spec_strip_ws(gs));
    }
    if t.len() < 2 || t[0] != '{' || t[1] != '"' || t[t.len() - 1] != '}' {
        return false;
    }
    let mut j: usize = 2;
    while j < t.len() - 1
        invariant
            2 <= j,
            forall|k: int| 2 <= k < j ==> !(k + 2 <= t@.len() && #[trigger] t@.subrange(k, k + 2)
                =~= seq!['"', ':']),
        decreases t@.len() - j,
    {
        if t[j] == '"' && t[j + 1] == ':' {
            proof {
                assert(t@.subrange(j as int, j + 2) =~= seq!['"', ':']);
            }
            return true;
        }
        proof {
            assert(t@.subrange(j as int, j + 2)[0] == t@[j as int]);
            assert(t@.subrange(j as int, j + 2)[1] == t@[j + 1]);
        }
        j += 1;
    }
    proof {
        assert forall|k: int| !(2 <= k && k + 2 <= t@.len() && #[trigger] t@.subrange(k, k + 2)
            =~= seq!['"', ':']) by {
            if 2 <= k && k + 2 <= t@.len() {
                assert(!(k + 2 <= t@.len() && t@.subrange(k, k + 2) =~= seq!['"', ':']));
            }
        }
    }
    false
}

} // verus!
