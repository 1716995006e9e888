//! One take: the pure part of driving one frame, after its live response has
//! arrived. Sending the request and the retry sleep live with the caller.

use vstd::prelude::*;
use crate::cut::{spec_merge_entries, valid_var_name, Register, VAR_NAME_ERR};
use crate::error::{FrError, SpecErr};
use crate::frame::{spec_hydrate_opt, Frame, SpecFrame, SpecInstr};
use crate::json::{wf, SpecVal};
use crate::response::{resp_sim, spec_apply_validation, spec_frame_root, spec_mpr, Response, SpecResponse};

verus! {

broadcast use vstd::std_specs::vec::group_vec_axioms;

/// The captured name/value pairs written back, as an entry sequence.
pub open spec fn caps_entries(m: Result<Seq<(Seq<char>, SpecVal)>, SpecErr>) -> Seq<
    (Seq<char>, SpecVal),
> {
    match m {
        Ok(ms) => ms,
        Err(_) => Seq::empty(),
    }
}

/// An instruction set with hydration of write variables switched on.
pub open spec fn hw_instr(c: SpecInstr) -> SpecInstr {
    SpecInstr { reads: c.reads, writes: c.writes, hydrate_writes: true }
}

/// When processing a response may fail: the write-match extraction errs, a
/// captured name is not a valid variable name, re-hydrating the response
/// body or extras errs, or applying the declared validation errs. Each case
/// names the exact error.
pub open spec fn spec_process_err(
    f: SpecFrame,
    p: SpecResponse,
    reg0: Seq<(Seq<char>, SpecVal)>,
    e: SpecErr,
) -> bool {
    let m = spec_mpr(f.cut.writes, spec_frame_root(f.response), spec_frame_root(p));
    let ms = caps_entries(m);
    let c2 = hw_instr(f.cut);
    let reg1 = spec_merge_entries(reg0, ms);
    let b1 = if ms.len() > 0 {
        spec_hydrate_opt(c2, reg1, f.response.body, false)
    } else {
        Ok(f.response.body)
    };
    let t1 = if ms.len() > 0 {
        spec_hydrate_opt(c2, reg1, f.response.etc, false)
    } else {
        Ok(f.response.etc)
    };
    ||| m == Err::<Seq<(Seq<char>, SpecVal)>, SpecErr>(e)
    ||| (m is Ok && exists|j: int|
        0 <= j < ms.len() && !valid_var_name((#[trigger] ms[j]).0) && e == SpecErr::FrameParsef(
            VAR_NAME_ERR@,
            ms[j].0,
        ))
    ||| (m is Ok && b1 == Err::<Option<SpecVal>, SpecErr>(e))
    ||| (m is Ok && b1 is Ok && t1 == Err::<Option<SpecVal>, SpecErr>(e))
    ||| (m is Ok && b1 is Ok && t1 is Ok && (f.response.validation matches Some(vs) && b1->Ok_0
        is Some && p.body is Some && spec_apply_validation(vs, b1->Ok_0->0, p.body->0) == Err::<
        SpecVal,
        SpecErr,
    >(e)))
}

/// Processes a live response against a frame: write matches are extracted
/// and stored in the register; when any exist, the frame's response side is
/// re-hydrated with writes enabled, so it shows the captured values.
/// Declared tolerances are applied to the payload, the two responses are
/// compared, and on a match the register's ignored names are flushed. The
/// returned flag says whether the responses matched; an error can come only
/// from the stages `spec_process_err` names.
#[verifier::loop_isolation(false)]
#[verifier::rlimit(100)]
pub fn process_response(frame: &mut Frame, register: &mut Register, payload: &mut Response) -> (r:
    Result<bool, FrError>)
    requires
        old(frame).cut.inv(),
        old(frame).response.inv(),
        old(register).inv(),
        old(payload).inv(),
    ensures
        final(register).inv(),
        final(payload).inv(),
        final(frame).cut.inv(),
        final(frame).response.inv(),
        final(frame)@.protocol == old(frame)@.protocol,
        final(frame)@.request == old(frame)@.request,
        match r {
            Ok(matched) => {
                let m = spec_mpr(
                    old(frame)@.cut.writes,
                    spec_frame_root(old(frame)@.response),
                    spec_frame_root(old(payload)@),
                );
                let ms = caps_entries(m);
                let reg1 = spec_merge_entries(old(register)@, ms);
                &&& m is Ok
                &&& (ms.len() > 0 ==> final(frame)@.cut.hydrate_writes)
                &&& matched == resp_sim(final(frame)@.response, final(payload)@)
                &&& (matched ==> final(register)@ == crate::cut::spec_flush(reg1))
                &&& (!matched ==> final(register)@ == reg1)
            },
            Err(e) => spec_process_err(old(frame)@, old(payload)@, old(register)@, e@),
        },
{
    let ghost greg0 = register@;
    let ghost gm = spec_mpr(
        old(frame)@.cut.writes,
        spec_frame_root(old(frame)@.response),
        spec_frame_root(old(payload)@),
    );
    let matches = match frame.response.match_payload_response(&frame.cut, payload) {
        Ok(m) => m,
        Err(e) => {
            return Err(e);
        },
    };
    match matches {
        Some(mut ms) => {
            let ghost gms = caps_entries(gm);
            proof {
                assert(gms.skip(0) =~= gms);
            }
            let mut t: usize = 0;
            let n = ms.len();
            while t < n
                invariant
                    t <= n,
                    n == ms@.len(),
                    register.inv(),
                    forall|j: int| 0 <= j < n ==> ((#[trigger] ms@[j]).0@, ms@[j].1@) == gms[j]
                        && wf(ms@[j].1@),
                    spec_merge_entries(register@, gms.skip(t as int)) == spec_merge_entries(
                        greg0,
                        gms,
                    ),
                decreases n - t,
            {
                let ghost gt = t as int;
                proof {
                    assert(gms.skip(gt)[0] == gms[gt]);
                    assert(gms.skip(gt).drop_first() =~= gms.skip(gt + 1));
                }
                let key = ms[t].0.clone();
                let val = ms[t].1.duplicate();
                match register.write_operation(key.as_str(), val) {
                    Ok(_) => {},
                    Err(e) => {
                        return Err(e);
                    },
                }
                t += 1;
            }
            proof {
                assert(gms.skip(n as int) =~= Seq::<(Seq<char>, SpecVal)>::empty());
            }
            frame.cut.set_hydrate_writes(true);
            let mut body: Option<crate::json::JsonVal> = None;
            core::mem::swap(&mut body, &mut frame.response.body);
            match body {
                Some(b) => {
                    let mut bv = b;
                    match Frame::hydrate_val(&frame.cut, &mut bv, &*register, false) {
                        Ok(_) => {
                            frame.response.body = Some(bv);
                        },
                        Err(e) => {
                            return Err(e);
                        },
                    }
                },
                None => {},
            }
            let mut etc: Option<crate::json::JsonVal> = None;
            core::mem::swap(&mut etc, &mut frame.response.etc);
            match etc {
                Some(e) => {
                    let mut ev = e;
                    match Frame::hydrate_val(&frame.cut, &mut ev, &*register, false) {
                        Ok(_) => {
                            frame.response.etc = Some(ev);
                        },
                        Err(err) => {
                            return Err(err);
                        },
                    }
                },
                None => {},
            }
        },
        None => {
            proof {
                assert(caps_entries(gm) =~= Seq::<(Seq<char>, SpecVal)>::empty());
            }
        },
    }
    match frame.response.apply_validation(payload) {
        Ok(_) => {},
        Err(e) => {
            return Err(e);
        },
    }
    let matched = frame.response == *payload;
    if !matched {
        return Ok(false);
    }
    register.flush_ignored();
    Ok(true)
}

} // verus!
