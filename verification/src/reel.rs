//! Reels: ordered sequences of frames found by filename convention
//! `<reel>.<seq><type>.<name>.fr.json`, sorted by filename, with no two
//! frames sharing a sequence token.

use vstd::prelude::*;
use crate::error::{concat2, concat4, FrError, SpecErr};
use crate::text::{
    chars_eq, chars_lt, chars_of, digits_val, is_digit, lex_lt, parse_u32,
    string_of_chars, sub_at, subvec,
};

verus! {

broadcast use vstd::std_specs::vec::group_vec_axioms;

pub const SEQUENCE_DUPE_ERR: &'static str =
    "Associated frames cannot share the same sequence number";

pub const METAFRAME_DELIMIT_ERR: &'static str =
    "Frame filename mast have exactly 3 period delimited sections preceding '.fr.json'";

/// The return type a frame declares through its filename: an expected
/// success, an expected error, or an error expected after a success.
#[derive(PartialEq, Eq, Structural, Clone, Copy, Debug)]
pub enum FrameType {
    Error,
    Success,
    PsError,
    Invalid,
}

/// The frame type a sequence token's letters name.
pub open spec fn spec_frame_type(s: Seq<char>) -> FrameType {
    if s == "e"@ {
        FrameType::Error
    } else if s == "s"@ {
        FrameType::Success
    } else if s == "se"@ {
        FrameType::PsError
    } else {
        FrameType::Invalid
    }
}

impl FrameType {
    /// Reads a type code: `e`, `s` or `se`.
    pub fn from_code(s: &str) -> (r: FrameType)
        ensures
            r == spec_frame_type(s@),
    {
        let v = chars_of(s);
        proof {
            reveal_strlit("e");
            reveal_strlit("s");
            reveal_strlit("se");
        }
        if v.len() == 1 && v[0] == 'e' {
            proof {
                assert(v@ =~= "e"@);
            }
            FrameType::Error
        } else if v.len() == 1 && v[0] == 's' {
            proof {
                assert(v@ =~= "s"@);
            }
            FrameType::Success
        } else if v.len() == 2 && v[0] == 's' && v[1] == 'e' {
            proof {
                assert(v@ =~= "se"@);
            }
            FrameType::PsError
        } else {
            proof {
                assert(v@ != "e"@ && v@ != "s"@ && v@ != "se"@);
            }
            FrameType::Invalid
        }
    }
}

/// An ASCII letter.
pub open spec fn is_letter(c: char) -> bool {
    ('A' <= c && c <= 'Z') || ('a' <= c && c <= 'z')
}

/// The digits of a sequence token standing before any underscore.
pub open spec fn seq_int_digits(s: Seq<char>) -> Seq<char>
    decreases s.len(),
{
    if s.len() == 0 {
        s
    } else if s[0] == '_' {
        Seq::empty()
    } else if is_digit(s[0]) {
        seq![s[0]] + seq_int_digits(s.drop_first())
    } else {
        seq_int_digits(s.drop_first())
    }
}

/// The type letters of a sequence token, in order.
pub open spec fn seq_letters(s: Seq<char>) -> Seq<char>
    decreases s.len(),
{
    if s.len() == 0 {
        s
    } else if is_letter(s[0]) {
        seq![s[0]] + seq_letters(s.drop_first())
    } else {
        seq_letters(s.drop_first())
    }
}

/// Every character of a sequence token is a digit, a letter or an
/// underscore.
pub open spec fn seq_chars_ok(s: Seq<char>) -> bool {
    forall|i: int| 0 <= i < s.len() ==> is_digit(#[trigger] s[i]) || is_letter(s[i]) || s[i] == '_'
}

/// How many underscores a sequence token holds.
pub open spec fn underscore_count(s: Seq<char>) -> int
    decreases s.len(),
{
    if s.len() == 0 {
        0
    } else {
        (if s[0] == '_' {
            1int
        } else {
            0int
        }) + underscore_count(s.drop_first())
    }
}

/// How many digits a sequence token holds.
pub open spec fn digit_count(s: Seq<char>) -> int
    decreases s.len(),
{
    if s.len() == 0 {
        0
    } else {
        (if is_digit(s[0]) {
            1int
        } else {
            0int
        }) + digit_count(s.drop_first())
    }
}

/// A numerically readable sequence token: at most one underscore (the
/// decimal point) and at least one digit.
pub open spec fn seq_numeric_ok(s: Seq<char>) -> bool {
    underscore_count(s) <= 1 && digit_count(s) >= 1
}

/// Reads a sequence token such as `01s` or `10s_1`: digits give the whole
/// sequence number, an underscore opens the decimal fraction, and the
/// letters name the frame type.
#[verifier::loop_isolation(false)]
pub fn parse_sequence(token: &str) -> (r: Result<(u32, FrameType), FrError>)
    ensures
        match r {
            Ok((n, t)) => {
                &&& seq_chars_ok(token@)
                &&& seq_numeric_ok(token@)
                &&& digits_val(seq_int_digits(token@)) == n
                &&& spec_frame_type(seq_letters(token@)) == t
                &&& t != FrameType::Invalid
            },
            Err(_) => !seq_chars_ok(token@) || !seq_numeric_ok(token@) || digits_val(
                seq_int_digits(token@),
            ) > u32::MAX || spec_frame_type(seq_letters(token@)) == FrameType::Invalid,
        },
{
    let s = chars_of(token);
    let ghost gs = s@;
    let mut digits: Vec<char> = Vec::new();
    let mut letters: Vec<char> = Vec::new();
    let mut underscores: usize = 0;
    let mut all_digits: usize = 0;
    let mut i: usize = 0;
    proof {
        assert(gs.skip(0) =~= gs);
    }
    while i < s.len()
        invariant
            i <= gs.len(),
            underscores <= i,
            all_digits <= i,
            forall|j: int| 0 <= j < i ==> is_digit(#[trigger] gs[j]) || is_letter(gs[j]) || gs[j]
                == '_',
            underscore_count(gs) == underscores + underscore_count(gs.skip(i as int)),
            digit_count(gs) == all_digits + digit_count(gs.skip(i as int)),
            seq_letters(gs) =~= letters@ + seq_letters(gs.skip(i as int)),
            underscores == 0 ==> seq_int_digits(gs) =~= digits@ + seq_int_digits(gs.skip(i as int)),
            underscores > 0 ==> seq_int_digits(gs) =~= digits@,
        decreases gs.len() - i,
    {
        let ghost gi = i as int;
        let c = s[i];
        proof {
            assert(gs.skip(gi)[0] == gs[gi]);
            assert(gs.skip(gi).drop_first() =~= gs.skip(gi + 1));
        }
        let cu = c as u32;
        if cu >= '0' as u32 && cu <= '9' as u32 {
            if underscores == 0 {
                digits.push(c);
            }
            all_digits += 1;
        } else if (c >= 'A' && c <= 'Z') || (c >= 'a' && c <= 'z') {
            letters.push(c);
        } else if c == '_' {
            underscores += 1;
        } else {
            assert(!seq_chars_ok(gs));
            return Err(
                FrError::ReelParsef(
                    "{} is an invalidsequence char!",
                    string_of_chars(&subvec(&s, i, i + 1)),
                ),
            );
        }
        i += 1;
    }
    proof {
        assert(gs.skip(gs.len() as int) =~= Seq::<char>::empty());
    }
    if underscores > 1 || all_digits == 0 {
        return Err(
            FrError::ReelParsef("Could not parse value into f32", "invalid sequence".to_owned()),
        );
    }
    let n = if digits.len() == 0 {
        0u32
    } else {
        match parse_u32(&digits) {
            Some(n) => n,
            None => {
                proof {
                    lemma_seq_int_digits_are_digits(gs);
                }
                return Err(
                    FrError::ReelParsef(
                        "Could not parse value into f32",
                        "sequence number too large".to_owned(),
                    ),
                );
            },
        }
    };
    let ft = FrameType::from_code(string_of_chars(&letters).as_str());
    if matches!(ft, FrameType::Invalid) {
        return Err(FrError::ReelParse("Unrecognized frame type in frame sequence"));
    }
    proof {
        if digits@.len() == 0 {
            assert(digits_val(seq_int_digits(gs)) == 0);
        }
    }
    Ok((n, ft))
}

/// The whole-part digits of a token are digits.
proof fn lemma_seq_int_digits_are_digits(s: Seq<char>)
    ensures
        forall|i: int| 0 <= i < seq_int_digits(s).len() ==> is_digit(#[trigger] seq_int_digits(s)[i]),
    decreases s.len(),
{
    if s.len() > 0 && s[0] != '_' {
        lemma_seq_int_digits_are_digits(s.drop_first());
        if is_digit(s[0]) {
            assert forall|i: int| 0 <= i < seq_int_digits(s).len() implies is_digit(
                #[trigger] seq_int_digits(s)[i],
            ) by {
                if i > 0 {
                    assert(seq_int_digits(s)[i] == seq_int_digits(s.drop_first())[i - 1]);
                }
            }
        } else {
            assert forall|i: int| 0 <= i < seq_int_digits(s).len() implies is_digit(
                #[trigger] seq_int_digits(s)[i],
            ) by {
                assert(seq_int_digits(s)[i] == seq_int_digits(s.drop_first())[i]);
            }
        }
    }
}

/// The metadata a frame's filename declares: its reel, its raw sequence
/// token, the whole part of its sequence number, its type, and its command
/// name, plus the full path it was found at.
pub struct MetaFrame {
    pub reel_name: String,
    pub frame_type: FrameType,
    pub alt_name: Option<String>,
    pub name: String,
    pub path: String,
    pub step: String,
    pub step_int: u32,
}

/// The position after the last `/` of a path.
pub open spec fn basename_start(p: Seq<char>) -> int
    decreases p.len(),
{
    if p.len() == 0 {
        0
    } else if p[p.len() - 1] == '/' {
        p.len() as int
    } else {
        basename_start(p.drop_last())
    }
}

/// The filename component of a path.
pub open spec fn spec_basename(p: Seq<char>) -> Seq<char> {
    p.skip(basename_start(p))
}

/// A path's filename with one `.fr.json` suffix removed, when present.
pub open spec fn spec_stem(f: Seq<char>) -> Seq<char> {
    if f.len() >= 8 && f.subrange(f.len() - 8, f.len() as int) == ".fr.json"@ {
        f.take(f.len() - 8)
    } else {
        f
    }
}

/// A character sequence split on `.`.
pub open spec fn split_dots(s: Seq<char>) -> Seq<Seq<char>>
    decreases s.len(),
{
    if s.len() == 0 {
        seq![Seq::<char>::empty()]
    } else if s[0] == '.' {
        seq![Seq::<char>::empty()] + split_dots(s.drop_first())
    } else {
        let rest = split_dots(s.drop_first());
        seq![seq![s[0]] + rest[0]] + rest.drop_first()
    }
}

/// Splits a character vector on `.`.
#[verifier::loop_isolation(false)]
fn split_dots_exec(s: &Vec<char>) -> (r: Vec<Vec<char>>)
    ensures
        r@.len() == split_dots(s@).len(),
        forall|i: int| 0 <= i < r@.len() ==> (#[trigger] r@[i])@ == split_dots(s@)[i],
    decreases s@.len(),
{
    let mut out: Vec<Vec<char>> = Vec::new();
    let mut cur: Vec<char> = Vec::new();
    let mut i: usize = 0;
    proof {
        assert(s@.skip(0) =~= s@);
    }
    while i < s.len()
        invariant
            i <= s@.len(),
            cur@.len() <= i,
            ({
                let full = split_dots(s@);
                let rest = split_dots(s@.skip(i as int));
                &&& full.len() == out@.len() + rest.len()
                &&& (forall|j: int| 0 <= j < out@.len() ==> (#[trigger] out@[j])@ == full[j])
                &&& full[out@.len() as int] == cur@ + rest[0]
                &&& (forall|j: int| 0 < j < rest.len() ==> full[out@.len() + j] == #[trigger] rest[j])
            }),
        decreases s@.len() - i,
    {
        let ghost gi = i as int;
        proof {
            assert(s@.skip(gi)[0] == s@[gi]);
            assert(s@.skip(gi).drop_first() =~= s@.skip(gi + 1));
        }
        if s[i] == '.' {
            let ghost gcur = cur@;
            let ghost glen = out@.len() as int;
            out.push(cur);
            cur = Vec::new();
            proof {
                let full = split_dots(s@);
                let rest = split_dots(s@.skip(gi));
                let rest2 = split_dots(s@.skip(gi + 1));
                assert(rest == seq![Seq::<char>::empty()] + rest2);
                assert(rest[0] =~= Seq::<char>::empty());
                assert(full[glen] =~= gcur);
                assert forall|j: int| 0 < j < rest2.len() implies full[glen + 1 + j]
                    == #[trigger] rest2[j] by {
                    assert(rest[j + 1] == rest2[j]);
                    assert(full[glen + (j + 1)] == rest[j + 1]);
                }
                assert(rest[1] == rest2[0]);
                assert(full[glen + 1] == rest2[0]);
                assert(cur@ + rest2[0] =~= rest2[0]);
            }
        } else {
            cur.push(s[i]);
            proof {
                let rest = split_dots(s@.skip(gi));
                let rest2 = split_dots(s@.skip(gi + 1));
                assert(rest == seq![seq![s@[gi]] + rest2[0]] + rest2.drop_first());
                assert(rest[0] =~= seq![s@[gi]] + rest2[0]);
                assert(cur@ + rest2[0] =~= cur@.drop_last() + (seq![s@[gi]] + rest2[0]));
                assert forall|j: int| 0 < j < rest2.len() implies split_dots(s@)[out@.len() + j]
                    == #[trigger] rest2[j] by {
                    if j >= 1 {
                        assert(rest[j] == rest2.drop_first()[j - 1]);
                        assert(rest2.drop_first()[j - 1] == rest2[j]);
                    }
                }
            }
        }
        i += 1;
    }
    proof {
        assert(s@.skip(s@.len() as int) =~= Seq::<char>::empty());
        assert(split_dots(Seq::<char>::empty())[0] =~= Seq::<char>::empty());
        assert(cur@ + Seq::<char>::empty() =~= cur@);
    }
    out.push(cur);
    out
}

/// The parse of a frame filename: the reel name, the sequence token, the
/// whole sequence number, the frame type, and the command name.
pub open spec fn spec_parse_meta(p: Seq<char>) -> Result<
    (Seq<char>, Seq<char>, int, FrameType, Seq<char>),
    bool,
> {
    let parts = split_dots(spec_stem(spec_basename(p)));
    if parts.len() != 3 {
        Err(true)
    } else {
        let token = parts[1];
        if seq_chars_ok(token) && seq_numeric_ok(token) && digits_val(seq_int_digits(token))
            <= u32::MAX && spec_frame_type(seq_letters(token)) != FrameType::Invalid {
            Ok(
                (
                    parts[0],
                    token,
                    digits_val(seq_int_digits(token)) as int,
                    spec_frame_type(seq_letters(token)),
                    parts[2],
                ),
            )
        } else {
            Err(false)
        }
    }
}

impl MetaFrame {
    /// Whether this frame expects a success.
    pub fn is_success(&self) -> (r: bool)
        ensures
            r == (self.frame_type == FrameType::Success),
    {
        matches!(self.frame_type, FrameType::Success)
    }

    /// Reads a frame's metadata out of its file path.
    #[verifier::loop_isolation(false)]
    pub fn try_from_path(path: &str) -> (r: Result<MetaFrame, FrError>)
        ensures
            match r {
                Ok(m) => spec_parse_meta(path@) == Ok::<_, bool>(
                    (m.reel_name@, m.step@, m.step_int as int, m.frame_type, m.name@),
                ) && m.path@ == path@ && m.alt_name is None,
                Err(_) => spec_parse_meta(path@) is Err,
            },
    {
        let p = chars_of(path);
        let ghost gp = p@;
        let mut b: usize = p.len();
        proof {
            assert(gp.take(gp.len() as int) =~= gp);
        }
        while b > 0 && p[b - 1] != '/'
            invariant
                b <= p@.len(),
                basename_start(gp) == basename_start(gp.take(b as int)),
            decreases b,
        {
            proof {
                assert(gp.take(b as int).drop_last() =~= gp.take(b - 1));
                assert(gp.take(b as int).last() == gp[b - 1]);
            }
            b -= 1;
        }
        proof {
            if b > 0 {
                assert(gp.take(b as int).last() == gp[b - 1]);
                assert(gp[b - 1] == '/');
                assert(basename_start(gp.take(b as int)) == gp.take(b as int).len());
            }
            assert(basename_start(gp.take(b as int)) == b);
        }
        let fname = subvec(&p, b, p.len());
        proof {
            assert(fname@ =~= spec_basename(gp));
        }
        proof {
            reveal_strlit(".fr.json");
            assert(".fr.json"@.len() == 8);
        }
        let stem = if fname.len() >= 8 && sub_at(&fname, fname.len() - 8, &chars_of(".fr.json")) {
            let r = subvec(&fname, 0, fname.len() - 8);
            proof {
                assert(r@ =~= spec_stem(fname@));
            }
            r
        } else {
            proof {
                assert(fname@ == spec_stem(fname@));
            }
            fname
        };
        let parts = split_dots_exec(&stem);
        if parts.len() != 3 {
            return Err(FrError::ReelParse(METAFRAME_DELIMIT_ERR));
        }
        let token = string_of_chars(&parts[1]);
        let (step_int, frame_type) = match parse_sequence(token.as_str()) {
            Ok(v) => v,
            Err(e) => {
                return Err(e);
            },
        };
        Ok(
            MetaFrame {
                reel_name: string_of_chars(&parts[0]),
                frame_type,
                alt_name: None,
                name: string_of_chars(&parts[2]),
                path: path.to_owned(),
                step: token,
                step_int,
            },
        )
    }

    /// The frame's filename, rebuilt from its parts.
    pub fn get_filename(&self) -> (r: String)
        ensures
            r@ == spec_filename(*self),
    {
        let a = concat4(self.reel_name.as_str(), ".", self.step.as_str(), ".");
        let b = concat2(self.name.as_str(), ".fr.json");
        concat2(a.as_str(), b.as_str())
    }

    /// The reel's default cut file under the given directory.
    pub fn get_cut_file(&self, dir: &str) -> (r: String)
        ensures
            r@ == dir@ + "/"@ + self.reel_name@ + ".cut.json"@,
    {
        concat4(dir, "/", self.reel_name.as_str(), ".cut.json")
    }
}


/// The filename a frame's parts name: `<reel>.<seq><type>.<name>.fr.json`.
pub open spec fn spec_filename(m: MetaFrame) -> Seq<char> {
    m.reel_name@ + "."@ + m.step@ + "."@ + m.name@ + ".fr.json"@
}

/// Frames ordered ascending by file path.
pub open spec fn frames_sorted(fs: Seq<MetaFrame>) -> bool {
    forall|i: int, j: int| 0 <= i < j < fs.len() ==> !lex_lt(
        (#[trigger] fs[j]).path@,
        (#[trigger] fs[i]).path@,
    )
}

/// No two frames share a sequence token.
pub open spec fn steps_distinct(fs: Seq<MetaFrame>) -> bool {
    forall|i: int, j: int| 0 <= i < j < fs.len() ==> (#[trigger] fs[i]).step@ != (
    #[trigger] fs[j]).step@
}

/// A frame's whole sequence number lies in the optional inclusive range.
pub open spec fn in_range(n: u32, range: Option<(u32, u32)>) -> bool {
    match range {
        Some((a, b)) => a <= n && n <= b,
        None => true,
    }
}

/// A whole sequence number (as an integer) lies in the optional inclusive
/// range.
pub open spec fn in_range_int(n: int, range: Option<(u32, u32)>) -> bool {
    match range {
        Some((a, b)) => a as int <= n && n <= b as int,
        None => true,
    }
}

/// How many of the first `upto` paths parse as frame metadata with a whole
/// sequence number inside the range.
pub open spec fn kept_count(paths: Seq<String>, range: Option<(u32, u32)>, upto: int) -> int
    decreases upto,
    when 0 <= upto <= paths.len()
{
    if upto == 0 {
        0
    } else {
        kept_count(paths, range, upto - 1) + (if spec_parse_meta(
            paths[upto - 1]@,
        ) matches Ok(pm) && in_range_int(pm.2, range) {
            1int
        } else {
            0int
        })
    }
}

/// A frame carries exactly what its path declares.
pub open spec fn meta_matches_path(m: MetaFrame) -> bool {
    spec_parse_meta(m.path@) == Ok::<_, bool>(
        (m.reel_name@, m.step@, m.step_int as int, m.frame_type, m.name@),
    )
}

/// Copies a frame's metadata.
fn dup_meta(m: &MetaFrame) -> (r: MetaFrame)
    ensures
        r == *m,
{
    MetaFrame {
        reel_name: m.reel_name.clone(),
        frame_type: m.frame_type,
        alt_name: match &m.alt_name {
            Some(a) => Some(a.clone()),
            None => None,
        },
        name: m.name.clone(),
        path: m.path.clone(),
        step: m.step.clone(),
        step_int: m.step_int,
    }
}

/// The ordered sequence of frames one reel execution steps through, found
/// under one directory.
pub struct Reel {
    pub dir: String,
    pub frames: Vec<MetaFrame>,
}

/// The first position whose frame path exceeds `mc`.
#[verifier::loop_isolation(false)]
fn find_pos(frames: &Vec<MetaFrame>, mc: &Vec<char>) -> (p: usize)
    ensures
        p <= frames@.len(),
        forall|i: int| 0 <= i < p ==> !lex_lt(mc@, (#[trigger] frames@[i]).path@),
        p < frames@.len() ==> lex_lt(mc@, frames@[p as int].path@),
{
    let mut p: usize = 0;
    while p < frames.len()
        invariant
            p <= frames@.len(),
            forall|i: int| 0 <= i < p ==> !lex_lt(mc@, (#[trigger] frames@[i]).path@),
        decreases frames@.len() - p,
    {
        let fc = chars_of(frames[p].path.as_str());
        if chars_lt(&mc, &fc) {
            return p;
        }
        p += 1;
    }
    p
}

/// Inserts a frame before the first frame with a greater path; the
/// insertion position comes back.
#[verifier::loop_isolation(false)]
fn insert_sorted(frames: &mut Vec<MetaFrame>, m: MetaFrame) -> (p: usize)
    requires
        frames_sorted(old(frames)@),
    ensures
        p <= old(frames)@.len(),
        final(frames)@ == old(frames)@.insert(p as int, m),
        frames_sorted(final(frames)@),
{
    let ghost gfs = frames@;
    let mc = chars_of(m.path.as_str());
    let p = find_pos(frames, &mc);
    let ghost gp = p as int;
    frames.insert(p, m);
    proof {
        assert(frames@ =~= gfs.insert(gp, m));
        assert forall|i: int, j: int| 0 <= i < j < frames@.len() implies !lex_lt(
            (#[trigger] frames@[j]).path@,
            (#[trigger] frames@[i]).path@,
        ) by {
            let a = if i < gp {
                gfs[i]
            } else if i == gp {
                m
            } else {
                gfs[i - 1]
            };
            assert(frames@[i] == a);
            let b = if j < gp {
                gfs[j]
            } else if j == gp {
                m
            } else {
                gfs[j - 1]
            };
            assert(frames@[j] == b);
            if i < gp && j == gp {
                assert(!lex_lt(m.path@, gfs[i].path@));
            } else if i == gp && j > gp {
                assert(lex_lt(m.path@, gfs[gp].path@));
                if j - 1 == gp {
                    crate::text::lemma_lex_lt_asym(m.path@, gfs[gp].path@);
                } else {
                    if lex_lt(gfs[j - 1].path@, m.path@) {
                        crate::text::lemma_lex_lt_trans(
                            gfs[j - 1].path@,
                            m.path@,
                            gfs[gp].path@,
                        );
                        assert(false);
                    }
                }
            } else if i < gp && j > gp {
                if j - 1 == gp {
                } else {
                }
            }
        }
    }
    p
}

impl Reel {
    /// Builds a reel from the frame files found for it: each path is read
    /// into its metadata, frames outside the optional inclusive range of
    /// whole sequence numbers are left out, the rest are ordered ascending
    /// by path, and no two may share a sequence token. The frames are
    /// exactly the kept paths: every kept path appears, every frame comes
    /// from a kept path, and the counts agree. An error means a path failed
    /// to parse, or two kept paths share a sequence token.
    #[verifier::loop_isolation(false)]
    #[verifier::rlimit(100)]
    pub fn new(dir: &str, paths: &Vec<String>, range: Option<(u32, u32)>) -> (r: Result<
        Reel,
        FrError,
    >)
        ensures
            match r {
                Ok(reel) => {
                    &&& reel.dir@ == dir@
                    &&& frames_sorted(reel.frames@)
                    &&& steps_distinct(reel.frames@)
                    &&& reel.frames@.len() == kept_count(paths@, range, paths@.len() as int)
                    &&& forall|j: int| 0 <= j < reel.frames@.len() ==> meta_matches_path(
                        #[trigger] reel.frames@[j],
                    ) && in_range(reel.frames@[j].step_int, range) && exists|k: int|
                        0 <= k < paths@.len() && reel.frames@[j].path@ == (#[trigger] paths@[k])@
                    &&& forall|k: int| 0 <= k < paths@.len() ==> ((spec_parse_meta(
                        (#[trigger] paths@[k])@,
                    ) matches Ok(pm) && in_range_int(pm.2, range)) ==> exists|j: int|
                        0 <= j < reel.frames@.len() && (#[trigger] reel.frames@[j]).path@
                            == paths@[k]@)
                },
                Err(_) => (exists|k: int|
                    0 <= k < paths@.len() && spec_parse_meta((#[trigger] paths@[k])@) is Err) || (
                exists|k1: int, k2: int|
                    0 <= k1 < paths@.len() && 0 <= k2 < paths@.len() && k1 != k2 && {
                        let r1 = spec_parse_meta((#[trigger] paths@[k1])@);
                        let r2 = spec_parse_meta((#[trigger] paths@[k2])@);
                        &&& r1 is Ok
                        &&& r2 is Ok
                        &&& in_range_int(r1->Ok_0.2, range)
                        &&& in_range_int(r2->Ok_0.2, range)
                        &&& r1->Ok_0.1 == r2->Ok_0.1
                    }),
            },
    {
        let mut frames: Vec<MetaFrame> = Vec::new();
        let ghost mut srcs: Seq<int> = Seq::empty();
        let mut idx: usize = 0;
        while idx < paths.len()
            invariant
                idx <= paths@.len(),
                frames_sorted(frames@),
                srcs.len() == frames@.len(),
                frames@.len() == kept_count(paths@, range, idx as int),
                forall|j: int| 0 <= j < srcs.len() ==> 0 <= #[trigger] srcs[j] < idx,
                forall|j1: int, j2: int| 0 <= j1 < j2 < srcs.len() ==> srcs[j1] != srcs[j2],
                forall|j: int| 0 <= j < frames@.len() ==> meta_matches_path(
                    #[trigger] frames@[j],
                ) && in_range(frames@[j].step_int, range) && frames@[j].path@
                    == paths@[srcs[j]]@,
                forall|k: int| 0 <= k < idx ==> ((spec_parse_meta(
                    (#[trigger] paths@[k])@,
                ) matches Ok(pm) && in_range_int(pm.2, range)) ==> exists|j: int|
                    0 <= j < srcs.len() && #[trigger] srcs[j] == k),
            decreases paths@.len() - idx,
        {
            let ghost gidx = idx as int;
            let m = match MetaFrame::try_from_path(paths[idx].as_str()) {
                Ok(m) => m,
                Err(e) => {
                    return Err(e);
                },
            };
            let keep = match range {
                Some((a, b)) => m.step_int >= a && m.step_int <= b,
                None => true,
            };
            proof {
                assert(keep == in_range_int(
                    spec_parse_meta(paths@[gidx]@)->Ok_0.2,
                    range,
                ));
            }
            if keep {
                let ghost pre = frames@;
                let ghost presrcs = srcs;
                let p = insert_sorted(&mut frames, m);
                proof {
                    let gp = p as int;
                    srcs = presrcs.insert(gp, gidx);
                    assert(frames@ == pre.insert(gp, m));
                    assert forall|j: int| 0 <= j < srcs.len() implies 0 <= #[trigger] srcs[j]
                        < gidx + 1 by {
                        if j < gp {
                            assert(srcs[j] == presrcs[j]);
                        } else if j == gp {
                            assert(srcs[j] == gidx);
                        } else {
                            assert(srcs[j] == presrcs[j - 1]);
                        }
                    }
                    assert forall|j1: int, j2: int| 0 <= j1 < j2 < srcs.len() implies srcs[j1]
                        != srcs[j2] by {
                        let a = if j1 < gp {
                            presrcs[j1]
                        } else if j1 == gp {
                            gidx
                        } else {
                            presrcs[j1 - 1]
                        };
                        assert(srcs[j1] == a);
                        let b = if j2 < gp {
                            presrcs[j2]
                        } else if j2 == gp {
                            gidx
                        } else {
                            presrcs[j2 - 1]
                        };
                        assert(srcs[j2] == b);
                    }
                    assert forall|j: int| 0 <= j < frames@.len() implies meta_matches_path(
                        #[trigger] frames@[j],
                    ) && in_range(frames@[j].step_int, range) && frames@[j].path@
                        == paths@[srcs[j]]@ by {
                        if j < gp {
                            assert(frames@[j] == pre[j]);
                            assert(srcs[j] == presrcs[j]);
                        } else if j == gp {
                            assert(frames@[j] == m);
                            assert(srcs[j] == gidx);
                        } else {
                            assert(frames@[j] == pre[j - 1]);
                            assert(srcs[j] == presrcs[j - 1]);
                        }
                    }
                    assert forall|k: int| 0 <= k < gidx + 1 implies ((spec_parse_meta(
                        (#[trigger] paths@[k])@,
                    ) matches Ok(pm) && in_range_int(pm.2, range)) ==> exists|j: int|
                        0 <= j < srcs.len() && #[trigger] srcs[j] == k) by {
                        if k == gidx {
                            assert(srcs[gp] == gidx);
                        } else if spec_parse_meta(paths@[k]@) matches Ok(pm) && in_range_int(
                            pm.2,
                            range,
                        ) {
                            let j0 = choose|j0: int|
                                0 <= j0 < presrcs.len() && #[trigger] presrcs[j0] == k;
                            if j0 < gp {
                                assert(srcs[j0] == k);
                            } else {
                                assert(srcs[j0 + 1] == k);
                            }
                        }
                    }
                }
            } else {
                proof {
                    assert forall|k: int| 0 <= k < gidx + 1 implies ((spec_parse_meta(
                        (#[trigger] paths@[k])@,
                    ) matches Ok(pm) && in_range_int(pm.2, range)) ==> exists|j: int|
                        0 <= j < srcs.len() && #[trigger] srcs[j] == k) by {}
                }
            }
            idx += 1;
        }
        let reel = Reel { dir: dir.to_owned(), frames };
        match reel.validate() {
            Ok(_) => {
                proof {
                    assert forall|j: int| 0 <= j < reel.frames@.len() implies meta_matches_path(
                        #[trigger] reel.frames@[j],
                    ) && in_range(reel.frames@[j].step_int, range) && exists|k: int|
                        0 <= k < paths@.len() && reel.frames@[j].path@ == (
                        #[trigger] paths@[k])@ by {
                        assert(reel.frames@[j].path@ == paths@[srcs[j]]@);
                    }
                    assert forall|k: int| 0 <= k < paths@.len() implies ((spec_parse_meta(
                        (#[trigger] paths@[k])@,
                    ) matches Ok(pm) && in_range_int(pm.2, range)) ==> exists|j: int|
                        0 <= j < reel.frames@.len() && (#[trigger] reel.frames@[j]).path@
                            == paths@[k]@) by {
                        if spec_parse_meta(paths@[k]@) matches Ok(pm) && in_range_int(
                            pm.2,
                            range,
                        ) {
                            let j0 = choose|j0: int|
                                0 <= j0 < srcs.len() && #[trigger] srcs[j0] == k;
                            assert(reel.frames@[j0].path@ == paths@[k]@);
                        }
                    }
                }
                Ok(reel)
            },
            Err(e) => {
                proof {
                    let (i, j) = choose|i: int, j: int|
                        0 <= i < j < reel.frames@.len() && (#[trigger] reel.frames@[i]).step@ == (
                        #[trigger] reel.frames@[j]).step@;
                    let k1 = srcs[i];
                    let k2 = srcs[j];
                    assert(k1 != k2);
                    assert(meta_matches_path(reel.frames@[i]));
                    assert(meta_matches_path(reel.frames@[j]));
                    assert(spec_parse_meta(paths@[k1]@)->Ok_0.1 == reel.frames@[i].step@);
                    assert(spec_parse_meta(paths@[k2]@)->Ok_0.1 == reel.frames@[j].step@);
                }
                Err(e)
            },
        }
    }

    /// Checks that no two frames share a sequence token; the offending pair
    /// is named.
    #[verifier::loop_isolation(false)]
    pub fn validate(&self) -> (r: Result<(), FrError>)
        ensures
            match r {
                Ok(_) => steps_distinct(self.frames@),
                Err(e) => !steps_distinct(self.frames@) && exists|i: int, j: int|
                    0 <= i < j < self.frames@.len() && (#[trigger] self.frames@[i]).step@ == (
                    #[trigger] self.frames@[j]).step@ && e@ == SpecErr::ReelParsef(
                        SEQUENCE_DUPE_ERR@,
                        spec_filename(self.frames@[i]) + " and "@ + spec_filename(
                            self.frames@[j],
                        ),
                    ),
            },
    {
        let n = self.frames.len();
        let mut i: usize = 0;
        while i < n
            invariant
                n == self.frames@.len(),
                i <= n,
                forall|a: int, b: int| 0 <= a < b < n && a < i ==> (
                #[trigger] self.frames@[a]).step@ != (#[trigger] self.frames@[b]).step@,
            decreases n - i,
        {
            let mut j: usize = i + 1;
            while j < n
                invariant
                    i < j <= n,
                    n == self.frames@.len(),
                    forall|b: int| i < b < j ==> (#[trigger] self.frames@[b]).step@
                        != self.frames@[i as int].step@,
                decreases n - j,
            {
                let si = chars_of(self.frames[i].step.as_str());
                let sj = chars_of(self.frames[j].step.as_str());
                if chars_eq(&si, &sj) {
                    let fi = self.frames[i].get_filename();
                    let fj = self.frames[j].get_filename();
                    let item = concat4(fi.as_str(), " and ", fj.as_str(), "");
                    proof {
                        reveal_strlit("");
                        assert(item@ =~= spec_filename(self.frames@[i as int]) + " and "@
                            + spec_filename(self.frames@[j as int]));
                    }
                    return Err(FrError::ReelParsef(SEQUENCE_DUPE_ERR, item));
                }
                j += 1;
            }
            i += 1;
        }
        Ok(())
    }

    /// The frames that expect a success, order kept.
    pub fn success_only(self) -> (r: Reel)
        requires
            frames_sorted(self.frames@),
        ensures
            r.dir@ == self.dir@,
            frames_sorted(r.frames@),
            forall|j: int| 0 <= j < r.frames@.len() ==> (#[trigger] r.frames@[j]).frame_type
                == FrameType::Success && exists|k: int|
                0 <= k < self.frames@.len() && self.frames@[k] == r.frames@[j],
    {
        let mut out: Vec<MetaFrame> = Vec::new();
        let mut i: usize = 0;
        while i < self.frames.len()
            invariant
                i <= self.frames@.len(),
                frames_sorted(self.frames@),
                forall|j: int| 0 <= j < out@.len() ==> (#[trigger] out@[j]).frame_type
                    == FrameType::Success && exists|k: int|
                    0 <= k < i && self.frames@[k] == out@[j],
                frames_sorted(out@),
            decreases self.frames@.len() - i,
        {
            if self.frames[i].is_success() {
                let ghost pre = out@;
                out.push(dup_meta(&self.frames[i]));
                proof {
                    assert(out@.last() == self.frames@[i as int]);
                    assert forall|a: int, b: int| 0 <= a < b < out@.len() implies !lex_lt(
                        (#[trigger] out@[b]).path@,
                        (#[trigger] out@[a]).path@,
                    ) by {
                        if b == out@.len() - 1 {
                            assert(out@[a] == pre[a]);
                            let k = choose|k: int| 0 <= k < i && self.frames@[k] == pre[a];
                            assert(!lex_lt(self.frames@[i as int].path@, self.frames@[k].path@));
                        } else {
                            assert(out@[a] == pre[a]);
                            assert(out@[b] == pre[b]);
                        }
                    }
                }
            }
            i += 1;
        }
        Reel { dir: self.dir, frames: out }
    }

    /// The reel's default cut file: `<dir>/<reel>.cut.json`, named after the
    /// first frame's reel.
    pub fn get_default_cut_path(&self) -> (r: String)
        requires
            self.frames@.len() > 0,
        ensures
            r@ == self.dir@ + "/"@ + self.frames@[0].reel_name@ + ".cut.json"@,
    {
        concat4(self.dir.as_str(), "/", self.frames[0].reel_name.as_str(), ".cut.json")
    }

    /// The glob pattern that finds a reel's frame files in a directory.
    pub fn get_frame_dir_glob(dir: &str, reel_name: &str) -> (r: String)
        ensures
            r@ == dir@ + "/"@ + reel_name@ + ".*.*.fr.json"@,
    {
        concat4(dir, "/", reel_name, ".*.*.fr.json")
    }
}

} // verus!
