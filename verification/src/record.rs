//! One record: the pure pieces of driving a whole reel — range and
//! component arguments, and take-artifact naming. The file loading and the
//! frame loop live with the caller.

use vstd::prelude::*;
use crate::error::FrError;
use crate::text::{chars_of, digits_val, is_digit, parse_u32, string_of_chars, subvec};

verus! {

broadcast use vstd::std_specs::vec::group_vec_axioms;

/// The first position of `c` in `s`, or the length.
pub open spec fn find_char(s: Seq<char>, c: char) -> int
    decreases s.len(),
{
    if s.len() == 0 {
        0
    } else if s[0] == c {
        0
    } else {
        1 + find_char(s.drop_first(), c)
    }
}

/// Finds the first position of `c` in `s`, or the length.
#[verifier::loop_isolation(false)]
fn find_char_exec(s: &Vec<char>, c: char) -> (p: usize)
    ensures
        p as int == find_char(s@, c),
        p <= s@.len(),
        p < s@.len() ==> s@[p as int] == c,
        forall|j: int| 0 <= j < p ==> s@[j] != c,
{
    proof {
        lemma_find_char(s@, c);
    }
    let mut p: usize = 0;
    while p < s.len()
        invariant
            p <= s@.len(),
            forall|j: int| 0 <= j < p ==> s@[j] != c,
        decreases s@.len() - p,
    {
        if s[p] == c {
            proof {
                lemma_find_char_positional(s@, c, p as int);
            }
            return p;
        }
        p += 1;
    }
    proof {
        lemma_find_char_absent(s@, c);
    }
    p
}

proof fn lemma_find_char(s: Seq<char>, c: char)
    ensures
        0 <= find_char(s, c) <= s.len(),
    decreases s.len(),
{
    if s.len() > 0 && s[0] != c {
        lemma_find_char(s.drop_first(), c);
    }
}

proof fn lemma_find_char_positional(s: Seq<char>, c: char, p: int)
    requires
        0 <= p < s.len(),
        forall|j: int| 0 <= j < p ==> s[j] != c,
        s[p] == c,
    ensures
        find_char(s, c) == p,
    decreases p,
{
    if p > 0 {
        let t = s.drop_first();
        assert forall|j: int| 0 <= j < p - 1 implies t[j] != c by {
            assert(t[j] == s[j + 1]);
        }
        assert(t[p - 1] == s[p]);
        lemma_find_char_positional(t, c, p - 1);
    }
}

proof fn lemma_find_char_absent(s: Seq<char>, c: char)
    requires
        forall|j: int| 0 <= j < s.len() ==> s[j] != c,
    ensures
        find_char(s, c) == s.len(),
    decreases s.len(),
{
    if s.len() > 0 {
        let t = s.drop_first();
        assert forall|j: int| 0 <= j < t.len() implies t[j] != c by {
            assert(t[j] == s[j + 1]);
        }
        lemma_find_char_absent(t, c);
    }
}

/// All characters are digits.
pub open spec fn all_digits(s: Seq<char>) -> bool {
    forall|j: int| 0 <= j < s.len() ==> is_digit(#[trigger] s[j])
}

/// The inclusive frame range a `<start>:<end>` argument declares: an empty
/// start means zero, an empty end means no upper bound; text without a colon
/// declares no range at all.
pub open spec fn spec_parse_range(s: Seq<char>) -> Result<Option<(u32, u32)>, bool> {
    let p = find_char(s, ':');
    if p >= s.len() {
        Ok(None)
    } else {
        let start = s.take(p);
        let end = s.skip(p + 1);
        if start.len() == 0 {
            if all_digits(end) && end.len() > 0 && digits_val(end) <= u32::MAX {
                Ok(Some((0, digits_val(end) as u32)))
            } else {
                Err(false)
            }
        } else if !(all_digits(start) && digits_val(start) <= u32::MAX) {
            Err(true)
        } else if end.len() == 0 {
            Ok(Some((digits_val(start) as u32, u32::MAX)))
        } else if all_digits(end) && digits_val(end) <= u32::MAX {
            Ok(Some((digits_val(start) as u32, digits_val(end) as u32)))
        } else {
            Err(false)
        }
    }
}

/// Reads a `<start>:<end>` range argument into an inclusive range of whole
/// sequence numbers.
pub fn parse_range(arg: &str) -> (r: Result<Option<(u32, u32)>, FrError>)
    ensures
        match r {
            Ok(range) => spec_parse_range(arg@) == Ok::<Option<(u32, u32)>, bool>(range),
            Err(_) => spec_parse_range(arg@) is Err,
        },
{
    let s = chars_of(arg);
    let p = find_char_exec(&s, ':');
    if p >= s.len() {
        return Ok(None);
    }
    let start = subvec(&s, 0, p);
    let end = subvec(&s, p + 1, s.len());
    proof {
        assert(start@ =~= s@.take(p as int));
        assert(end@ =~= s@.skip(p + 1));
    }
    if start.len() == 0 {
        match parse_u32(&end) {
            Some(e) => Ok(Some((0, e))),
            None => Err(FrError::Parse("end range parse error".to_owned())),
        }
    } else {
        let a = match parse_u32(&start) {
            Some(a) => a,
            None => {
                return Err(FrError::Parse("start range parse error".to_owned()));
            },
        };
        if end.len() == 0 {
            Ok(Some((a, u32::MAX)))
        } else {
            match parse_u32(&end) {
                Some(e) => Ok(Some((a, e))),
                None => Err(FrError::Parse("end range parse error".to_owned())),
            }
        }
    }
}

/// Splits a `<dir>&<reel_name>` component argument at its first ampersand.
pub fn component_parts(component: &str) -> (r: Option<(String, String)>)
    ensures
        match r {
            Some((d, n)) => find_char(component@, '&') < component@.len() && d@ == component@.take(
                find_char(component@, '&'),
            ) && n@ == component@.skip(find_char(component@, '&') + 1),
            None => find_char(component@, '&') == component@.len(),
        },
{
    let s = chars_of(component);
    let p = find_char_exec(&s, '&');
    if p >= s.len() {
        return None;
    }
    let d = subvec(&s, 0, p);
    let n = subvec(&s, p + 1, s.len());
    proof {
        assert(d@ =~= s@.take(p as int));
        assert(n@ =~= s@.skip(p + 1));
    }
    Some((string_of_chars(&d), string_of_chars(&n)))
}

/// The position after the last `.` of a filename, or zero.
pub open spec fn last_dot_end(f: Seq<char>) -> int
    decreases f.len(),
{
    if f.len() == 0 {
        0
    } else if f[f.len() - 1] == '.' {
        f.len() as int
    } else {
        last_dot_end(f.drop_last())
    }
}

/// The take-artifact path for a frame file: the frame's stem (its filename
/// without extension and without a trailing `.fr`) under the output
/// directory, with a `.tk.json` suffix.
pub open spec fn spec_take_output(dir: Seq<char>, file: Seq<char>) -> Seq<char> {
    let base = crate::reel::spec_basename(file);
    let no_ext = if last_dot_end(base) > 0 {
        base.take(last_dot_end(base) - 1)
    } else {
        base
    };
    let stem = if no_ext.len() >= 3 && no_ext.subrange(no_ext.len() - 3, no_ext.len() as int)
        == ".fr"@ {
        no_ext.take(no_ext.len() - 3)
    } else {
        no_ext
    };
    dir + "/"@ + stem + ".tk.json"@
}

/// Builds the take-artifact path for a frame file under an output directory.
#[verifier::loop_isolation(false)]
pub fn take_output(dir: &str, file: &str) -> (r: String)
    ensures
        r@ == spec_take_output(dir@, file@),
{
    let f = chars_of(file);
    let ghost gf = f@;
    let mut b: usize = f.len();
    proof {
        assert(gf.take(gf.len() as int) =~= gf);
    }
    while b > 0 && f[b - 1] != '/'
        invariant
            b <= f@.len(),
            crate::reel::basename_start(gf) == crate::reel::basename_start(gf.take(b as int)),
        decreases b,
    {
        proof {
            assert(gf.take(b as int).drop_last() =~= gf.take(b - 1));
            assert(gf.take(b as int).last() == gf[b - 1]);
        }
        b -= 1;
    }
    proof {
        if b > 0 {
            assert(gf.take(b as int).last() == gf[b - 1]);
            assert(crate::reel::basename_start(gf.take(b as int)) == gf.take(b as int).len());
        }
        assert(crate::reel::basename_start(gf.take(b as int)) == b);
    }
    let base = subvec(&f, b, f.len());
    proof {
        assert(base@ =~= crate::reel::spec_basename(gf));
    }
    let mut d: usize = base.len();
    let ghost gb = base@;
    proof {
        assert(gb.take(gb.len() as int) =~= gb);
    }
    while d > 0 && base[d - 1] != '.'
        invariant
            d <= base@.len(),
            last_dot_end(gb) == last_dot_end(gb.take(d as int)),
        decreases d,
    {
        proof {
            assert(gb.take(d as int).drop_last() =~= gb.take(d - 1));
            assert(gb.take(d as int).last() == gb[d - 1]);
        }
        d -= 1;
    }
    proof {
        if d > 0 {
            assert(gb.take(d as int).last() == gb[d - 1]);
            assert(last_dot_end(gb.take(d as int)) == gb.take(d as int).len());
        }
        assert(last_dot_end(gb.take(d as int)) == d);
    }
    let no_ext = if d > 0 {
        subvec(&base, 0, d - 1)
    } else {
        base
    };
    proof {
        if d > 0 {
            assert(no_ext@ =~= gb.take(d - 1));
        }
    }
    proof {
        reveal_strlit(".fr");
        assert(".fr"@.len() == 3);
    }
    let stem = if no_ext.len() >= 3 && crate::text::sub_at(&no_ext, no_ext.len() - 3, &chars_of(".fr")) {
        let r = subvec(&no_ext, 0, no_ext.len() - 3);
        proof {
            assert(r@ =~= no_ext@.take(no_ext@.len() - 3));
        }
        r
    } else {
        no_ext
    };
    let out = crate::error::concat4(dir, "/", string_of_chars(&stem).as_str(), ".tk.json");
    proof {
        assert(out@ =~= spec_take_output(dir@, gf));
    }
    out
}

} // verus!
