//! Character-sequence utilities shared by the template, selector and codec
//! modules. All engine logic works on `Vec<char>` so that contracts can be
//! stated over `Seq<char>`.

use vstd::prelude::*;

verus! {

broadcast use vstd::std_specs::vec::group_vec_axioms;

/// Relies on str::chars (std): iterating a string slice yields exactly its
/// characters, in order.
#[verifier::external_body]
pub fn chars_of(s: &str) -> (r: Vec<char>)
    ensures
        r@ == s@,
{
    s.chars().collect()
}

/// Relies on String's FromIterator<char> (std): collecting characters yields
/// the string with exactly those characters, in order.
#[verifier::external_body]
pub fn string_of_chars(v: &Vec<char>) -> (r: String)
    ensures
        r@ == v@,
{
    v.iter().collect()
}

/// Strict lexicographic order on character sequences, by code point.
pub open spec fn lex_lt(a: Seq<char>, b: Seq<char>) -> bool
    decreases a.len(),
{
    if b.len() == 0 {
        false
    } else if a.len() == 0 {
        true
    } else if a[0] < b[0] {
        true
    } else if a[0] != b[0] {
        false
    } else {
        lex_lt(a.drop_first(), b.drop_first())
    }
}

proof fn lemma_skip_succ(s: Seq<char>, i: int)
    requires
        0 <= i < s.len(),
    ensures
        s.skip(i).drop_first() == s.skip(i + 1),
{
    assert(s.skip(i).drop_first() =~= s.skip(i + 1));
}

fn lex_lt_from(a: &Vec<char>, b: &Vec<char>, i: usize) -> (r: bool)
    requires
        i <= a.len(),
        i <= b.len(),
    ensures
        r == lex_lt(a@.skip(i as int), b@.skip(i as int)),
    decreases a.len() - i,
{
    if i == b.len() {
        false
    } else if i == a.len() {
        true
    } else {
        let ca = a[i];
        let cb = b[i];
        proof {
            lemma_skip_succ(a@, i as int);
            lemma_skip_succ(b@, i as int);
        }
        if ca < cb {
            true
        } else if ca != cb {
            false
        } else {
            lex_lt_from(a, b, i + 1)
        }
    }
}

/// Decides `lex_lt` on two character vectors.
pub fn chars_lt(a: &Vec<char>, b: &Vec<char>) -> (r: bool)
    ensures
        r == lex_lt(a@, b@),
{
    proof {
        assert(a@.skip(0) =~= a@);
        assert(b@.skip(0) =~= b@);
    }
    lex_lt_from(a, b, 0)
}

/// Decides sequence equality on two character vectors.
pub fn chars_eq(a: &Vec<char>, b: &Vec<char>) -> (r: bool)
    ensures
        r == (a@ == b@),
{
    if a.len() != b.len() {
        assert(a@ != b@) by {
            assert(a@.len() != b@.len());
        }
        return false;
    }
    let mut i: usize = 0;
    while i < a.len()
        invariant
            i <= a.len(),
            a@.len() == b@.len(),
            forall|j: int| 0 <= j < i ==> a@[j] == b@[j],
        decreases a.len() - i,
    {
        if a[i] != b[i] {
            return false;
        }
        i += 1;
    }
    proof {
        assert(a@ =~= b@);
    }
    true
}

pub proof fn lemma_lex_lt_irrefl(a: Seq<char>)
    ensures
        !lex_lt(a, a),
    decreases a.len(),
{
    if a.len() > 0 {
        lemma_lex_lt_irrefl(a.drop_first());
    }
}

pub proof fn lemma_lex_lt_trans(a: Seq<char>, b: Seq<char>, c: Seq<char>)
    requires
        lex_lt(a, b),
        lex_lt(b, c),
    ensures
        lex_lt(a, c),
    decreases a.len(),
{
    if a.len() > 0 && b.len() > 0 && c.len() > 0 {
        if a[0] == b[0] && b[0] == c[0] {
            lemma_lex_lt_trans(a.drop_first(), b.drop_first(), c.drop_first());
        }
    }
}

pub proof fn lemma_lex_lt_asym(a: Seq<char>, b: Seq<char>)
    requires
        lex_lt(a, b),
    ensures
        !lex_lt(b, a),
{
    if lex_lt(b, a) {
        lemma_lex_lt_trans(a, b, a);
        lemma_lex_lt_irrefl(a);
    }
}

pub proof fn lemma_lex_lt_connected(a: Seq<char>, b: Seq<char>)
    requires
        !lex_lt(a, b),
        !lex_lt(b, a),
    ensures
        a == b,
    decreases a.len(),
{
    if a.len() == 0 || b.len() == 0 {
        assert(a =~= b);
    } else {
        assert(!(a[0] < b[0]) && !(b[0] < a[0]));
        assert(a[0] == b[0]);
        lemma_lex_lt_connected(a.drop_first(), b.drop_first());
        assert forall|i: int| 0 <= i < a.len() implies a[i] == b[i] by {
            if i > 0 {
                assert(a[i] == a.drop_first()[i - 1]);
                assert(b[i] == b.drop_first()[i - 1]);
            }
        }
        assert(a =~= b);
    }
}

/// True when `c` is an ASCII decimal digit.
pub open spec fn is_digit(c: char) -> bool {
    '0' as u32 <= c as u32 && c as u32 <= '9' as u32
}

/// The numeric value of a sequence of decimal digits.
pub open spec fn digits_val(s: Seq<char>) -> nat
    decreases s.len(),
{
    if s.len() == 0 {
        0
    } else {
        digits_val(s.drop_last()) * 10 + (if is_digit(s.last()) {
            (s.last() as u32 - '0' as u32) as nat
        } else {
            0
        })
    }
}

/// Parses a digit vector into a `u32`, rejecting empty input and overflow.
pub fn parse_u32(s: &Vec<char>) -> (r: Option<u32>)
    ensures
        match r {
            Some(n) => s@.len() > 0 && (forall|j: int| 0 <= j < s@.len() ==> is_digit(s@[j]))
                && n == digits_val(s@),
            None => s@.len() == 0 || (exists|j: int| 0 <= j < s@.len() && !is_digit(s@[j]))
                || digits_val(s@) > u32::MAX,
        },
{
    if s.len() == 0 {
        return None;
    }
    let mut acc: u32 = 0;
    let mut i: usize = 0;
    while i < s.len()
        invariant
            i <= s.len(),
            forall|j: int| 0 <= j < i ==> is_digit(s@[j]),
            acc == digits_val(s@.take(i as int)),
        decreases s.len() - i,
    {
        let c = s[i];
        let cu = c as u32;
        if cu < '0' as u32 || cu > '9' as u32 {
            assert(!is_digit(s@[i as int]));
            return None;
        }
        let d: u32 = cu - '0' as u32;
        if acc > (u32::MAX - d) / 10 {
            proof {
                lemma_digits_val_extend(s@, i as int);
                lemma_digits_val_prefix_le(s@, i + 1);
            }
            return None;
        }
        proof {
            lemma_digits_val_extend(s@, i as int);
        }
        acc = acc * 10 + d;
        i += 1;
    }
    proof {
        assert(s@.take(s@.len() as int) =~= s@);
    }
    Some(acc)
}

pub proof fn lemma_digits_val_extend(s: Seq<char>, i: int)
    requires
        0 <= i < s.len(),
    ensures
        digits_val(s.take(i + 1)) == digits_val(s.take(i)) * 10 + (if is_digit(s[i]) {
            (s[i] as u32 - '0' as u32) as nat
        } else {
            0
        }),
{
    assert(s.take(i + 1).drop_last() =~= s.take(i));
    assert(s.take(i + 1).last() == s[i]);
}

pub proof fn lemma_digits_val_prefix_le(s: Seq<char>, i: int)
    requires
        0 <= i <= s.len(),
    ensures
        digits_val(s.take(i)) <= digits_val(s),
    decreases s.len() - i,
{
    if i < s.len() {
        lemma_digits_val_extend(s, i);
        lemma_digits_val_prefix_le(s, i + 1);
    } else {
        assert(s.take(i) =~= s);
    }
}

/// `p` occurs in `s` at position `i`.
pub open spec fn is_sub_at(s: Seq<char>, i: int, p: Seq<char>) -> bool {
    0 <= i && i + p.len() <= s.len() && s.subrange(i, i + p.len()) == p
}

/// `p` occurs somewhere in `s`.
pub open spec fn has_sub(s: Seq<char>, p: Seq<char>) -> bool {
    exists|i: int| is_sub_at(s, i, p)
}

/// Decides whether `p` occurs in `s` at position `i`.
#[verifier::loop_isolation(false)]
pub fn sub_at(s: &Vec<char>, i: usize, p: &Vec<char>) -> (r: bool)
    ensures
        r == is_sub_at(s@, i as int, p@),
{
    if i > s.len() || p.len() > s.len() - i {
        assert(!is_sub_at(s@, i as int, p@));
        return false;
    }
    let mut j: usize = 0;
    while j < p.len()
        invariant
            j <= p@.len(),
            i + p@.len() <= s@.len(),
            forall|n: int| 0 <= n < j ==> s@[i + n] == p@[n],
        decreases p@.len() - j,
    {
        if s[i + j] != p[j] {
            assert(s@.subrange(i as int, i + p@.len())[j as int] != p@[j as int]);
            return false;
        }
        j += 1;
    }
    proof {
        assert(s@.subrange(i as int, i + p@.len()) =~= p@);
    }
    true
}

/// Decides whether `p` occurs anywhere in `s`.
#[verifier::loop_isolation(false)]
pub fn contains_sub(s: &Vec<char>, p: &Vec<char>) -> (r: bool)
    ensures
        r == has_sub(s@, p@),
{
    if p.len() > s.len() {
        assert forall|i: int| !is_sub_at(s@, i, p@) by {}
        return false;
    }
    let last: usize = s.len() - p.len();
    let mut i: usize = 0;
    loop
        invariant
            i <= last,
            last == s@.len() - p@.len(),
            forall|n: int| 0 <= n < i ==> !is_sub_at(s@, n, p@),
        decreases last - i,
    {
        if sub_at(s, i, p) {
            return true;
        }
        if i == last {
            assert forall|n: int| !is_sub_at(s@, n, p@) by {
                if 0 <= n <= last {
                    assert(!is_sub_at(s@, n, p@));
                }
            }
            return false;
        }
        i += 1;
    }
}

/// The last position (scanning down from `i`) where `p` occurs in `s`.
pub open spec fn find_last_from(s: Seq<char>, p: Seq<char>, i: int) -> int
    decreases i + 1,
{
    if i < 0 {
        -1
    } else if is_sub_at(s, i, p) {
        i
    } else {
        find_last_from(s, p, i - 1)
    }
}

/// The last position where `p` occurs in `s`, or `-1`.
pub open spec fn find_last(s: Seq<char>, p: Seq<char>) -> int {
    find_last_from(s, p, s.len() - p.len())
}

/// Finds the last occurrence of `p` in `s`.
#[verifier::loop_isolation(false)]
pub fn find_last_sub(s: &Vec<char>, p: &Vec<char>) -> (r: Option<usize>)
    ensures
        match r {
            Some(i) => find_last(s@, p@) == i as int,
            None => find_last(s@, p@) == -1,
        },
{
    if p.len() > s.len() {
        proof {
            lemma_find_last_neg(s@, p@, s@.len() - p@.len());
        }
        return None;
    }
    let mut i: usize = s.len() - p.len();
    loop
        invariant
            i <= s@.len() - p@.len(),
            p@.len() <= s@.len(),
            find_last(s@, p@) == find_last_from(s@, p@, i as int),
        decreases i,
    {
        if sub_at(s, i, p) {
            return Some(i);
        }
        if i == 0 {
            proof {
                lemma_find_last_neg(s@, p@, -1);
                assert(find_last_from(s@, p@, 0) == -1);
            }
            return None;
        }
        i -= 1;
    }
}

proof fn lemma_find_last_neg(s: Seq<char>, p: Seq<char>, i: int)
    requires
        i < 0,
    ensures
        find_last_from(s, p, i) == -1,
{
}

/// A non-negative result of `find_last_from` is an occurrence position.
pub proof fn lemma_find_last_is_sub(s: Seq<char>, p: Seq<char>, i: int)
    requires
        find_last_from(s, p, i) >= 0,
    ensures
        is_sub_at(s, find_last_from(s, p, i), p),
        find_last_from(s, p, i) <= i,
    decreases i + 1,
{
    if i >= 0 && !is_sub_at(s, i, p) {
        lemma_find_last_is_sub(s, p, i - 1);
    }
}

/// `t` with the range `[a, b)` replaced by `r`.
pub open spec fn spec_splice(t: Seq<char>, a: int, b: int, r: Seq<char>) -> Seq<char> {
    t.subrange(0, a) + r + t.subrange(b, t.len() as int)
}

/// Replaces the range `[a, b)` of `t` with `r`.
pub fn splice_chars(t: &Vec<char>, a: usize, b: usize, r: &Vec<char>) -> (out: Vec<char>)
    requires
        a <= b <= t@.len(),
    ensures
        out@ == spec_splice(t@, a as int, b as int, r@),
{
    let mut out: Vec<char> = Vec::new();
    let mut i: usize = 0;
    while i < a
        invariant
            i <= a,
            a <= b <= t@.len(),
            out@ =~= t@.subrange(0, i as int),
        decreases a - i,
    {
        out.push(t[i]);
        proof {
            assert(out@ =~= t@.subrange(0, i + 1));
        }
        i += 1;
    }
    let mut j: usize = 0;
    while j < r.len()
        invariant
            j <= r@.len(),
            a <= b <= t@.len(),
            out@ =~= t@.subrange(0, a as int) + r@.subrange(0, j as int),
        decreases r@.len() - j,
    {
        out.push(r[j]);
        proof {
            assert(out@ =~= t@.subrange(0, a as int) + r@.subrange(0, j + 1));
        }
        j += 1;
    }
    proof {
        assert(r@.subrange(0, r@.len() as int) =~= r@);
    }
    let mut k: usize = b;
    while k < t.len()
        invariant
            b <= k <= t@.len(),
            out@ =~= t@.subrange(0, a as int) + r@ + t@.subrange(b as int, k as int),
        decreases t@.len() - k,
    {
        out.push(t[k]);
        proof {
            assert(out@ =~= t@.subrange(0, a as int) + r@ + t@.subrange(b as int, k + 1));
        }
        k += 1;
    }
    out
}

/// Copies the range `[a, b)` of `s`.
pub fn subvec(s: &Vec<char>, a: usize, b: usize) -> (out: Vec<char>)
    requires
        a <= b <= s@.len(),
    ensures
        out@ == s@.subrange(a as int, b as int),
{
    let mut out: Vec<char> = Vec::new();
    let mut i: usize = a;
    while i < b
        invariant
            a <= i <= b <= s@.len(),
            out@ =~= s@.subrange(a as int, i as int),
        decreases b - i,
    {
        out.push(s[i]);
        proof {
            assert(out@ =~= s@.subrange(a as int, i + 1));
        }
        i += 1;
    }
    out
}


/// The decimal digits of `n`, most significant first.
pub open spec fn spec_u32_dec(n: nat) -> Seq<char>
    decreases n,
{
    if n < 10 {
        seq![(48 + n) as char]
    } else {
        spec_u32_dec(n / 10).push((48 + n % 10) as char)
    }
}

/// Writes `n` in decimal.
pub fn u32_to_dec(n: u32) -> (r: Vec<char>)
    ensures
        r@ == spec_u32_dec(n as nat),
        r@.len() > 0,
    decreases n,
{
    if n < 10 {
        let mut out: Vec<char> = Vec::new();
        let d: u8 = 48 + (n as u8);
        out.push(d as char);
        proof {
            assert(out@ =~= seq![(48 + n) as char]);
        }
        out
    } else {
        let mut out = u32_to_dec(n / 10);
        let d: u8 = 48 + ((n % 10) as u8);
        out.push(d as char);
        out
    }
}

} // verus!

