//! The engine's own JSON document model. Strings and number tokens are kept
//! as character vectors; objects are entry lists sorted strictly by key, so a
//! document has exactly one representation and equality is structural.

use vstd::prelude::*;
use crate::text::{chars_eq, chars_lt, chars_of, lex_lt, lemma_lex_lt_connected, lemma_lex_lt_irrefl, lemma_lex_lt_trans, is_digit};

verus! {

broadcast use vstd::std_specs::vec::group_vec_axioms;

/// Mathematical model of a JSON document.
#[verifier::ext_equal]
pub enum SpecVal {
    Null,
    Bool(bool),
    Num(Seq<char>),
    Str(Seq<char>),
    Arr(Seq<SpecVal>),
    Obj(Seq<(Seq<char>, SpecVal)>),
}

/// A JSON document. Numbers are kept as their source token so that no
/// precision is lost and serialization reproduces the input exactly.
#[derive(Debug)]
pub enum JsonVal {
    Null,
    Bool(bool),
    Num(Vec<char>),
    Str(Vec<char>),
    Arr(Vec<JsonVal>),
    Obj(Vec<(Vec<char>, JsonVal)>),
}

/// The model of an exec array element list.
pub open spec fn arr_view(a: Seq<JsonVal>) -> Seq<SpecVal> {
    Seq::new(a.len(), |i: int| if 0 <= i < a.len() { a[i].view_rec() } else { SpecVal::Null })
}

/// The model of an exec object entry list.
pub open spec fn entries_view(es: Seq<(Vec<char>, JsonVal)>) -> Seq<(Seq<char>, SpecVal)> {
    Seq::new(
        es.len(),
        |i: int| if 0 <= i < es.len() { (es[i].0@, es[i].1.view_rec()) } else { (Seq::empty(), SpecVal::Null) },
    )
}

impl JsonVal {
    pub open spec fn view_rec(self) -> SpecVal
        decreases self,
    {
        match self {
            JsonVal::Null => SpecVal::Null,
            JsonVal::Bool(b) => SpecVal::Bool(b),
            JsonVal::Num(t) => SpecVal::Num(t@),
            JsonVal::Str(s) => SpecVal::Str(s@),
            JsonVal::Arr(a) => SpecVal::Arr(
                Seq::new(a@.len(), |i: int| if 0 <= i < a@.len() { a@[i].view_rec() } else { SpecVal::Null }),
            ),
            JsonVal::Obj(o) => SpecVal::Obj(
                Seq::new(
                    o@.len(),
                    |i: int| if 0 <= i < o@.len() { (o@[i].0@, o@[i].1.view_rec()) } else { (Seq::empty(), SpecVal::Null) },
                ),
            ),
        }
    }
}

impl View for JsonVal {
    type V = SpecVal;

    open spec fn view(&self) -> SpecVal {
        self.view_rec()
    }
}

/// The views of an array node and of its element list coincide.
pub broadcast proof fn lemma_arr_node_view(a: Vec<JsonVal>)
    ensures
        (#[trigger] JsonVal::Arr(a).view_rec()) == SpecVal::Arr(arr_view(a@)),
{
    assert(JsonVal::Arr(a).view_rec()->Arr_0 =~= arr_view(a@));
}

/// The views of an object node and of its entry list coincide.
pub broadcast proof fn lemma_obj_node_view(o: Vec<(Vec<char>, JsonVal)>)
    ensures
        (#[trigger] JsonVal::Obj(o).view_rec()) == SpecVal::Obj(entries_view(o@)),
{
    assert(JsonVal::Obj(o).view_rec()->Obj_0 =~= entries_view(o@));
}

/// Characters that may occur in a number token.
pub open spec fn is_num_char(c: char) -> bool {
    is_digit(c) || c == '-' || c == '+' || c == '.' || c == 'e' || c == 'E'
}

/// A usable number token: non-empty, made of number characters, and opening
/// with a digit or a minus sign, so a scanner recognizes where it starts.
pub open spec fn num_token_wf(t: Seq<char>) -> bool {
    &&& t.len() > 0
    &&& (is_digit(t[0]) || t[0] == '-')
    &&& forall|i: int| 0 <= i < t.len() ==> is_num_char(#[trigger] t[i])
}

/// Object entries sorted strictly ascending by key: keys are unique and the
/// document has a single canonical layout.
pub open spec fn entries_sorted(es: Seq<(Seq<char>, SpecVal)>) -> bool {
    forall|i: int, j: int| 0 <= i < j < es.len() ==> lex_lt(es[i].0, es[j].0)
}

/// Well-formedness of a document: number tokens usable, every object sorted.
pub open spec fn wf(v: SpecVal) -> bool
    decreases v,
{
    match v {
        SpecVal::Null => true,
        SpecVal::Bool(_) => true,
        SpecVal::Num(t) => num_token_wf(t),
        SpecVal::Str(_) => true,
        SpecVal::Arr(a) => forall|i: int| 0 <= i < a.len() ==> wf(#[trigger] a[i]),
        SpecVal::Obj(es) => entries_sorted(es) && forall|i: int|
            0 <= i < es.len() ==> wf(#[trigger] es[i].1),
    }
}

/// Looks a key up in an object entry sequence.
pub open spec fn spec_obj_get(es: Seq<(Seq<char>, SpecVal)>, k: Seq<char>) -> Option<SpecVal>
    decreases es.len(),
{
    if es.len() == 0 {
        None
    } else if es[0].0 == k {
        Some(es[0].1)
    } else {
        spec_obj_get(es.drop_first(), k)
    }
}

/// Inserts or replaces a key in a sorted entry sequence, keeping order.
pub open spec fn spec_obj_insert(
    es: Seq<(Seq<char>, SpecVal)>,
    k: Seq<char>,
    v: SpecVal,
) -> Seq<(Seq<char>, SpecVal)>
    decreases es.len(),
{
    if es.len() == 0 {
        seq![(k, v)]
    } else if lex_lt(k, es[0].0) {
        seq![(k, v)] + es
    } else if es[0].0 == k {
        seq![(k, v)] + es.drop_first()
    } else {
        seq![es[0]] + spec_obj_insert(es.drop_first(), k, v)
    }
}

/// Removes a key from an entry sequence (no change when absent).
pub open spec fn spec_obj_remove(
    es: Seq<(Seq<char>, SpecVal)>,
    k: Seq<char>,
) -> Seq<(Seq<char>, SpecVal)>
    decreases es.len(),
{
    if es.len() == 0 {
        es
    } else if es[0].0 == k {
        es.drop_first()
    } else {
        seq![es[0]] + spec_obj_remove(es.drop_first(), k)
    }
}

impl JsonVal {
    /// Builds a string value from a string slice.
    pub fn string(s: &str) -> (r: JsonVal)
        ensures
            r@ == SpecVal::Str(s@),
    {
        JsonVal::Str(chars_of(s))
    }

    /// Structural deep equality, decided recursively.
    #[verifier::loop_isolation(false)]
    pub fn deep_eq(&self, other: &JsonVal) -> (r: bool)
        ensures
            r == (self@ == other@),
        decreases *self,
    {
        broadcast use lemma_arr_node_view, lemma_obj_node_view;

        match (self, other) {
            (JsonVal::Null, JsonVal::Null) => true,
            (JsonVal::Bool(a), JsonVal::Bool(b)) => a == b,
            (JsonVal::Num(a), JsonVal::Num(b)) => chars_eq(a, b),
            (JsonVal::Str(a), JsonVal::Str(b)) => chars_eq(a, b),
            (JsonVal::Arr(a), JsonVal::Arr(b)) => {
                proof {
                    lemma_arr_node_view(*a);
                    lemma_arr_node_view(*b);
                    assert(self@ == SpecVal::Arr(arr_view(a@)));
                    assert(other@ == SpecVal::Arr(arr_view(b@)));
                }
                if a.len() != b.len() {
                    assert(arr_view(a@).len() != arr_view(b@).len());
                    return false;
                }
                let mut i: usize = 0;
                while i < a.len()
                    invariant
                        i <= a@.len(),
                        a@.len() == b@.len(),
                        forall|j: int| 0 <= j < i ==> arr_view(a@)[j] == arr_view(b@)[j],
                    decreases a@.len() - i,
                {
                    if !a[i].deep_eq(&b[i]) {
                        assert(arr_view(a@)[i as int] != arr_view(b@)[i as int]);
                        return false;
                    }
                    i += 1;
                }
                proof {
                    assert(arr_view(a@) =~= arr_view(b@));
                }
                true
            },
            (JsonVal::Obj(a), JsonVal::Obj(b)) => {
                proof {
                    lemma_obj_node_view(*a);
                    lemma_obj_node_view(*b);
                    assert(self@ == SpecVal::Obj(entries_view(a@)));
                    assert(other@ == SpecVal::Obj(entries_view(b@)));
                }
                if a.len() != b.len() {
                    assert(entries_view(a@).len() != entries_view(b@).len());
                    return false;
                }
                let mut i: usize = 0;
                while i < a.len()
                    invariant
                        i <= a@.len(),
                        a@.len() == b@.len(),
                        forall|j: int| 0 <= j < i ==> entries_view(a@)[j] == entries_view(b@)[j],
                    decreases a@.len() - i,
                {
                    let key_same = chars_eq(&a[i].0, &b[i].0);
                    let val_same = a[i].1.deep_eq(&b[i].1);
                    if !key_same || !val_same {
                        assert(entries_view(a@)[i as int] != entries_view(b@)[i as int]);
                        return false;
                    }
                    i += 1;
                }
                proof {
                    assert(entries_view(a@) =~= entries_view(b@));
                }
                true
            },
            _ => {
                assert(self@ != other@);
                false
            },
        }
    }

    /// Recursive copy whose model equals the original's.
    #[verifier::loop_isolation(false)]
    pub fn duplicate(&self) -> (r: JsonVal)
        ensures
            r@ == self@,
        decreases *self,
    {
        broadcast use lemma_arr_node_view, lemma_obj_node_view;

        match self {
            JsonVal::Null => JsonVal::Null,
            JsonVal::Bool(b) => JsonVal::Bool(*b),
            JsonVal::Num(t) => JsonVal::Num(t.clone()),
            JsonVal::Str(s) => JsonVal::Str(s.clone()),
            JsonVal::Arr(a) => {
                proof {
                    lemma_arr_node_view(*a);
                }
                let mut out: Vec<JsonVal> = Vec::new();
                let mut i: usize = 0;
                while i < a.len()
                    invariant
                        i <= a@.len(),
                        out@.len() == i,
                        forall|j: int| 0 <= j < i ==> arr_view(out@)[j] == arr_view(a@)[j],
                    decreases a@.len() - i,
                {
                    out.push(a[i].duplicate());
                    i += 1;
                }
                let r = JsonVal::Arr(out);
                proof {
                    assert(arr_view(out@) =~= arr_view(a@));
                    assert(r@ == self@);
                }
                r
            },
            JsonVal::Obj(o) => {
                proof {
                    lemma_obj_node_view(*o);
                }
                let mut out: Vec<(Vec<char>, JsonVal)> = Vec::new();
                let mut i: usize = 0;
                while i < o.len()
                    invariant
                        i <= o@.len(),
                        out@.len() == i,
                        forall|j: int| 0 <= j < i ==> entries_view(out@)[j] == entries_view(o@)[j],
                    decreases o@.len() - i,
                {
                    out.push((o[i].0.clone(), o[i].1.duplicate()));
                    i += 1;
                }
                let r = JsonVal::Obj(out);
                proof {
                    assert(entries_view(out@) =~= entries_view(o@));
                    assert(r@ == self@);
                }
                r
            },
        }
    }
}

impl Clone for JsonVal {
    fn clone(&self) -> (r: JsonVal)
        ensures
            r@ == self@,
    {
        self.duplicate()
    }
}

/// Copies an element list; the copy's model equals the original's.
pub fn dup_elems(a: &Vec<JsonVal>) -> (r: Vec<JsonVal>)
    ensures
        r@.len() == a@.len(),
        arr_view(r@) == arr_view(a@),
{
    let mut out: Vec<JsonVal> = Vec::new();
    let mut i: usize = 0;
    while i < a.len()
        invariant
            i <= a@.len(),
            out@.len() == i,
            forall|j: int| 0 <= j < i ==> arr_view(out@)[j] == arr_view(a@)[j],
        decreases a@.len() - i,
    {
        out.push(a[i].duplicate());
        i += 1;
    }
    proof {
        assert(arr_view(out@) =~= arr_view(a@));
    }
    out
}

/// Copies an entry list; the copy's model equals the original's.
pub fn dup_entries(es: &Vec<(Vec<char>, JsonVal)>) -> (r: Vec<(Vec<char>, JsonVal)>)
    ensures
        r@.len() == es@.len(),
        entries_view(r@) == entries_view(es@),
{
    let mut out: Vec<(Vec<char>, JsonVal)> = Vec::new();
    let mut i: usize = 0;
    while i < es.len()
        invariant
            i <= es@.len(),
            out@.len() == i,
            forall|j: int| 0 <= j < i ==> entries_view(out@)[j] == entries_view(es@)[j],
        decreases es@.len() - i,
    {
        out.push((es[i].0.clone(), es[i].1.duplicate()));
        i += 1;
    }
    proof {
        assert(entries_view(out@) =~= entries_view(es@));
    }
    out
}

/// Looks up `k` among object entries.
pub fn obj_get<'a>(es: &'a Vec<(Vec<char>, JsonVal)>, k: &Vec<char>) -> (r: Option<&'a JsonVal>)
    ensures
        match r {
            Some(v) => spec_obj_get(entries_view(es@), k@) == Some(v@),
            None => spec_obj_get(entries_view(es@), k@) is None,
        },
{
    let ghost ges = entries_view(es@);
    proof {
        assert(ges.skip(0) =~= ges);
    }
    let mut i: usize = 0;
    while i < es.len()
        invariant
            i <= es@.len(),
            ges == entries_view(es@),
            spec_obj_get(ges, k@) == spec_obj_get(ges.skip(i as int), k@),
        decreases es@.len() - i,
    {
        proof {
            lemma_obj_get_skip(ges, k@, i as int);
        }
        if chars_eq(&es[i].0, k) {
            assert(ges.skip(i as int)[0] == (es@[i as int].0@, es@[i as int].1@));
            return Some(&es[i].1);
        }
        i += 1;
    }
    proof {
        assert(ges.skip(es@.len() as int) =~= Seq::<(Seq<char>, SpecVal)>::empty());
    }
    None
}

proof fn lemma_obj_get_skip(es: Seq<(Seq<char>, SpecVal)>, k: Seq<char>, i: int)
    requires
        0 <= i < es.len(),
    ensures
        spec_obj_get(es.skip(i), k) == if es[i].0 == k {
            Some(es[i].1)
        } else {
            spec_obj_get(es.skip(i + 1), k)
        },
{
    assert(es.skip(i)[0] == es[i]);
    assert(es.skip(i).drop_first() =~= es.skip(i + 1));
}

/// `spec_obj_get` on a cons cell inspects the head, then the tail.
pub proof fn lemma_get_cons(e: (Seq<char>, SpecVal), s: Seq<(Seq<char>, SpecVal)>, k: Seq<char>)
    ensures
        spec_obj_get(seq![e] + s, k) == if e.0 == k {
            Some(e.1)
        } else {
            spec_obj_get(s, k)
        },
{
    assert((seq![e] + s)[0] == e);
    assert((seq![e] + s).drop_first() =~= s);
}

/// A key absent from every entry is not found.
pub proof fn lemma_get_absent(es: Seq<(Seq<char>, SpecVal)>, k: Seq<char>)
    requires
        forall|i: int| 0 <= i < es.len() ==> es[i].0 != k,
    ensures
        spec_obj_get(es, k) is None,
    decreases es.len(),
{
    if es.len() > 0 {
        lemma_get_absent(es.drop_first(), k);
    }
}

/// Lookup after insert: the inserted key maps to the new value, every other
/// key is untouched.
pub proof fn lemma_obj_get_insert(
    es: Seq<(Seq<char>, SpecVal)>,
    k: Seq<char>,
    v: SpecVal,
    k2: Seq<char>,
)
    ensures
        spec_obj_get(spec_obj_insert(es, k, v), k2) == if k2 == k {
            Some(v)
        } else {
            spec_obj_get(es, k2)
        },
    decreases es.len(),
{
    if es.len() == 0 {
        lemma_get_cons((k, v), Seq::empty(), k2);
        assert(seq![(k, v)] + Seq::<(Seq<char>, SpecVal)>::empty() =~= seq![(k, v)]);
        assert(spec_obj_get(seq![(k, v)], k2) == if k2 == k { Some(v) } else { spec_obj_get(es, k2) }) by {
            assert(seq![(k, v)][0] == (k, v));
            assert(seq![(k, v)].drop_first() =~= Seq::<(Seq<char>, SpecVal)>::empty());
        }
    } else if lex_lt(k, es[0].0) {
        lemma_get_cons((k, v), es, k2);
        if k2 == k {
        } else {
        }
    } else if es[0].0 == k {
        lemma_get_cons((k, v), es.drop_first(), k2);
        if k2 != k {
            assert(spec_obj_get(es, k2) == spec_obj_get(es.drop_first(), k2));
        }
    } else {
        lemma_obj_get_insert(es.drop_first(), k, v, k2);
        lemma_get_cons(es[0], spec_obj_insert(es.drop_first(), k, v), k2);
        assert(spec_obj_get(es, k2) == if es[0].0 == k2 { Some(es[0].1) } else { spec_obj_get(es.drop_first(), k2) }) by {
            assert(es.drop_first() =~= es.drop_first());
        }
    }
}

/// Lookup after removal in a sorted object: the removed key is gone, every
/// other key is untouched.
pub proof fn lemma_obj_get_remove(es: Seq<(Seq<char>, SpecVal)>, k: Seq<char>, k2: Seq<char>)
    requires
        entries_sorted(es),
    ensures
        spec_obj_get(spec_obj_remove(es, k), k2) == if k2 == k {
            None::<SpecVal>
        } else {
            spec_obj_get(es, k2)
        },
    decreases es.len(),
{
    if es.len() == 0 {
    } else if es[0].0 == k {
        if k2 == k {
            assert forall|i: int| 0 <= i < es.drop_first().len() implies es.drop_first()[i].0 != k by {
                assert(es.drop_first()[i] == es[i + 1]);
                assert(lex_lt(es[0].0, es[i + 1].0));
                lemma_lex_lt_irrefl(k);
            }
            lemma_get_absent(es.drop_first(), k);
        }
    } else {
        assert(entries_sorted(es.drop_first())) by {
            assert forall|i: int, j: int| 0 <= i < j < es.drop_first().len() implies lex_lt(
                es.drop_first()[i].0,
                es.drop_first()[j].0,
            ) by {
                assert(es.drop_first()[i] == es[i + 1]);
                assert(es.drop_first()[j] == es[j + 1]);
            }
        }
        lemma_obj_get_remove(es.drop_first(), k, k2);
        lemma_get_cons(es[0], spec_obj_remove(es.drop_first(), k), k2);
    }
}

/// Every value in an insert result is the inserted value or an old value.
pub proof fn lemma_obj_insert_values(es: Seq<(Seq<char>, SpecVal)>, k: Seq<char>, v: SpecVal, i: int)
    requires
        0 <= i < spec_obj_insert(es, k, v).len(),
    ensures
        spec_obj_insert(es, k, v)[i].1 == v || exists|j: int|
            0 <= j < es.len() && (#[trigger] es[j]).1 == spec_obj_insert(es, k, v)[i].1,
    decreases es.len(),
{
    if es.len() == 0 {
    } else if lex_lt(k, es[0].0) {
        if i > 0 {
            assert(spec_obj_insert(es, k, v)[i] == es[i - 1]);
        }
    } else if es[0].0 == k {
        if i > 0 {
            assert(spec_obj_insert(es, k, v)[i] == es.drop_first()[i - 1]);
            assert(es.drop_first()[i - 1] == es[i]);
        }
    } else {
        if i == 0 {
            assert(spec_obj_insert(es, k, v)[0] == es[0]);
        } else {
            assert(spec_obj_insert(es, k, v)[i] == spec_obj_insert(es.drop_first(), k, v)[i - 1]);
            lemma_obj_insert_values(es.drop_first(), k, v, i - 1);
            if spec_obj_insert(es.drop_first(), k, v)[i - 1].1 != v {
                let j = choose|j: int|
                    0 <= j < es.drop_first().len() && (#[trigger] es.drop_first()[j]).1
                        == spec_obj_insert(es.drop_first(), k, v)[i - 1].1;
                assert(es[j + 1].1 == spec_obj_insert(es, k, v)[i].1);
            }
        }
    }
}

/// A value a lookup returns out of well-formed entries is well-formed.
pub proof fn lemma_get_value_wf_pub(es: Seq<(Seq<char>, SpecVal)>, k: Seq<char>)
    requires
        forall|j: int| 0 <= j < es.len() ==> wf((#[trigger] es[j]).1),
        spec_obj_get(es, k) is Some,
    ensures
        wf(spec_obj_get(es, k)->0),
    decreases es.len(),
{
    if es.len() > 0 && es[0].0 != k {
        let tail = es.drop_first();
        assert forall|j: int| 0 <= j < tail.len() implies wf((#[trigger] tail[j]).1) by {
            assert(tail[j] == es[j + 1]);
        }
        lemma_get_value_wf_pub(tail, k);
    }
}

/// A well-formed object's entry values are well-formed, and its entries
/// sorted.
pub proof fn lemma_entry_values_wf(es: Seq<(Seq<char>, SpecVal)>)
    requires
        wf(SpecVal::Obj(es)),
    ensures
        entries_sorted(es),
        forall|q: int| 0 <= q < es.len() ==> wf((#[trigger] es[q]).1),
{
}

/// The tail of a sorted entry sequence is sorted.
pub proof fn lemma_sorted_tail(es: Seq<(Seq<char>, SpecVal)>)
    requires
        entries_sorted(es),
        es.len() > 0,
    ensures
        entries_sorted(es.drop_first()),
{
    assert forall|i: int, j: int| 0 <= i < j < es.drop_first().len() implies lex_lt(
        es.drop_first()[i].0,
        es.drop_first()[j].0,
    ) by {
        assert(es.drop_first()[i] == es[i + 1]);
        assert(es.drop_first()[j] == es[j + 1]);
    }
}

/// Where the scan of `obj_insert` stops, the recursive insert is the
/// positional splice at that point.
proof fn lemma_obj_insert_positional(
    es: Seq<(Seq<char>, SpecVal)>,
    k: Seq<char>,
    v: SpecVal,
    p: int,
)
    requires
        0 <= p <= es.len(),
        forall|i: int| 0 <= i < p ==> lex_lt(#[trigger] es[i].0, k),
        p < es.len() ==> !lex_lt(es[p].0, k),
    ensures
        spec_obj_insert(es, k, v) == if p < es.len() && es[p].0 == k {
            es.update(p, (k, v))
        } else {
            es.subrange(0, p) + seq![(k, v)] + es.skip(p)
        },
    decreases p,
{
    if p == 0 {
        if es.len() == 0 {
            assert(spec_obj_insert(es, k, v) == seq![(k, v)]);
            assert(es.subrange(0, 0) + seq![(k, v)] + es.skip(0) =~= seq![(k, v)]);
        } else if es[0].0 == k {
            lemma_lex_lt_irrefl(k);
            assert(spec_obj_insert(es, k, v) == seq![(k, v)] + es.drop_first());
            assert(es.update(0, (k, v)) =~= seq![(k, v)] + es.drop_first());
        } else {
            if !lex_lt(k, es[0].0) {
                lemma_lex_lt_connected(es[0].0, k);
                assert(false);
            }
            assert(lex_lt(k, es[0].0));
            assert(es.subrange(0, 0) + seq![(k, v)] + es.skip(0) =~= seq![(k, v)] + es);
        }
    } else {
        assert(lex_lt(es[0].0, k));
        lemma_lex_lt_irrefl(es[0].0);
        if lex_lt(k, es[0].0) {
            lemma_lex_lt_trans(k, es[0].0, k);
            lemma_lex_lt_irrefl(k);
            assert(false);
        }
        assert(es[0].0 != k);
        let tail = es.drop_first();
        assert forall|i: int| 0 <= i < p - 1 implies lex_lt(#[trigger] tail[i].0, k) by {
            assert(tail[i] == es[i + 1]);
        }
        if p - 1 < tail.len() {
            assert(tail[p - 1] == es[p]);
        }
        lemma_obj_insert_positional(tail, k, v, p - 1);
        if p < es.len() && es[p].0 == k {
            assert(spec_obj_insert(es, k, v) == seq![es[0]] + tail.update(p - 1, (k, v)));
            assert(seq![es[0]] + tail.update(p - 1, (k, v)) =~= es.update(p, (k, v)));
        } else {
            assert(spec_obj_insert(es, k, v) == seq![es[0]] + (tail.subrange(0, p - 1) + seq![(k, v)]
                + tail.skip(p - 1)));
            assert(seq![es[0]] + (tail.subrange(0, p - 1) + seq![(k, v)] + tail.skip(p - 1)) =~= es.subrange(
                0,
                p,
            ) + seq![(k, v)] + es.skip(p));
        }
    }
}

/// Index of the first entry whose key is not below `k` in a sorted list.
fn lower_bound(es: &Vec<(Vec<char>, JsonVal)>, k: &Vec<char>) -> (p: usize)
    ensures
        p <= es@.len(),
        forall|i: int| 0 <= i < p ==> lex_lt(#[trigger] entries_view(es@)[i].0, k@),
        p < es@.len() ==> !lex_lt(entries_view(es@)[p as int].0, k@),
{
    let mut p: usize = 0;
    while p < es.len()
        invariant
            p <= es@.len(),
            forall|i: int| 0 <= i < p ==> lex_lt(#[trigger] entries_view(es@)[i].0, k@),
        decreases es@.len() - p,
    {
        if !chars_lt(&es[p].0, k) {
            return p;
        }
        p += 1;
    }
    p
}

/// Sorted insert-or-replace; returns the value previously under the key.
pub fn obj_insert(es: &mut Vec<(Vec<char>, JsonVal)>, k: Vec<char>, v: JsonVal) -> (prev: Option<
    JsonVal,
>)
    requires
        entries_sorted(entries_view(old(es)@)),
    ensures
        entries_view(final(es)@) == spec_obj_insert(entries_view(old(es)@), k@, v@),
        entries_sorted(entries_view(final(es)@)),
        match prev {
            Some(pv) => spec_obj_get(entries_view(old(es)@), k@) == Some(pv@),
            None => spec_obj_get(entries_view(old(es)@), k@) is None,
        },
{
    let ghost ges = entries_view(es@);
    let ghost gk = k@;
    let ghost gv = v@;
    let p = lower_bound(es, &k);
    proof {
        lemma_obj_insert_positional(ges, gk, gv, p as int);
    }
    if p < es.len() && chars_eq(&es[p].0, &k) {
        let (_, prev_val) = es.remove(p);
        es.insert(p, (k, v));
        proof {
            assert(entries_view(es@) =~= ges.update(p as int, (gk, gv)));
            assert forall|i: int, j: int|
                0 <= i < j < entries_view(es@).len() implies lex_lt(
                entries_view(es@)[i].0,
                entries_view(es@)[j].0,
            ) by {
                assert(entries_view(es@)[i].0 == ges[i].0);
                assert(entries_view(es@)[j].0 == ges[j].0);
            }
            assert forall|i: int| 0 <= i < p implies ges[i].0 != gk by {
                lemma_lex_lt_irrefl(gk);
            }
            assert(ges.skip(0) =~= ges);
            lemma_get_prefix_ne(ges, gk, p as int);
            assert(ges.skip(p as int)[0] == ges[p as int]);
        }
        Some(prev_val)
    } else {
        let ghost gp = p as int;
        es.insert(p, (k, v));
        proof {
            assert(entries_view(es@) =~= ges.subrange(0, gp) + seq![(gk, gv)] + ges.skip(gp));
            if gp < ges.len() {
                assert(ges[gp] == (es@[gp + 1].0@, es@[gp + 1].1@)) by {
                    assert(entries_view(es@)[gp + 1] == ges[gp]);
                }
                if !lex_lt(gk, ges[gp].0) {
                    lemma_lex_lt_connected(ges[gp].0, gk);
                    assert(false);
                }
                assert(lex_lt(gk, ges[gp].0));
            }
            let nes = entries_view(es@);
            assert forall|i: int, j: int| 0 <= i < j < nes.len() implies lex_lt(
                nes[i].0,
                nes[j].0,
            ) by {
                if i < gp {
                    assert(nes[i] == ges[i]);
                } else if i == gp {
                    assert(nes[i] == (gk, gv));
                } else {
                    assert(nes[i] == ges[i - 1]);
                }
                if j < gp {
                    assert(nes[j] == ges[j]);
                } else if j == gp {
                    assert(nes[j] == (gk, gv));
                } else {
                    assert(nes[j] == ges[j - 1]);
                }
                if i < gp && j == gp {
                } else if i == gp && j > gp {
                    if j - 1 > gp {
                        lemma_lex_lt_trans(gk, ges[gp].0, ges[j - 1].0);
                    }
                } else if i < gp && j > gp {
                    if j - 1 == gp {
                    } else {
                    }
                }
            }
            assert forall|i: int| 0 <= i < ges.len() implies ges[i].0 != gk by {
                if i < gp {
                    lemma_lex_lt_irrefl(gk);
                } else if i == gp {
                } else {
                    assert(lex_lt(gk, ges[gp].0));
                    assert(lex_lt(ges[gp].0, ges[i].0));
                    lemma_lex_lt_trans(gk, ges[gp].0, ges[i].0);
                    lemma_lex_lt_irrefl(gk);
                }
            }
            lemma_get_absent(ges, gk);
        }
        None
    }
}

/// While the first `p` keys differ from `k`, lookup ignores them.
proof fn lemma_get_prefix_ne(es: Seq<(Seq<char>, SpecVal)>, k: Seq<char>, p: int)
    requires
        0 <= p <= es.len(),
        forall|i: int| 0 <= i < p ==> (#[trigger] es[i].0) != k,
    ensures
        spec_obj_get(es, k) == spec_obj_get(es.skip(p), k),
    decreases p,
{
    if p > 0 {
        assert(es.drop_first() =~= es.skip(1));
        assert forall|i: int| 0 <= i < p - 1 implies (#[trigger] es.skip(1)[i].0) != k by {
            assert(es.skip(1)[i] == es[i + 1]);
        }
        lemma_get_prefix_ne(es.skip(1), k, p - 1);
        assert(es.skip(1).skip(p - 1) =~= es.skip(p));
    } else {
        assert(es.skip(0) =~= es);
    }
}

/// Removes `k` from a sorted entry list, returning the removed value.
#[verifier::loop_isolation(false)]
pub fn obj_remove(es: &mut Vec<(Vec<char>, JsonVal)>, k: &Vec<char>) -> (prev: Option<JsonVal>)
    requires
        entries_sorted(entries_view(old(es)@)),
    ensures
        entries_view(final(es)@) == spec_obj_remove(entries_view(old(es)@), k@),
        entries_sorted(entries_view(final(es)@)),
        match prev {
            Some(pv) => spec_obj_get(entries_view(old(es)@), k@) == Some(pv@),
            None => spec_obj_get(entries_view(old(es)@), k@) is None,
        },
{
    let ghost ges = entries_view(es@);
    let ghost gk = k@;
    let mut p: usize = 0;
    while p < es.len()
        invariant
            p <= es@.len(),
            ges == entries_view(es@),
            forall|i: int| 0 <= i < p ==> (#[trigger] ges[i].0) != gk,
        decreases es@.len() - p,
    {
        if chars_eq(&es[p].0, k) {
            let ghost gp = p as int;
            proof {
                assert(ges[gp].0 == gk) by {
                    assert(entries_view(es@)[gp] == (es@[gp].0@, es@[gp].1@));
                }
                lemma_obj_remove_positional(ges, gk, gp);
                lemma_get_prefix_ne(ges, gk, gp);
                assert(ges.skip(gp)[0] == ges[gp]);
            }
            let (_, prev_val) = es.remove(p);
            proof {
                assert(entries_view(es@) =~= ges.subrange(0, gp) + ges.skip(gp + 1));
                let nes = entries_view(es@);
                assert forall|i: int, j: int| 0 <= i < j < nes.len() implies lex_lt(
                    nes[i].0,
                    nes[j].0,
                ) by {
                    let a = if i < gp { i } else { i + 1 };
                    let b = if j < gp { j } else { j + 1 };
                    assert(nes[i] == ges[a]);
                    assert(nes[j] == ges[b]);
                    assert(lex_lt(ges[a].0, ges[b].0));
                }
            }
            return Some(prev_val);
        }
        p += 1;
    }
    proof {
        lemma_get_absent(ges, gk);
        lemma_obj_remove_absent(ges, gk);
    }
    None
}

/// Where the scan of `obj_remove` finds the key, removal is the positional
/// splice at that point.
proof fn lemma_obj_remove_positional(es: Seq<(Seq<char>, SpecVal)>, k: Seq<char>, p: int)
    requires
        0 <= p < es.len(),
        forall|i: int| 0 <= i < p ==> (#[trigger] es[i].0) != k,
        es[p].0 == k,
    ensures
        spec_obj_remove(es, k) == es.subrange(0, p) + es.skip(p + 1),
    decreases p,
{
    if p == 0 {
        assert(es.subrange(0, 0) + es.skip(1) =~= es.drop_first());
    } else {
        let tail = es.drop_first();
        assert forall|i: int| 0 <= i < p - 1 implies (#[trigger] tail[i].0) != k by {
            assert(tail[i] == es[i + 1]);
        }
        assert(tail[p - 1] == es[p]);
        lemma_obj_remove_positional(tail, k, p - 1);
        assert(seq![es[0]] + (tail.subrange(0, p - 1) + tail.skip(p)) =~= es.subrange(0, p)
            + es.skip(p + 1));
    }
}

/// A lookup that fails means no entry carries the key.
pub proof fn lemma_get_none_all_ne(es: Seq<(Seq<char>, SpecVal)>, k: Seq<char>)
    requires
        spec_obj_get(es, k) is None,
    ensures
        forall|i: int| 0 <= i < es.len() ==> (#[trigger] es[i]).0 != k,
    decreases es.len(),
{
    if es.len() > 0 {
        lemma_get_none_all_ne(es.drop_first(), k);
        assert forall|i: int| 0 <= i < es.len() implies (#[trigger] es[i]).0 != k by {
            if i > 0 {
                assert(es.drop_first()[i - 1] == es[i]);
            }
        }
    }
}

/// Removing an absent key changes nothing.
pub proof fn lemma_obj_remove_absent(es: Seq<(Seq<char>, SpecVal)>, k: Seq<char>)
    requires
        forall|i: int| 0 <= i < es.len() ==> (#[trigger] es[i].0) != k,
    ensures
        spec_obj_remove(es, k) == es,
    decreases es.len(),
{
    if es.len() > 0 {
        let tail = es.drop_first();
        assert forall|i: int| 0 <= i < tail.len() implies (#[trigger] tail[i].0) != k by {
            assert(tail[i] == es[i + 1]);
        }
        lemma_obj_remove_absent(tail, k);
        assert(seq![es[0]] + tail =~= es);
    }
}

} // verus!
