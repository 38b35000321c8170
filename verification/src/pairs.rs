//! Lists of name and value, searched from the front.
use crate::text;
use vstd::prelude::*;

verus! {

/// The position of the first item with a property, or the length where no item has it.
pub open spec fn position<T>(v: Seq<T>, p: spec_fn(T) -> bool) -> int
    decreases v.len(),
{
    if v.len() == 0 || p(v[0]) {
        0
    } else {
        1 + position(v.skip(1), p)
    }
}

/// `position` is the one place before which no item has the property, and at which one has it
/// or the list ends.
pub proof fn lemma_position<T>(v: Seq<T>, p: spec_fn(T) -> bool, i: int)
    requires
        0 <= i <= v.len(),
        forall|j: int| 0 <= j < i ==> !p(#[trigger] v[j]),
        i == v.len() || p(v[i]),
    ensures
        position(v, p) == i,
    decreases v.len(),
{
    if i > 0 {
        assert(!p(v[0]));
        let t = v.skip(1);
        assert forall|j: int| 0 <= j < i - 1 implies !p(#[trigger] t[j]) by {
            assert(t[j] == v[j + 1]);
        }
        lemma_position(t, p, i - 1);
    }
}

/// No item before the position has the property; the item at it, where there is one, has it.
pub proof fn lemma_position_holds<T>(v: Seq<T>, p: spec_fn(T) -> bool)
    ensures
        0 <= position(v, p) <= v.len(),
        forall|j: int| 0 <= j < position(v, p) ==> !p(#[trigger] v[j]),
        position(v, p) < v.len() ==> p(v[position(v, p)]),
    decreases v.len(),
{
    if v.len() > 0 && !p(v[0]) {
        let t = v.skip(1);
        lemma_position_holds(t, p);
        assert forall|j: int| 0 <= j < position(v, p) implies !p(#[trigger] v[j]) by {
            if j > 0 {
                assert(v[j] == t[j - 1]);
            }
        }
    }
}

/// Whether a pair has the name.
pub open spec fn named(k: Seq<char>) -> spec_fn((Seq<char>, Seq<char>)) -> bool {
    |p: (Seq<char>, Seq<char>)| p.0 == k
}

/// Whether a pair has another name.
pub open spec fn not_named(k: Seq<char>) -> spec_fn((Seq<char>, Seq<char>)) -> bool {
    |p: (Seq<char>, Seq<char>)| p.0 != k
}

/// Whether a pair has the name, up to the case of ASCII letters.
pub open spec fn named_ignoring_case(k: Seq<char>) -> spec_fn((Seq<char>, Seq<char>)) -> bool {
    |p: (Seq<char>, Seq<char>)| text::lower(p.0) == text::lower(k)
}

/// The first value with a name.
pub open spec fn value_of(v: Seq<(Seq<char>, Seq<char>)>, k: Seq<char>) -> Option<Seq<char>> {
    let i = position(v, named(k));
    if i < v.len() {
        Some(v[i].1)
    } else {
        None
    }
}

/// The first value with a name, up to the case of ASCII letters.
pub open spec fn value_ignoring_case(v: Seq<(Seq<char>, Seq<char>)>, k: Seq<char>) -> Option<
    Seq<char>,
> {
    let i = position(v, named_ignoring_case(k));
    if i < v.len() {
        Some(v[i].1)
    } else {
        None
    }
}

/// The pairs with other names.
pub open spec fn without(v: Seq<(Seq<char>, Seq<char>)>, k: Seq<char>) -> Seq<
    (Seq<char>, Seq<char>),
> {
    v.filter(not_named(k))
}

/// The pairs with the first value of a name replaced, or with a pair more where there is none.
pub open spec fn with_value(
    v: Seq<(Seq<char>, Seq<char>)>,
    k: Seq<char>,
    value: Seq<char>,
) -> Seq<(Seq<char>, Seq<char>)> {
    let i = position(v, named(k));
    if i < v.len() {
        v.update(i, (v[i].0, value))
    } else {
        v.push((k, value))
    }
}

/// The position of the first pair with a name, or the length.
pub fn find(v: &Vec<(String, String)>, k: &str) -> (r: usize)
    ensures
        r == position(text::pair_texts(v@), named(k@)),
        r <= v@.len(),
        r < v@.len() ==> v@[r as int].0@ == k@,
{
    let ghost t = text::pair_texts(v@);
    let mut i: usize = 0;
    while i < v.len()
        invariant
            i <= v@.len(),
            t == text::pair_texts(v@),
            forall|j: int| 0 <= j < i ==> !named(k@)(#[trigger] t[j]),
        decreases v@.len() - i,
    {
        if text::same(&v[i].0, k) {
            proof {
                lemma_position(t, named(k@), i as int);
            }
            return i;
        }
        i = i + 1;
    }
    proof {
        lemma_position(t, named(k@), i as int);
    }
    i
}

/// The position of the first pair with a name, up to the case of ASCII letters, or the length.
pub fn find_ignoring_case(v: &Vec<(String, String)>, k: &str) -> (r: usize)
    ensures
        r == position(text::pair_texts(v@), named_ignoring_case(k@)),
        r <= v@.len(),
{
    let ghost t = text::pair_texts(v@);
    let mut i: usize = 0;
    while i < v.len()
        invariant
            i <= v@.len(),
            t == text::pair_texts(v@),
            forall|j: int| 0 <= j < i ==> !named_ignoring_case(k@)(#[trigger] t[j]),
        decreases v@.len() - i,
    {
        if text::same_ignoring_case(&v[i].0, k) {
            proof {
                lemma_position(t, named_ignoring_case(k@), i as int);
            }
            return i;
        }
        i = i + 1;
    }
    proof {
        lemma_position(t, named_ignoring_case(k@), i as int);
    }
    i
}

/// The first value with a name.
pub fn get(v: &Vec<(String, String)>, k: &str) -> (r: Option<String>)
    ensures
        text::opt_text(r) == value_of(text::pair_texts(v@), k@),
{
    let i = find(v, k);
    if i < v.len() {
        Some(text::copy(&v[i].1))
    } else {
        None
    }
}

/// The first value with a name, up to the case of ASCII letters.
pub fn get_ignoring_case(v: &Vec<(String, String)>, k: &str) -> (r: Option<String>)
    ensures
        text::opt_text(r) == value_ignoring_case(text::pair_texts(v@), k@),
{
    let i = find_ignoring_case(v, k);
    if i < v.len() {
        Some(text::copy(&v[i].1))
    } else {
        None
    }
}

/// A copy of a list of pairs.
pub fn copy_pairs(v: &Vec<(String, String)>) -> (r: Vec<(String, String)>)
    ensures
        text::pair_texts(r@) == text::pair_texts(v@),
{
    let mut out: Vec<(String, String)> = Vec::new();
    let mut i: usize = 0;
    while i < v.len()
        invariant
            i <= v@.len(),
            text::pair_texts(out@) =~= text::pair_texts(v@).take(i as int),
        decreases v@.len() - i,
    {
        let ghost prev = out@;
        out.push((text::copy(&v[i].0), text::copy(&v[i].1)));
        proof {
            assert(text::pair_texts(out@) =~= text::pair_texts(prev).push(
                text::pair_texts(v@)[i as int],
            ));
            assert(text::pair_texts(v@).take(i + 1) =~= text::pair_texts(v@).take(i as int).push(
                text::pair_texts(v@)[i as int],
            ));
        }
        i = i + 1;
    }
    proof {
        assert(text::pair_texts(v@).take(v@.len() as int) =~= text::pair_texts(v@));
    }
    out
}

/// The pairs with other names.
pub fn drop_name(v: &Vec<(String, String)>, k: &str) -> (r: Vec<(String, String)>)
    ensures
        text::pair_texts(r@) == without(text::pair_texts(v@), k@),
{
    let ghost t = text::pair_texts(v@);
    let ghost keep = not_named(k@);
    let mut out: Vec<(String, String)> = Vec::new();
    let mut i: usize = 0;
    proof {
        reveal(Seq::filter);
        assert(t.take(0).filter(keep) =~= Seq::empty());
        assert(text::pair_texts(out@) =~= Seq::empty());
    }
    while i < v.len()
        invariant
            i <= v@.len(),
            t == text::pair_texts(v@),
            keep == not_named(k@),
            text::pair_texts(out@) == t.take(i as int).filter(keep),
        decreases v@.len() - i,
    {
        let ghost prev = out@;
        proof {
            reveal(Seq::filter);
            assert(t.take(i + 1).drop_last() =~= t.take(i as int));
            assert(t.take(i + 1).last() == (v@[i as int].0@, v@[i as int].1@));
        }
        if !text::same(&v[i].0, k) {
            out.push((text::copy(&v[i].0), text::copy(&v[i].1)));
            proof {
                assert(text::pair_texts(out@) =~= text::pair_texts(prev).push(t[i as int]));
            }
        }
        i = i + 1;
    }
    proof {
        assert(t.take(t.len() as int) =~= t);
    }
    out
}

/// Replaces the first value of a name, or adds a pair where there is none.
pub fn set_value(v: &mut Vec<(String, String)>, k: &str, value: String)
    ensures
        text::pair_texts(final(v)@) == with_value(text::pair_texts(old(v)@), k@, value@),
{
    let ghost t = text::pair_texts(v@);
    let i = find(v, k);
    if i < v.len() {
        let name = text::copy(&v[i].0);
        v[i] = (name, value);
        proof {
            assert(text::pair_texts(v@) =~= with_value(t, k@, value@));
        }
    } else {
        v.push((text::copy(k), value));
        proof {
            assert(text::pair_texts(v@) =~= with_value(t, k@, value@));
        }
    }
}

/// A value that was set is the value that is found, and the values of other names stay.
pub proof fn set_then_get(v: Seq<(Seq<char>, Seq<char>)>, k: Seq<char>, value: Seq<char>, q: Seq<char>)
    ensures
        value_of(with_value(v, k, value), k) == Some(value),
        q != k ==> value_of(with_value(v, k, value), q) == value_of(v, q),
{
    let w = with_value(v, k, value);
    lemma_position_holds(v, named(k));
    let i = position(v, named(k));
    assert forall|j: int| 0 <= j < i implies !named(k)(#[trigger] w[j]) by {
        assert(w[j] == v[j]);
    }
    lemma_position(w, named(k), i);
    if q != k {
        lemma_position_holds(v, named(q));
        let m = position(v, named(q));
        assert forall|j: int| 0 <= j < m implies !named(q)(#[trigger] w[j]) by {
            assert(!named(q)(v[j]));
        }
        if m < v.len() {
            assert(w[m].0 == v[m].0);
            assert(m != i);
            lemma_position(w, named(q), m);
        } else if i < v.len() {
            lemma_position(w, named(q), m);
        } else {
            assert(!named(q)(w[m]));
            lemma_position(w, named(q), m + 1);
        }
    }
}

/// Once the pairs of a name are gone, nothing is found under it, and the values of other names
/// stay.
pub proof fn drop_then_get(v: Seq<(Seq<char>, Seq<char>)>, k: Seq<char>, q: Seq<char>)
    ensures
        value_of(without(v, k), k) is None,
        q != k ==> value_of(without(v, k), q) == value_of(v, q),
    decreases v.len(),
{
    let keep = not_named(k);
    let w = without(v, k);
    assert forall|j: int| 0 <= j < w.len() implies !named(k)(#[trigger] w[j]) by {
        v.lemma_filter_pred(keep, j);
    }
    lemma_position(w, named(k), w.len() as int);
    if q != k {
        reveal(Seq::filter);
        if v.len() > 0 {
            let u = v.drop_last();
            drop_then_get(u, k, q);
            lemma_position_drop_last(v, named(q));
            lemma_position_holds(u, named(q));
            lemma_position_holds(without(u, k), named(q));
            if keep(v.last()) {
                assert(w.drop_last() =~= without(u, k));
                lemma_position_drop_last(w, named(q));
                assert(w.last() == v.last());
            } else {
                assert(w == without(u, k));
            }
        } else {
            assert(w =~= v);
        }
    }
}

/// The position in a list, from that in the list without its last item.
pub proof fn lemma_position_drop_last<T>(v: Seq<T>, p: spec_fn(T) -> bool)
    requires
        v.len() > 0,
    ensures
        position(v, p) == (if position(v.drop_last(), p) < v.len() - 1 {
            position(v.drop_last(), p)
        } else if p(v.last()) {
            v.len() - 1
        } else {
            v.len() as int
        }),
{
    let u = v.drop_last();
    lemma_position_holds(u, p);
    let i = position(u, p);
    assert forall|j: int| 0 <= j < i implies !p(#[trigger] v[j]) by {
        assert(v[j] == u[j]);
    }
    if i < v.len() - 1 {
        assert(v[i] == u[i]);
        lemma_position(v, p, i);
    } else if p(v.last()) {
        lemma_position(v, p, v.len() - 1);
    } else {
        lemma_position(v, p, v.len() as int);
    }
}

/// The value of a name is that of the first pair with the name, whatever follows it; there is none
/// where no pair has the name. Where case does not count, a name in other letters is the name.
pub proof fn first_value_counts(v: Seq<(Seq<char>, Seq<char>)>, k: Seq<char>, value: Seq<char>)
    ensures
        value_of(v, k) == Some(value) <==> exists|i: int|
            0 <= i < v.len() && (#[trigger] v[i]) == (k, value) && forall|j: int|
                0 <= j < i ==> (#[trigger] v[j]).0 != k,
        value_of(v, k) is None <==> forall|i: int| 0 <= i < v.len() ==> (#[trigger] v[i]).0 != k,
        value_ignoring_case(v, k) == Some(value) <==> exists|i: int|
            0 <= i < v.len() && text::lower((#[trigger] v[i]).0) == text::lower(k) && v[i].1
                == value && forall|j: int|
                0 <= j < i ==> text::lower((#[trigger] v[j]).0) != text::lower(k),
        value_ignoring_case(v, k) is None <==> forall|i: int|
            0 <= i < v.len() ==> text::lower((#[trigger] v[i]).0) != text::lower(k),
{
    let p = named(k);
    let q = named_ignoring_case(k);
    lemma_position_holds(v, p);
    lemma_position_holds(v, q);
    let m = position(v, p);
    let n = position(v, q);
    if m < v.len() {
        assert(p(v[m]));
        assert forall|j: int| 0 <= j < m implies (#[trigger] v[j]).0 != k by {
            assert(!p(v[j]));
        }
        assert(v[m] == (k, v[m].1));
    } else {
        assert forall|j: int| 0 <= j < v.len() implies (#[trigger] v[j]).0 != k by {
            assert(!p(v[j]));
        }
    }
    if n < v.len() {
        assert(q(v[n]));
        assert forall|j: int| 0 <= j < n implies text::lower((#[trigger] v[j]).0) != text::lower(
            k,
        ) by {
            assert(!q(v[j]));
        }
    } else {
        assert forall|j: int| 0 <= j < v.len() implies text::lower((#[trigger] v[j]).0)
            != text::lower(k) by {
            assert(!q(v[j]));
        }
    }
}

/// Setting a value changes one pair or adds one behind the others, and dropping a name keeps the
/// other pairs.
pub proof fn setting_keeps_the_rest(
    v: Seq<(Seq<char>, Seq<char>)>,
    k: Seq<char>,
    value: Seq<char>,
    p: (Seq<char>, Seq<char>),
)
    ensures
        value_of(v, k) is None ==> with_value(v, k, value) == v.push((k, value)),
        value_of(v, k) is Some ==> with_value(v, k, value).len() == v.len() && forall|i: int|
            0 <= i < v.len() ==> (#[trigger] with_value(v, k, value)[i]).0 == v[i].0 && (v[i].0 != k
                ==> with_value(v, k, value)[i] == v[i]),
        without(v, k).contains(p) <==> v.contains(p) && p.0 != k,
{
    lemma_position_holds(v, named(k));
    let i = position(v, named(k));
    if i < v.len() {
        assert(named(k)(v[i]));
    }
    let keep = not_named(k);
    if without(v, k).contains(p) {
        let j = without(v, k).index_of(p);
        v.lemma_filter_pred(keep, j);
        v.lemma_filter_contains_rev(keep, p);
    }
    if v.contains(p) && p.0 != k {
        let j = v.index_of(p);
        v.lemma_filter_contains(keep, j);
    }
}

/// What is kept of a list without repetitions is what has the property, without repetitions.
pub proof fn lemma_filtered_once<T>(v: Seq<T>, p: spec_fn(T) -> bool)
    requires
        v.no_duplicates(),
    ensures
        v.filter(p).no_duplicates(),
        forall|x: T| #[trigger] v.filter(p).contains(x) <==> v.contains(x) && p(x),
    decreases v.len(),
{
    reveal(Seq::filter);
    assert forall|x: T| #[trigger] v.filter(p).contains(x) <==> v.contains(x) && p(x) by {
        if v.filter(p).contains(x) {
            let j = v.filter(p).index_of(x);
            v.lemma_filter_pred(p, j);
            v.lemma_filter_contains_rev(p, x);
        }
        if v.contains(x) && p(x) {
            v.lemma_filter_contains(p, v.index_of(x));
        }
    }
    if v.len() > 0 {
        let w = v.drop_last();
        lemma_filtered_once(w, p);
        if p(v.last()) {
            assert forall|i: int| 0 <= i < w.filter(p).len() implies #[trigger] w.filter(p)[i]
                != v.last() by {
                assert(w.filter(p).contains(w.filter(p)[i]));
            }
        }
    }
}


} // verus!
