//! The order of texts, and lists put in it.
use crate::text;
use vstd::prelude::*;
use vstd::string::*;

verus! {

/// Whether a text comes before another or is the same: by the first characters that differ, or
/// else by their lengths.
pub open spec fn before(a: Seq<char>, b: Seq<char>) -> bool
    decreases a.len(),
{
    if a.len() == 0 {
        true
    } else if b.len() == 0 {
        false
    } else if a[0] == b[0] {
        before(a.skip(1), b.skip(1))
    } else {
        a[0] < b[0]
    }
}

/// Whether each text of a list comes before those behind it.
pub open spec fn in_order(v: Seq<Seq<char>>) -> bool {
    forall|i: int, j: int|
        #![trigger v[i], v[j]]
        0 <= i <= j < v.len() ==> before(v[i], v[j])
}

proof fn lemma_before_self(a: Seq<char>)
    ensures
        before(a, a),
    decreases a.len(),
{
    if a.len() > 0 {
        lemma_before_self(a.skip(1));
    }
}

pub proof fn lemma_one_is_before(a: Seq<char>, b: Seq<char>)
    ensures
        before(a, b) || before(b, a),
    decreases a.len(),
{
    if a.len() > 0 && b.len() > 0 && a[0] == b[0] {
        lemma_one_is_before(a.skip(1), b.skip(1));
    }
}

proof fn lemma_before_transitive(a: Seq<char>, b: Seq<char>, c: Seq<char>)
    requires
        before(a, b),
        before(b, c),
    ensures
        before(a, c),
    decreases a.len(),
{
    if a.len() > 0 && b.len() > 0 && c.len() > 0 && a[0] == b[0] && b[0] == c[0] {
        lemma_before_transitive(a.skip(1), b.skip(1), c.skip(1));
    }
}

/// Texts that come before each other are the same.
pub proof fn lemma_before_same(a: Seq<char>, b: Seq<char>)
    requires
        before(a, b),
        before(b, a),
    ensures
        a == b,
    decreases a.len(),
{
    if a.len() > 0 && b.len() > 0 {
        lemma_before_same(a.skip(1), b.skip(1));
        assert(a =~= seq![a[0]] + a.skip(1));
        assert(b =~= seq![b[0]] + b.skip(1));
    } else {
        assert(a =~= b);
    }
}

/// Whether a text comes before another or is the same.
pub fn comes_before(a: &str, b: &str) -> (r: bool)
    ensures
        r == before(a@, b@),
{
    let x = text::to_chars(a);
    let y = text::to_chars(b);
    let mut i: usize = 0;
    proof {
        assert(x@.skip(0) =~= x@);
        assert(y@.skip(0) =~= y@);
    }
    while i < x.len() && i < y.len() && x[i] == y[i]
        invariant
            i <= x@.len(),
            i <= y@.len(),
            before(x@, y@) == before(x@.skip(i as int), y@.skip(i as int)),
        decreases x@.len() - i,
    {
        proof {
            assert(x@.skip(i as int)[0] == x@[i as int]);
            assert(y@.skip(i as int)[0] == y@[i as int]);
            assert(x@.skip(i as int).skip(1) =~= x@.skip(i + 1));
            assert(y@.skip(i as int).skip(1) =~= y@.skip(i + 1));
        }
        i = i + 1;
    }
    if i >= x.len() {
        true
    } else if i >= y.len() {
        false
    } else {
        proof {
            assert(x@.skip(i as int)[0] == x@[i as int]);
            assert(y@.skip(i as int)[0] == y@[i as int]);
        }
        x[i] < y[i]
    }
}

/// Where a text goes in a list that is in order: behind all that come before it.
fn place(v: &Vec<String>, s: &str) -> (r: usize)
    requires
        in_order(text::texts(v@)),
    ensures
        r <= v@.len(),
        forall|j: int| 0 <= j < r ==> before(#[trigger] text::texts(v@)[j], s@),
        forall|j: int| r <= j < v@.len() ==> before(s@, #[trigger] text::texts(v@)[j]),
{
    let ghost t = text::texts(v@);
    let mut i: usize = 0;
    while i < v.len() && comes_before(&v[i], s)
        invariant
            i <= v@.len(),
            t == text::texts(v@),
            in_order(t),
            forall|j: int| 0 <= j < i ==> before(#[trigger] t[j], s@),
        decreases v@.len() - i,
    {
        proof {
            assert(t[i as int] == v@[i as int]@);
        }
        i = i + 1;
    }
    proof {
        if i < v@.len() {
            assert(t[i as int] == v@[i as int]@);
            lemma_one_is_before(t[i as int], s@);
            assert forall|j: int| i <= j < v@.len() implies before(s@, #[trigger] t[j]) by {
                assert(before(t[i as int], t[j]));
                lemma_before_transitive(s@, t[i as int], t[j]);
            }
        }
    }
    i
}

/// A list with its texts put in order.
pub fn sort_texts(v: Vec<String>) -> (r: Vec<String>)
    ensures
        in_order(text::texts(r@)),
        text::texts(r@).to_multiset() == text::texts(v@).to_multiset(),
{
    let ghost t = text::texts(v@);
    let mut out: Vec<String> = Vec::new();
    let mut i: usize = 0;
    proof {
        assert(text::texts(out@) =~= t.take(0));
    }
    while i < v.len()
        invariant
            i <= v@.len(),
            t == text::texts(v@),
            in_order(text::texts(out@)),
            text::texts(out@).to_multiset() == t.take(i as int).to_multiset(),
        decreases v@.len() - i,
    {
        let ghost prev = text::texts(out@);
        let ghost w = v@[i as int]@;
        let at = place(&out, &v[i]);
        out.insert(at, text::copy(&v[i]));
        proof {
            let now = text::texts(out@);
            assert(now =~= prev.insert(at as int, w));
            vstd::seq_lib::to_multiset_insert(prev, at as int, w);
            assert(t.take(i + 1) =~= t.take(i as int).push(w));
            vstd::seq_lib::to_multiset_build(t.take(i as int), w);
            assert forall|a: int, b: int|
                #![trigger now[a], now[b]]
                0 <= a <= b < now.len() implies before(now[a], now[b]) by {
                lemma_before_self(w);
                if a < at {
                    assert(now[a] == prev[a]);
                } else if a > at {
                    assert(now[a] == prev[a - 1]);
                }
                if b < at {
                    assert(now[b] == prev[b]);
                } else if b > at {
                    assert(now[b] == prev[b - 1]);
                }
            }
        }
        i = i + 1;
    }
    proof {
        assert(t.take(t.len() as int) =~= t);
    }
    out
}

/// The plain values of named flags.
pub open spec fn flags_view(v: Seq<(String, bool)>) -> Seq<(Seq<char>, bool)> {
    v.map_values(|p: (String, bool)| (p.0@, p.1))
}

/// Whether each name of a list comes before those behind it.
pub open spec fn names_in_order(v: Seq<(Seq<char>, bool)>) -> bool {
    forall|i: int, j: int|
        #![trigger v[i], v[j]]
        0 <= i <= j < v.len() ==> before(v[i].0, v[j].0)
}

fn place_name(v: &Vec<(String, bool)>, s: &str) -> (r: usize)
    requires
        names_in_order(flags_view(v@)),
    ensures
        r <= v@.len(),
        forall|j: int| 0 <= j < r ==> before((#[trigger] flags_view(v@)[j]).0, s@),
        forall|j: int| r <= j < v@.len() ==> before(s@, (#[trigger] flags_view(v@)[j]).0),
{
    let ghost t = flags_view(v@);
    let mut i: usize = 0;
    while i < v.len() && comes_before(&v[i].0, s)
        invariant
            i <= v@.len(),
            t == flags_view(v@),
            names_in_order(t),
            forall|j: int| 0 <= j < i ==> before((#[trigger] t[j]).0, s@),
        decreases v@.len() - i,
    {
        proof {
            assert(t[i as int].0 == v@[i as int].0@);
        }
        i = i + 1;
    }
    proof {
        if i < v@.len() {
            assert(t[i as int].0 == v@[i as int].0@);
            lemma_one_is_before(t[i as int].0, s@);
            assert forall|j: int| i <= j < v@.len() implies before(s@, (#[trigger] t[j]).0) by {
                assert(before(t[i as int].0, t[j].0));
                lemma_before_transitive(s@, t[i as int].0, t[j].0);
            }
        }
    }
    i
}

/// A list of named flags with its names put in order.
pub fn sort_flags(v: Vec<(String, bool)>) -> (r: Vec<(String, bool)>)
    ensures
        names_in_order(flags_view(r@)),
        flags_view(r@).to_multiset() == flags_view(v@).to_multiset(),
{
    let ghost t = flags_view(v@);
    let mut out: Vec<(String, bool)> = Vec::new();
    let mut i: usize = 0;
    proof {
        assert(flags_view(out@) =~= t.take(0));
    }
    while i < v.len()
        invariant
            i <= v@.len(),
            t == flags_view(v@),
            names_in_order(flags_view(out@)),
            flags_view(out@).to_multiset() == t.take(i as int).to_multiset(),
        decreases v@.len() - i,
    {
        let ghost prev = flags_view(out@);
        let ghost w = (v@[i as int].0@, v@[i as int].1);
        let at = place_name(&out, &v[i].0);
        out.insert(at, (text::copy(&v[i].0), v[i].1));
        proof {
            let now = flags_view(out@);
            assert(now =~= prev.insert(at as int, w));
            vstd::seq_lib::to_multiset_insert(prev, at as int, w);
            assert(t.take(i + 1) =~= t.take(i as int).push(w));
            vstd::seq_lib::to_multiset_build(t.take(i as int), w);
            assert forall|a: int, b: int|
                #![trigger now[a], now[b]]
                0 <= a <= b < now.len() implies before(now[a].0, now[b].0) by {
                lemma_before_self(w.0);
                if a < at {
                    assert(now[a] == prev[a]);
                } else if a > at {
                    assert(now[a] == prev[a - 1]);
                }
                if b < at {
                    assert(now[b] == prev[b]);
                } else if b > at {
                    assert(now[b] == prev[b - 1]);
                }
            }
        }
        i = i + 1;
    }
    proof {
        assert(t.take(t.len() as int) =~= t);
    }
    out
}

/// Texts are ordered as words in a dictionary are: a text comes before the longer ones that begin with
/// it, and otherwise the first characters in which two differ decide.
pub proof fn texts_are_ordered_like_words(
    p: Seq<char>,
    x: char,
    a: Seq<char>,
    y: char,
    b: Seq<char>,
)
    ensures
        before(p, p + a),
        a.len() > 0 ==> !before(p + a, p),
        x != y ==> (before(p + (seq![x] + a), p + (seq![y] + b)) <==> x < y),
    decreases p.len(),
{
    let u = p + (seq![x] + a);
    let v = p + (seq![y] + b);
    if p.len() == 0 {
        assert(u[0] == x);
        assert(v[0] == y);
    } else {
        let q = p.skip(1);
        texts_are_ordered_like_words(q, x, a, y, b);
        assert(u.skip(1) =~= q + (seq![x] + a));
        assert(v.skip(1) =~= q + (seq![y] + b));
        assert((p + a).skip(1) =~= q + a);
        assert((p + a)[0] == p[0]);
    }
}

/// Of two texts one comes before the other, both do only where they are the same, and what comes before
/// a text comes before all that the text comes before.
pub proof fn texts_have_one_order(a: Seq<char>, b: Seq<char>, c: Seq<char>)
    ensures
        before(a, b) || before(b, a),
        before(a, b) && before(b, a) ==> a == b,
        before(a, b) && before(b, c) ==> before(a, c),
    decreases a.len(),
{
    if a.len() > 0 && b.len() > 0 && a[0] == b[0] {
        texts_have_one_order(a.skip(1), b.skip(1), c.skip(1));
        assert(a =~= seq![a[0]] + a.skip(1));
        assert(b =~= seq![b[0]] + b.skip(1));
    } else if a.len() == 0 && b.len() == 0 {
        assert(a =~= b);
    }
}

} // verus!
