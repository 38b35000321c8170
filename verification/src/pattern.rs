//! The patterns that form controls hold their values to: a small language of regular
//! expressions, and the values that a pattern accepts.
use crate::text;
use vstd::prelude::*;

verus! {

/// A pattern.
pub enum SimpleRe {
    Empty,
    Char(char),
    Any,
    Digit,
    Word,
    Space,
    Class(Vec<char>),
    Then(Box<SimpleRe>, Box<SimpleRe>),
    Either(Box<SimpleRe>, Box<SimpleRe>),
    Star(Box<SimpleRe>),
    Plus(Box<SimpleRe>),
    Optional(Box<SimpleRe>),
}

/// A pattern over plain characters.
pub ghost enum Re {
    Empty,
    Char(char),
    Any,
    Digit,
    Word,
    Space,
    Class(Seq<char>),
    Then(Box<Re>, Box<Re>),
    Either(Box<Re>, Box<Re>),
    Star(Box<Re>),
    Plus(Box<Re>),
    Optional(Box<Re>),
}

impl SimpleRe {
    /// The pattern over plain characters.
    pub open spec fn re(&self) -> Re
        decreases self,
    {
        match self {
            SimpleRe::Empty => Re::Empty,
            SimpleRe::Char(c) => Re::Char(*c),
            SimpleRe::Any => Re::Any,
            SimpleRe::Digit => Re::Digit,
            SimpleRe::Word => Re::Word,
            SimpleRe::Space => Re::Space,
            SimpleRe::Class(v) => Re::Class(v@),
            SimpleRe::Then(a, b) => Re::Then(Box::new(a.re()), Box::new(b.re())),
            SimpleRe::Either(a, b) => Re::Either(Box::new(a.re()), Box::new(b.re())),
            SimpleRe::Star(a) => Re::Star(Box::new(a.re())),
            SimpleRe::Plus(a) => Re::Plus(Box::new(a.re())),
            SimpleRe::Optional(a) => Re::Optional(Box::new(a.re())),
        }
    }
}

/// Whether a character is a decimal digit.
pub open spec fn is_digit(c: char) -> bool {
    '0' <= c <= '9'
}

/// Whether a character is a letter or digit of ASCII.
pub open spec fn is_alphanumeric(c: char) -> bool {
    is_digit(c) || 'a' <= c <= 'z' || 'A' <= c <= 'Z'
}

/// Whether a pattern stands for one character, and for this one.
pub open spec fn takes(re: Re, c: char) -> bool {
    match re {
        Re::Char(x) => x == c,
        Re::Any => c != '\n',
        Re::Digit => is_digit(c),
        Re::Word => is_alphanumeric(c) || c == '_',
        Re::Space => text::is_space(c),
        Re::Class(v) => v.contains(c),
        _ => false,
    }
}

/// Whether a text, all of it, is of the pattern.
pub open spec fn accepts(re: Re, s: Seq<char>) -> bool
    decreases re, 0nat, s.len(),
{
    match re {
        Re::Empty => s.len() == 0,
        Re::Then(a, b) => exists|k: int|
            0 <= k <= s.len() && accepts(*a, #[trigger] s.take(k)) && accepts(*b, s.skip(k)),
        Re::Either(a, b) => accepts(*a, s) || accepts(*b, s),
        Re::Star(a) => repeats(*a, s),
        Re::Plus(a) => exists|k: int|
            0 <= k <= s.len() && accepts(*a, #[trigger] s.take(k)) && repeats(*a, s.skip(k)),
        Re::Optional(a) => s.len() == 0 || accepts(*a, s),
        _ => s.len() == 1 && takes(re, s[0]),
    }
}

/// Whether a text is made of any number of texts of the pattern.
pub open spec fn repeats(re: Re, s: Seq<char>) -> bool
    decreases re, 1nat, s.len(),
{
    s.len() == 0 || exists|k: int|
        0 < k <= s.len() && accepts(re, #[trigger] s.take(k)) && repeats(re, s.skip(k))
}

/// Whether the pattern leads from one of the marked places of a text to the place.
pub open spec fn leads(re: Re, s: Seq<char>, from: Seq<bool>, e: int) -> bool {
    exists|b: int| 0 <= b <= e && #[trigger] from[b] && accepts(re, s.subrange(b, e))
}

/// Whether repeating the pattern leads from one of the marked places of a text to the place.
pub open spec fn leads_repeating(re: Re, s: Seq<char>, from: Seq<bool>, e: int) -> bool {
    exists|b: int| 0 <= b <= e && #[trigger] from[b] && repeats(re, s.subrange(b, e))
}

fn is_among(v: &Vec<char>, c: char) -> (r: bool)
    ensures
        r == v@.contains(c),
{
    let mut i: usize = 0;
    while i < v.len()
        invariant
            i <= v@.len(),
            forall|j: int| 0 <= j < i ==> v@[j] != c,
        decreases v@.len() - i,
    {
        if v[i] == c {
            return true;
        }
        i = i + 1;
    }
    false
}

/// Whether a pattern for one character stands for this one.
pub fn match_atom(re: &SimpleRe, c: char) -> (r: bool)
    ensures
        r == takes(re.re(), c),
{
    match re {
        SimpleRe::Char(x) => *x == c,
        SimpleRe::Any => c != '\n',
        SimpleRe::Digit => '0' <= c && c <= '9',
        SimpleRe::Word => ('0' <= c && c <= '9') || ('a' <= c && c <= 'z') || ('A' <= c && c
            <= 'Z') || c == '_',
        SimpleRe::Space => text::char_is_space(c),
        SimpleRe::Class(v) => is_among(v, c),
        _ => false,
    }
}

/// Marks on the places of a text: before each of its characters, and at its end.
pub struct Marks {
    pub inside: Vec<bool>,
    pub end: bool,
}

impl View for Marks {
    type V = Seq<bool>;

    open spec fn view(&self) -> Seq<bool> {
        self.inside@.push(self.end)
    }
}

/// The places that one character of the pattern leads to.
fn step_one(re: &SimpleRe, s: &[char], from: &Marks) -> (r: Marks)
    requires
        from@.len() == s@.len() + 1,
        !(re is Empty || re is Then || re is Either || re is Star || re is Plus || re is Optional),
    ensures
        r@.len() == from@.len(),
        forall|e: int| 0 <= e < r@.len() ==> #[trigger] r@[e] == leads(re.re(), s@, from@, e),
{
    let mut out: Vec<bool> = Vec::new();
    let mut here: bool = false;
    let mut i: usize = 0;
    proof {
        assert(!leads(re.re(), s@, from@, 0)) by {
            if leads(re.re(), s@, from@, 0) {
                let b = choose|b: int|
                    0 <= b <= 0 && #[trigger] from@[b] && accepts(re.re(), s@.subrange(b, 0));
                assert(s@.subrange(b, 0).len() == 0);
            }
        }
    }
    while i < s.len()
        invariant
            i <= s@.len(),
            from@.len() == s@.len() + 1,
            out@.len() == i,
            !(re is Empty || re is Then || re is Either || re is Star || re is Plus
                || re is Optional),
            forall|e: int|
                0 <= e < out@.len() ==> #[trigger] out@[e] == leads(re.re(), s@, from@, e),
            here == leads(re.re(), s@, from@, i as int),
        decreases s@.len() - i,
    {
        out.push(here);
        here = from.inside[i] && match_atom(re, s[i]);
        proof {
            let e = i + 1;
            assert(from@[i as int] == from.inside@[i as int]);
            if here {
                assert(s@.subrange(i as int, e)[0] == s@[i as int]);
                assert(from@[i as int] && accepts(re.re(), s@.subrange(i as int, e)));
            }
            if leads(re.re(), s@, from@, e) {
                let b = choose|b: int|
                    0 <= b <= e && #[trigger] from@[b] && accepts(re.re(), s@.subrange(b, e));
                assert(s@.subrange(b, e).len() == e - b);
                assert(b == i);
                assert(s@.subrange(b, e)[0] == s@[i as int]);
            }
        }
        i = i + 1;
    }
    Marks { inside: out, end: here }
}

/// The places that are marked in one list or the other.
fn either_of(a: &Marks, b: &Marks) -> (r: Marks)
    requires
        a@.len() == b@.len(),
    ensures
        r@.len() == a@.len(),
        forall|e: int| 0 <= e < r@.len() ==> #[trigger] r@[e] == (a@[e] || b@[e]),
{
    let mut out: Vec<bool> = Vec::new();
    let mut i: usize = 0;
    while i < a.inside.len()
        invariant
            i <= a.inside@.len(),
            a@.len() == b@.len(),
            out@.len() == i,
            forall|e: int|
                0 <= e < i ==> #[trigger] out@[e] == (a.inside@[e] || b.inside@[e]),
        decreases a.inside@.len() - i,
    {
        out.push(a.inside[i] || b.inside[i]);
        i = i + 1;
    }
    Marks { inside: out, end: a.end || b.end }
}

/// One mark, on a place of a text of so many characters.
fn only(n: usize, at: usize) -> (r: Marks)
    ensures
        r@.len() == n + 1,
        forall|e: int| 0 <= e <= n ==> #[trigger] r@[e] == (e == at),
{
    let mut out: Vec<bool> = Vec::new();
    let mut i: usize = 0;
    while i < n
        invariant
            i <= n,
            out@.len() == i,
            forall|e: int| 0 <= e < i ==> #[trigger] out@[e] == (e == at),
        decreases n - i,
    {
        out.push(i == at);
        i = i + 1;
    }
    Marks { inside: out, end: n == at }
}

proof fn lemma_repeats_append(re: Re, a: Seq<char>, b: Seq<char>)
    requires
        repeats(re, a),
        accepts(re, b),
    ensures
        repeats(re, a + b),
    decreases a.len(),
{
    let s = a + b;
    if a.len() == 0 {
        assert(s =~= b);
        if b.len() > 0 {
            let k = b.len() as int;
            assert(s.take(k) =~= b);
            assert(s.skip(k).len() == 0);
            assert(accepts(re, s.take(k)) && repeats(re, s.skip(k)));
        }
    } else {
        let k = choose|k: int|
            0 < k <= a.len() && accepts(re, #[trigger] a.take(k)) && repeats(re, a.skip(k));
        lemma_repeats_append(re, a.skip(k), b);
        assert(s.take(k) =~= a.take(k));
        assert(s.skip(k) =~= a.skip(k) + b);
        assert(accepts(re, s.take(k)) && repeats(re, s.skip(k)));
    }
}

proof fn lemma_closed(re: Re, s: Seq<char>, cur: Seq<bool>, p: int, q: int)
    requires
        cur.len() == s.len() + 1,
        forall|i: int, j: int|
            #![trigger cur[i], cur[j]]
            0 <= i < j < cur.len() && cur[i] && accepts(re, s.subrange(i, j)) ==> cur[j],
        0 <= p <= q < cur.len(),
        cur[p],
        repeats(re, s.subrange(p, q)),
    ensures
        cur[q],
    decreases q - p,
{
    let t = s.subrange(p, q);
    if t.len() > 0 {
        let k = choose|k: int|
            0 < k <= t.len() && accepts(re, #[trigger] t.take(k)) && repeats(re, t.skip(k));
        assert(t.take(k) =~= s.subrange(p, p + k));
        assert(t.skip(k) =~= s.subrange(p + k, q));
        assert(cur[p + k]);
        lemma_closed(re, s, cur, p + k, q);
    }
}

/// The places that repeating the pattern leads to.
fn step_repeating(re: &SimpleRe, s: &[char], from: &Marks) -> (r: Marks)
    requires
        from@.len() == s@.len() + 1,
    ensures
        r@.len() == from@.len(),
        forall|e: int|
            0 <= e < r@.len() ==> #[trigger] r@[e] == leads_repeating(re.re(), s@, from@, e),
    decreases re, 1nat,
{
    let n: usize = s.len();
    let ghost x = re.re();
    let mut cur = either_of(from, from);
    let mut i: usize = 0;
    proof {
        assert forall|q: int| 0 <= q <= n && cur@[q] implies leads_repeating(x, s@, from@, q) by {
            assert(s@.subrange(q, q).len() == 0);
            assert(from@[q] && repeats(x, s@.subrange(q, q)));
        }
    }
    while i < n
        invariant
            i <= n,
            n == s@.len(),
            from@.len() == n + 1,
            cur@.len() == n + 1,
            x == re.re(),
            forall|q: int| 0 <= q <= n && from@[q] ==> #[trigger] cur@[q],
            forall|q: int| 0 <= q <= n && #[trigger] cur@[q] ==> leads_repeating(x, s@, from@, q),
            forall|p: int, q: int|
                #![trigger cur@[p], cur@[q]]
                0 <= p < i && p < q <= n && cur@[p] && accepts(x, s@.subrange(p, q)) ==> cur@[q],
        decreases n - i,
    {
        if cur.inside[i] {
            let here = only(n, i);
            proof {
                assert(cur@[i as int]);
            }
            let next = match_seq(re, s, &here);
            let ghost before = cur@;
            cur = either_of(&cur, &next);
            proof {
                assert forall|q: int| 0 <= q <= n && #[trigger] next@[q] implies i <= q && accepts(
                    x,
                    s@.subrange(i as int, q),
                ) by {
                    let b = choose|b: int|
                        0 <= b <= q && #[trigger] here@[b] && accepts(x, s@.subrange(b, q));
                    assert(b == i);
                }
                assert forall|q: int| 0 <= q <= n && #[trigger] cur@[q] implies leads_repeating(
                    x,
                    s@,
                    from@,
                    q,
                ) by {
                    if !before[q] {
                        assert(next@[q]);
                        assert(leads_repeating(x, s@, from@, i as int));
                        let b = choose|b: int|
                            0 <= b <= i && #[trigger] from@[b] && repeats(
                                x,
                                s@.subrange(b, i as int),
                            );
                        lemma_repeats_append(
                            x,
                            s@.subrange(b, i as int),
                            s@.subrange(i as int, q),
                        );
                        assert(s@.subrange(b, i as int) + s@.subrange(i as int, q) =~= s@.subrange(
                            b,
                            q,
                        ));
                        assert(from@[b] && repeats(x, s@.subrange(b, q)));
                    }
                }
                assert forall|p: int, q: int|
                    #![trigger cur@[p], cur@[q]]
                    0 <= p < i + 1 && p < q <= n && cur@[p] && accepts(
                        x,
                        s@.subrange(p, q),
                    ) implies cur@[q] by {
                    if p < i {
                        assert(before[p]);
                        assert(before[q] ==> cur@[q]);
                    } else {
                        assert(here@[p]);
                        assert(leads(x, s@, here@, q));
                        assert(next@[q]);
                    }
                }
            }
        }
        i = i + 1;
    }
    proof {
        assert forall|e: int| 0 <= e <= n implies #[trigger] cur@[e] == leads_repeating(
            x,
            s@,
            from@,
            e,
        ) by {
            if leads_repeating(x, s@, from@, e) {
                let b = choose|b: int|
                    0 <= b <= e && #[trigger] from@[b] && repeats(x, s@.subrange(b, e));
                assert(cur@[b]);
                lemma_closed(x, s@, cur@, b, e);
            }
        }
    }
    cur
}

proof fn lemma_then(a: Re, b: Re, s: Seq<char>, from: Seq<bool>, mid: Seq<bool>, e: int)
    requires
        from.len() == s.len() + 1,
        mid.len() == from.len(),
        0 <= e < from.len(),
        forall|m: int| 0 <= m < mid.len() ==> #[trigger] mid[m] == leads(a, s, from, m),
    ensures
        leads(b, s, mid, e) == leads(Re::Then(Box::new(a), Box::new(b)), s, from, e),
{
    let both = Re::Then(Box::new(a), Box::new(b));
    if leads(b, s, mid, e) {
        let m = choose|m: int| 0 <= m <= e && #[trigger] mid[m] && accepts(b, s.subrange(m, e));
        let i = choose|i: int| 0 <= i <= m && #[trigger] from[i] && accepts(a, s.subrange(i, m));
        let t = s.subrange(i, e);
        assert(t.take(m - i) =~= s.subrange(i, m));
        assert(t.skip(m - i) =~= s.subrange(m, e));
        assert(accepts(both, t));
        assert(from[i]);
    }
    if leads(both, s, from, e) {
        let i = choose|i: int|
            0 <= i <= e && #[trigger] from[i] && accepts(both, s.subrange(i, e));
        let t = s.subrange(i, e);
        let k = choose|k: int|
            0 <= k <= t.len() && accepts(a, #[trigger] t.take(k)) && accepts(b, t.skip(k));
        assert(t.take(k) =~= s.subrange(i, i + k));
        assert(t.skip(k) =~= s.subrange(i + k, e));
        assert(from[i]);
        assert(leads(a, s, from, i + k));
        assert(mid[i + k]);
    }
}

proof fn lemma_plus(a: Re, s: Seq<char>, from: Seq<bool>, mid: Seq<bool>, e: int)
    requires
        from.len() == s.len() + 1,
        mid.len() == from.len(),
        0 <= e < from.len(),
        forall|m: int| 0 <= m < mid.len() ==> #[trigger] mid[m] == leads(a, s, from, m),
    ensures
        leads_repeating(a, s, mid, e) == leads(Re::Plus(Box::new(a)), s, from, e),
{
    let both = Re::Plus(Box::new(a));
    if leads_repeating(a, s, mid, e) {
        let m = choose|m: int| 0 <= m <= e && #[trigger] mid[m] && repeats(a, s.subrange(m, e));
        let i = choose|i: int| 0 <= i <= m && #[trigger] from[i] && accepts(a, s.subrange(i, m));
        let t = s.subrange(i, e);
        assert(t.take(m - i) =~= s.subrange(i, m));
        assert(t.skip(m - i) =~= s.subrange(m, e));
        assert(accepts(both, t));
        assert(from[i]);
    }
    if leads(both, s, from, e) {
        let i = choose|i: int|
            0 <= i <= e && #[trigger] from[i] && accepts(both, s.subrange(i, e));
        let t = s.subrange(i, e);
        let k = choose|k: int|
            0 <= k <= t.len() && accepts(a, #[trigger] t.take(k)) && repeats(a, t.skip(k));
        assert(t.take(k) =~= s.subrange(i, i + k));
        assert(t.skip(k) =~= s.subrange(i + k, e));
        assert(from[i]);
        assert(leads(a, s, from, i + k));
        assert(mid[i + k]);
    }
}

proof fn lemma_same_places(s: Seq<char>, from: Seq<bool>, e: int)
    requires
        from.len() == s.len() + 1,
        0 <= e < from.len(),
    ensures
        leads(Re::Empty, s, from, e) == from[e],
{
    if from[e] {
        assert(s.subrange(e, e).len() == 0);
        assert(from[e] && accepts(Re::Empty, s.subrange(e, e)));
    }
    if leads(Re::Empty, s, from, e) {
        let b = choose|b: int|
            0 <= b <= e && #[trigger] from[b] && accepts(Re::Empty, s.subrange(b, e));
        assert(s.subrange(b, e).len() == e - b);
    }
}

proof fn lemma_optional(a: Re, s: Seq<char>, from: Seq<bool>, e: int)
    requires
        from.len() == s.len() + 1,
        0 <= e < from.len(),
    ensures
        leads(Re::Optional(Box::new(a)), s, from, e) == (from[e] || leads(a, s, from, e)),
{
    let both = Re::Optional(Box::new(a));
    if from[e] {
        assert(s.subrange(e, e).len() == 0);
        assert(from[e] && accepts(both, s.subrange(e, e)));
    }
    if leads(a, s, from, e) {
        let b = choose|b: int| 0 <= b <= e && #[trigger] from[b] && accepts(a, s.subrange(b, e));
        assert(from[b] && accepts(both, s.subrange(b, e)));
    }
    if leads(both, s, from, e) {
        let b = choose|b: int|
            0 <= b <= e && #[trigger] from[b] && accepts(both, s.subrange(b, e));
        if s.subrange(b, e).len() > 0 {
            assert(from[b] && accepts(a, s.subrange(b, e)));
        } else {
            assert(b == e);
        }
    }
}

proof fn lemma_either(a: Re, b: Re, s: Seq<char>, from: Seq<bool>, e: int)
    ensures
        leads(Re::Either(Box::new(a), Box::new(b)), s, from, e) == (leads(a, s, from, e) || leads(
            b,
            s,
            from,
            e,
        )),
{
    let both = Re::Either(Box::new(a), Box::new(b));
    if leads(a, s, from, e) {
        let i = choose|i: int| 0 <= i <= e && #[trigger] from[i] && accepts(a, s.subrange(i, e));
        assert(from[i] && accepts(both, s.subrange(i, e)));
    }
    if leads(b, s, from, e) {
        let i = choose|i: int| 0 <= i <= e && #[trigger] from[i] && accepts(b, s.subrange(i, e));
        assert(from[i] && accepts(both, s.subrange(i, e)));
    }
    if leads(both, s, from, e) {
        let i = choose|i: int|
            0 <= i <= e && #[trigger] from[i] && accepts(both, s.subrange(i, e));
        assert(from[i]);
    }
}

proof fn lemma_star(a: Re, s: Seq<char>, from: Seq<bool>, e: int)
    ensures
        leads(Re::Star(Box::new(a)), s, from, e) == leads_repeating(a, s, from, e),
{
    let both = Re::Star(Box::new(a));
    if leads_repeating(a, s, from, e) {
        let i = choose|i: int| 0 <= i <= e && #[trigger] from[i] && repeats(a, s.subrange(i, e));
        assert(from[i] && accepts(both, s.subrange(i, e)));
    }
    if leads(both, s, from, e) {
        let i = choose|i: int|
            0 <= i <= e && #[trigger] from[i] && accepts(both, s.subrange(i, e));
        assert(from[i] && repeats(a, s.subrange(i, e)));
    }
}

/// The places of a text that the pattern leads to from the marked ones.
pub fn match_seq(re: &SimpleRe, s: &[char], from: &Marks) -> (r: Marks)
    requires
        from@.len() == s@.len() + 1,
    ensures
        r@.len() == from@.len(),
        forall|e: int| 0 <= e < r@.len() ==> #[trigger] r@[e] == leads(re.re(), s@, from@, e),
    decreases re, 0nat,
{
    match re {
        SimpleRe::Empty => {
            proof {
                assert forall|e: int| 0 <= e < from@.len() implies leads(Re::Empty, s@, from@, e)
                    == #[trigger] from@[e] by {
                    lemma_same_places(s@, from@, e);
                }
            }
            either_of(from, from)
        },
        SimpleRe::Then(a, b) => {
            let mid = match_seq(a, s, from);
            proof {
                assert forall|e: int| 0 <= e < from@.len() implies #[trigger] leads(
                    b.re(),
                    s@,
                    mid@,
                    e,
                ) == leads(re.re(), s@, from@, e) by {
                    lemma_then(a.re(), b.re(), s@, from@, mid@, e);
                }
            }
            match_seq(b, s, &mid)
        },
        SimpleRe::Either(a, b) => {
            let one = match_seq(a, s, from);
            let other = match_seq(b, s, from);
            proof {
                assert forall|e: int| 0 <= e < from@.len() implies leads(re.re(), s@, from@, e)
                    == (#[trigger] one@[e] || #[trigger] other@[e]) by {
                    lemma_either(a.re(), b.re(), s@, from@, e);
                }
            }
            either_of(&one, &other)
        },
        SimpleRe::Star(a) => {
            proof {
                assert forall|e: int| 0 <= e < from@.len() implies #[trigger] leads_repeating(
                    a.re(),
                    s@,
                    from@,
                    e,
                ) == leads(re.re(), s@, from@, e) by {
                    lemma_star(a.re(), s@, from@, e);
                }
            }
            step_repeating(a, s, from)
        },
        SimpleRe::Plus(a) => {
            let mid = match_seq(a, s, from);
            proof {
                assert forall|e: int| 0 <= e < from@.len() implies #[trigger] leads_repeating(
                    a.re(),
                    s@,
                    mid@,
                    e,
                ) == leads(re.re(), s@, from@, e) by {
                    lemma_plus(a.re(), s@, from@, mid@, e);
                }
            }
            step_repeating(a, s, &mid)
        },
        SimpleRe::Optional(a) => {
            let one = match_seq(a, s, from);
            proof {
                assert forall|e: int| 0 <= e < from@.len() implies leads(re.re(), s@, from@, e)
                    == (from@[e] || #[trigger] one@[e]) by {
                    lemma_optional(a.re(), s@, from@, e);
                }
            }
            either_of(from, &one)
        },
        _ => step_one(re, s, from),
    }
}

/// Whether a text, all of it, is of the pattern.
pub fn is_accepted(re: &SimpleRe, s: &[char]) -> (r: bool)
    ensures
        r == accepts(re.re(), s@),
{
    let n: usize = s.len();
    let start = only(n, 0);
    let reached = match_seq(re, s, &start);
    proof {
        assert(s@.subrange(0, n as int) =~= s@);
        assert(reached@[n as int] == reached.end);
        if accepts(re.re(), s@) {
            assert(start@[0]);
            assert(leads(re.re(), s@, start@, n as int));
        }
        if leads(re.re(), s@, start@, n as int) {
            let b = choose|b: int|
                0 <= b <= n && #[trigger] start@[b] && accepts(re.re(), s@.subrange(b, n as int));
            assert(b == 0);
        }
    }
    reached.end
}

/// What the pattern written from a place on is, up to the end or, inside brackets, up to the
/// bar or closing bracket that ends it, and where it ends. Anchors say nothing, for a pattern
/// is held to the whole of a value; a closing bracket that closes nothing says nothing either.
pub open spec fn written_seq(s: Seq<char>, i: int, inside: bool) -> Option<(Re, int)>
    decreases s.len() - i, 2nat,
{
    if i < 0 || i >= s.len() {
        Some((Re::Empty, i))
    } else if inside && (s[i] == ')' || s[i] == '|') {
        Some((Re::Empty, i))
    } else if s[i] == '^' || s[i] == '$' || s[i] == ')' {
        written_seq(s, i + 1, inside)
    } else {
        match written_atom(s, i) {
            None => None,
            Some((a, j)) => {
                let (q, k) = quantified(a, s, j);
                if k <= i || k > s.len() {
                    None
                } else {
                    match written_seq(s, k, inside) {
                        None => None,
                        Some((rest, e)) => Some((Re::Then(Box::new(q), Box::new(rest)), e)),
                    }
                }
            },
        }
    }
}

/// The pattern with the sign that may follow it.
pub open spec fn quantified(a: Re, s: Seq<char>, j: int) -> (Re, int) {
    if 0 <= j < s.len() && s[j] == '*' {
        (Re::Star(Box::new(a)), j + 1)
    } else if 0 <= j < s.len() && s[j] == '+' {
        (Re::Plus(Box::new(a)), j + 1)
    } else if 0 <= j < s.len() && s[j] == '?' {
        (Re::Optional(Box::new(a)), j + 1)
    } else {
        (a, j)
    }
}

/// What is written at a place: a sign, an escape, a class or a bracketed pattern; none where
/// an escape is cut short.
pub open spec fn written_atom(s: Seq<char>, i: int) -> Option<(Re, int)>
    decreases s.len() - i, 0nat,
{
    if i < 0 || i >= s.len() {
        None
    } else if s[i] == '.' {
        Some((Re::Any, i + 1))
    } else if s[i] == '\\' {
        if i + 1 >= s.len() {
            None
        } else if s[i + 1] == 'd' {
            Some((Re::Digit, i + 2))
        } else if s[i + 1] == 'w' {
            Some((Re::Word, i + 2))
        } else if s[i + 1] == 's' {
            Some((Re::Space, i + 2))
        } else {
            Some((Re::Char(s[i + 1]), i + 2))
        }
    } else if s[i] == '[' {
        let rest = s.skip(i + 1);
        let n = text::first_at(rest, ']');
        if rest.contains(']') {
            Some((Re::Class(rest.take(n)), i + n + 2))
        } else {
            Some((Re::Class(rest), s.len() as int))
        }
    } else if s[i] == '(' {
        written_group(s, i + 1)
    } else {
        Some((Re::Char(s[i]), i + 1))
    }
}

/// The alternatives that are written from a place on, up to and with the bracket that closes
/// them.
pub open spec fn written_group(s: Seq<char>, i: int) -> Option<(Re, int)>
    decreases s.len() - i, 3nat,
{
    match written_seq(s, i, true) {
        None => None,
        Some((a, j)) => if i <= j < s.len() && s[j] == '|' {
            match written_group(s, j + 1) {
                None => None,
                Some((b, e)) => Some((Re::Either(Box::new(a), Box::new(b)), e)),
            }
        } else if j < s.len() {
            Some((a, j + 1))
        } else {
            Some((a, j))
        },
    }
}

/// The pattern that a text writes, where it writes one.
pub open spec fn written_pattern(s: Seq<char>) -> Option<Re> {
    match written_seq(s, 0, false) {
        Some((re, _)) => Some(re),
        None => None,
    }
}

/// Reads what `written_seq` says.
fn read_seq(cs: &[char], i: usize, inside: bool) -> (r: Option<(SimpleRe, usize)>)
    requires
        i <= cs@.len(),
    ensures
        written_seq(cs@, i as int, inside) == match r {
            Some((a, j)) => Some((a.re(), j as int)),
            None => None,
        },
        r matches Some((a, j)) ==> i <= j <= cs@.len(),
    decreases cs@.len() - i, 2nat,
{
    if i >= cs.len() {
        return Some((SimpleRe::Empty, i));
    }
    if inside && (cs[i] == ')' || cs[i] == '|') {
        return Some((SimpleRe::Empty, i));
    }
    if cs[i] == '^' || cs[i] == '$' || cs[i] == ')' {
        return read_seq(cs, i + 1, inside);
    }
    proof {
        reveal_with_fuel(SimpleRe::re, 2);
    }
    match read_atom(cs, i) {
        None => None,
        Some((a, j)) => {
            let (q, k) = if j < cs.len() && cs[j] == '*' {
                (SimpleRe::Star(Box::new(a)), j + 1)
            } else if j < cs.len() && cs[j] == '+' {
                (SimpleRe::Plus(Box::new(a)), j + 1)
            } else if j < cs.len() && cs[j] == '?' {
                (SimpleRe::Optional(Box::new(a)), j + 1)
            } else {
                (a, j)
            };
            match read_seq(cs, k, inside) {
                None => None,
                Some((rest, e)) => Some((SimpleRe::Then(Box::new(q), Box::new(rest)), e)),
            }
        },
    }
}

/// The pattern for one character.
fn plain(c: char) -> (r: SimpleRe)
    ensures
        r.re() == Re::Char(c),
{
    SimpleRe::Char(c)
}

/// Reads what `written_atom` says.
fn read_atom(cs: &[char], i: usize) -> (r: Option<(SimpleRe, usize)>)
    requires
        i < cs@.len(),
    ensures
        written_atom(cs@, i as int) == match r {
            Some((a, j)) => Some((a.re(), j as int)),
            None => None,
        },
        r matches Some((a, j)) ==> i < j <= cs@.len(),
    decreases cs@.len() - i, 0nat,
{
    let n: usize = cs.len();
    if cs[i] == '.' {
        Some((SimpleRe::Any, i + 1))
    } else if cs[i] == '\\' {
        if i + 1 >= n {
            None
        } else if cs[i + 1] == 'd' {
            Some((SimpleRe::Digit, i + 2))
        } else if cs[i + 1] == 'w' {
            Some((SimpleRe::Word, i + 2))
        } else if cs[i + 1] == 's' {
            Some((SimpleRe::Space, i + 2))
        } else {
            Some((plain(cs[i + 1]), i + 2))
        }
    } else if cs[i] == '[' {
        let rest = text::copy_range(cs, i + 1, n);
        proof {
            assert(rest@ =~= cs@.skip(i + 1));
        }
        let m: usize = text::find_char(&rest, ']');
        proof {
            if m < rest@.len() {
                assert(rest@[m as int] == ']');
            }
            assert(rest@.contains(']') == (m < rest@.len()));
        }
        if m < rest.len() {
            let class = text::copy_range(&rest, 0, m);
            proof {
                assert(class@ =~= rest@.take(m as int));
            }
            Some((SimpleRe::Class(class), i + m + 2))
        } else {
            Some((SimpleRe::Class(rest), n))
        }
    } else if cs[i] == '(' {
        read_group(cs, i + 1)
    } else {
        Some((plain(cs[i]), i + 1))
    }
}

/// Reads what `written_group` says.
fn read_group(cs: &[char], i: usize) -> (r: Option<(SimpleRe, usize)>)
    requires
        i <= cs@.len(),
    ensures
        written_group(cs@, i as int) == match r {
            Some((a, j)) => Some((a.re(), j as int)),
            None => None,
        },
        r matches Some((a, j)) ==> i <= j <= cs@.len(),
    decreases cs@.len() - i, 3nat,
{
    match read_seq(cs, i, true) {
        None => None,
        Some((a, j)) => if j < cs.len() && cs[j] == '|' {
            match read_group(cs, j + 1) {
                None => None,
                Some((b, e)) => Some((SimpleRe::Either(Box::new(a), Box::new(b)), e)),
            }
        } else if j < cs.len() {
            Some((a, j + 1))
        } else {
            Some((a, j))
        },
    }
}

/// The pattern that a text writes, where it writes one.
pub fn parse_simple_regex(s: &str) -> (r: Option<SimpleRe>)
    ensures
        written_pattern(s@) == match r {
            Some(a) => Some(a.re()),
            None => None,
        },
{
    let cs = text::to_chars(s);
    match read_seq(&cs, 0, false) {
        Some((a, _)) => Some(a),
        None => None,
    }
}

/// Whether a value is of a written pattern; a text that writes none stands for itself.
pub open spec fn fits(pat: Seq<char>, value: Seq<char>) -> bool {
    match written_pattern(pat) {
        Some(re) => accepts(re, value),
        None => value == pat,
    }
}

/// Whether a value is of a written pattern.
pub fn pattern_matches(pat: &str, value: &str) -> (r: bool)
    ensures
        r == fits(pat@, value@),
{
    match parse_simple_regex(pat) {
        Some(re) => {
            let cs = text::to_chars(value);
            is_accepted(&re, &cs)
        },
        None => text::same(value, pat),
    }
}

/// Whether a character has no meaning of its own in a pattern.
pub open spec fn is_plain_sign(c: char) -> bool {
    c != '.' && c != '\\' && c != '[' && c != '(' && c != ')' && c != '^' && c != '$' && c != '*'
        && c != '+' && c != '?' && c != '|'
}

/// Whether no character of a text has a meaning of its own in a pattern.
pub open spec fn is_plain_text(s: Seq<char>) -> bool {
    forall|i: int| 0 <= i < s.len() ==> is_plain_sign(#[trigger] s[i])
}

proof fn lemma_plain_part(s: Seq<char>, i: int, inside: bool, e: int) -> (re: Re)
    requires
        0 <= i <= e <= s.len(),
        forall|k: int| i <= k < e ==> is_plain_sign(#[trigger] s[k]),
        e == s.len() || (inside && (s[e] == ')' || s[e] == '|')),
    ensures
        written_seq(s, i, inside) == Some((re, e)),
        forall|v: Seq<char>| #[trigger] accepts(re, v) <==> v == s.subrange(i, e),
    decreases e - i,
{
    if i == e {
        assert forall|v: Seq<char>| #[trigger] accepts(Re::Empty, v) <==> v == s.subrange(i, e) by {
            assert(s.subrange(i, e) =~= Seq::<char>::empty());
            if v.len() == 0 {
                assert(v =~= Seq::<char>::empty());
            }
        }
        Re::Empty
    } else {
        let c = s[i];
        assert(is_plain_sign(c));
        let rest = lemma_plain_part(s, i + 1, inside, e);
        assert(written_atom(s, i) == Some((Re::Char(c), i + 1)));
        if i + 1 < e {
            assert(is_plain_sign(s[i + 1]));
        }
        assert(quantified(Re::Char(c), s, i + 1) == (Re::Char(c), i + 1));
        let re = Re::Then(Box::new(Re::Char(c)), Box::new(rest));
        assert forall|v: Seq<char>| #[trigger] accepts(re, v) <==> v == s.subrange(i, e) by {
            let w = s.subrange(i, e);
            assert(w.skip(1) =~= s.subrange(i + 1, e));
            assert(w.take(1) =~= seq![c]);
            if accepts(re, v) {
                let k = choose|k: int|
                    0 <= k <= v.len() && accepts(Re::Char(c), #[trigger] v.take(k)) && accepts(
                        rest,
                        v.skip(k),
                    );
                assert(v.take(k).len() == k);
                assert(v.take(1)[0] == v[0]);
                assert(v.skip(1) == w.skip(1));
                assert(v =~= seq![v[0]] + v.skip(1));
                assert(w =~= seq![c] + w.skip(1));
            }
            if v == w {
                assert(accepts(Re::Char(c), v.take(1)));
                assert(accepts(rest, v.skip(1)));
            }
        }
        re
    }
}

/// A pattern of characters without a meaning of their own is fit by itself and by nothing else.
pub proof fn plain_patterns_fit_themselves(p: Seq<char>, v: Seq<char>)
    requires
        is_plain_text(p),
    ensures
        fits(p, v) <==> v == p,
{
    let re = lemma_plain_part(p, 0, false, p.len() as int);
    assert(p.subrange(0, p.len() as int) =~= p);
    assert(accepts(re, v) <==> v == p);
}

/// Two alternatives in brackets are fit by the one and by the other, and by nothing else.
pub proof fn alternatives_fit_either(a: Seq<char>, b: Seq<char>, v: Seq<char>)
    requires
        is_plain_text(a),
        is_plain_text(b),
    ensures
        fits(seq!['('] + a + seq!['|'] + b + seq![')'], v) <==> v == a || v == b,
{
    let s = seq!['('] + a + seq!['|'] + b + seq![')'];
    let m = 1 + a.len() as int;
    let n = s.len() as int;
    assert forall|k: int| 1 <= k < m implies is_plain_sign(#[trigger] s[k]) by {
        assert(s[k] == a[k - 1]);
    }
    assert forall|k: int| m + 1 <= k < n - 1 implies is_plain_sign(#[trigger] s[k]) by {
        assert(s[k] == b[k - m - 1]);
    }
    assert(s[m] == '|');
    assert(s[n - 1] == ')');
    let x = lemma_plain_part(s, 1, true, m);
    let y = lemma_plain_part(s, m + 1, true, n - 1);
    assert(s.subrange(1, m) =~= a);
    assert(s.subrange(m + 1, n - 1) =~= b);
    let either = Re::Either(Box::new(x), Box::new(y));
    assert(written_group(s, m + 1) == Some((y, n)));
    assert(written_group(s, 1) == Some((either, n)));
    assert(written_atom(s, 0) == Some((either, n)));
    lemma_one_part(s, either, either, n, v);
    reveal_with_fuel(accepts, 2);
    assert(accepts(x, v) <==> v == a);
    assert(accepts(y, v) <==> v == b);
    assert(accepts(either, v) <==> accepts(x, v) || accepts(y, v));
}

proof fn lemma_one_part(s: Seq<char>, a: Re, q: Re, n: int, v: Seq<char>)
    requires
        s.len() > 0,
        s[0] != '^' && s[0] != '$' && s[0] != ')',
        written_atom(s, 0) == Some((a, n)),
        quantified(a, s, n) == (q, s.len() as int),
    ensures
        fits(s, v) <==> accepts(q, v),
{
    let e = s.len() as int;
    reveal_with_fuel(written_seq, 2);
    assert(written_seq(s, e, false) == Some((Re::Empty, e)));
    let re = Re::Then(Box::new(q), Box::new(Re::Empty));
    assert(written_seq(s, 0, false) == Some((re, e)));
    if accepts(re, v) {
        let k = choose|k: int|
            0 <= k <= v.len() && accepts(q, #[trigger] v.take(k)) && accepts(Re::Empty, v.skip(k));
        assert(v.skip(k).len() == v.len() - k);
        assert(v.take(k) =~= v);
    }
    if accepts(q, v) {
        let k = v.len() as int;
        assert(v.take(k) =~= v);
        assert(v.skip(k).len() == 0);
        assert(accepts(Re::Empty, v.skip(k)));
    }
}

/// Whether a text is one sign of a pattern: a character without a meaning of its own, a dot, an
/// escape, or a class.
pub open spec fn is_sign(p: Seq<char>) -> bool {
    ||| p.len() == 1 && (is_plain_sign(p[0]) || p[0] == '.')
    ||| p.len() == 2 && p[0] == '\\'
    ||| p.len() >= 2 && p[0] == '[' && p.last() == ']' && !p.subrange(1, p.len() - 1).contains(']')
}

/// The characters that a sign stands for.
pub open spec fn sign_takes(p: Seq<char>, c: char) -> bool {
    if p[0] == '[' {
        exists|i: int| 1 <= i < p.len() - 1 && #[trigger] p[i] == c
    } else if p.len() == 1 && p[0] == '.' {
        c != '\n'
    } else if p.len() == 1 {
        p[0] == c
    } else if p[1] == 'd' {
        '0' <= c <= '9'
    } else if p[1] == 'w' {
        '0' <= c <= '9' || 'a' <= c <= 'z' || 'A' <= c <= 'Z' || c == '_'
    } else if p[1] == 's' {
        text::is_space(c)
    } else {
        p[1] == c
    }
}

proof fn lemma_sign_atom(p: Seq<char>, s: Seq<char>) -> (a: Re)
    requires
        is_sign(p),
        s.len() >= p.len(),
        s.take(p.len() as int) == p,
        p[0] != '[' || s.len() <= p.len() + 1,
        s.len() > p.len() ==> s.last() != ']',
    ensures
        written_atom(s, 0) == Some((a, p.len() as int)),
        forall|c: char| #[trigger] takes(a, c) <==> sign_takes(p, c),
        a is Char || a is Any || a is Digit || a is Word || a is Space || a is Class,
        p[0] != '^' && p[0] != '$' && p[0] != ')',
        p[0] == s[0],
{
    assert(s[0] == p[0]);
    if p.len() >= 2 {
        assert(s[1] == p[1]);
    }
    let (a, _) = written_atom(s, 0)->0;
    if p[0] == '[' {
        let rest = s.skip(1);
        let n = p.len() - 2;
        assert(rest[n] == p[n + 1]);
        let inner = p.subrange(1, p.len() - 1);
        assert forall|j: int| 0 <= j < n implies #[trigger] rest[j] != ']' by {
            assert(rest[j] == p[j + 1]);
            assert(inner[j] == p[j + 1]);
            assert(inner.contains(inner[j]));
        }
        text::lemma_first_at(rest, ']', n);
        assert(rest.contains(']'));
        assert(rest.take(n) =~= inner);
        assert forall|c: char| #[trigger] takes(a, c) <==> sign_takes(p, c) by {
            if inner.contains(c) {
                let i = inner.index_of(c);
                assert(p[i + 1] == c);
            }
            if sign_takes(p, c) {
                let i = choose|i: int| 1 <= i < p.len() - 1 && #[trigger] p[i] == c;
                assert(inner[i - 1] == c);
            }
        }
    }
    a
}

/// A sign is fit by one character that it stands for. With a question mark it may be missing, with a
/// star it is fit by any number of such characters, and with a plus sign by one or more.
pub proof fn signs_fit_their_characters(p: Seq<char>, v: Seq<char>)
    requires
        is_sign(p),
    ensures
        fits(p, v) <==> v.len() == 1 && sign_takes(p, v[0]),
        fits(p.push('?'), v) <==> v.len() == 0 || (v.len() == 1 && sign_takes(p, v[0])),
        fits(p.push('*'), v) <==> forall|i: int| 0 <= i < v.len() ==> sign_takes(p, #[trigger] v[i]),
        fits(p.push('+'), v) <==> v.len() > 0 && forall|i: int|
            0 <= i < v.len() ==> sign_takes(p, #[trigger] v[i]),
{
    let n = p.len() as int;
    assert(p.take(n) =~= p);
    let a = lemma_sign_atom(p, p);
    lemma_one_part(p, a, a, n, v);
    assert(p.push('?').take(n) =~= p);
    assert(p.push('*').take(n) =~= p);
    assert(p.push('+').take(n) =~= p);
    let b = lemma_sign_atom(p, p.push('?'));
    lemma_one_part(p.push('?'), b, Re::Optional(Box::new(b)), n, v);
    let c = lemma_sign_atom(p, p.push('*'));
    lemma_one_part(p.push('*'), c, Re::Star(Box::new(c)), n, v);
    lemma_runs(c, v);
    let d = lemma_sign_atom(p, p.push('+'));
    lemma_one_part(p.push('+'), d, Re::Plus(Box::new(d)), n, v);
    lemma_runs(d, v);
    if v.len() > 0 {
        lemma_runs(d, v.skip(1));
    }
    if accepts(Re::Plus(Box::new(d)), v) {
        let k = choose|k: int|
            0 <= k <= v.len() && accepts(d, #[trigger] v.take(k)) && repeats(d, v.skip(k));
        assert(v.take(k).len() == k);
        assert(v.take(1)[0] == v[0]);
        assert forall|i: int| 0 <= i < v.len() implies sign_takes(p, #[trigger] v[i]) by {
            if i > 0 {
                assert(v.skip(1)[i - 1] == v[i]);
                assert(takes(d, v.skip(1)[i - 1]));
            } else {
                assert(takes(d, v[0]));
            }
        }
    }
    if v.len() > 0 && forall|i: int| 0 <= i < v.len() ==> sign_takes(p, #[trigger] v[i]) {
        assert(v.take(1).len() == 1 && v.take(1)[0] == v[0]);
        assert(takes(d, v[0]));
        assert(accepts(d, v.take(1)));
        assert forall|i: int| 0 <= i < v.skip(1).len() implies takes(d, #[trigger] v.skip(1)[i]) by {
            assert(v.skip(1)[i] == v[i + 1]);
        }
        assert(repeats(d, v.skip(1)));
    }
    reveal_with_fuel(accepts, 2);
    assert(accepts(Re::Optional(Box::new(b)), v) <==> v.len() == 0 || accepts(b, v));
    if v.len() == 1 {
        assert(takes(a, v[0]) <==> sign_takes(p, v[0]));
        assert(takes(b, v[0]) <==> sign_takes(p, v[0]));
    }
    if forall|i: int| 0 <= i < v.len() ==> sign_takes(p, #[trigger] v[i]) {
        assert forall|i: int| 0 <= i < v.len() implies takes(c, #[trigger] v[i]) by {}
    }
    if forall|i: int| 0 <= i < v.len() ==> takes(c, #[trigger] v[i]) {
        assert forall|i: int| 0 <= i < v.len() implies sign_takes(p, #[trigger] v[i]) by {
            assert(takes(c, v[i]));
        }
    }
}

proof fn lemma_runs(a: Re, v: Seq<char>)
    requires
        a is Char || a is Any || a is Digit || a is Word || a is Space || a is Class,
    ensures
        repeats(a, v) <==> forall|i: int| 0 <= i < v.len() ==> takes(a, #[trigger] v[i]),
    decreases v.len(),
{
    if v.len() > 0 {
        let w = v.skip(1);
        lemma_runs(a, w);
        if repeats(a, v) {
            let k = choose|k: int|
                0 < k <= v.len() && accepts(a, #[trigger] v.take(k)) && repeats(a, v.skip(k));
            assert(v.take(k).len() == k);
            assert(v.take(1)[0] == v[0]);
            assert forall|i: int| 0 <= i < v.len() implies takes(a, #[trigger] v[i]) by {
                if i > 0 {
                    assert(w[i - 1] == v[i]);
                }
            }
        }
        if forall|i: int| 0 <= i < v.len() ==> takes(a, #[trigger] v[i]) {
            assert forall|i: int| 0 <= i < w.len() implies takes(a, #[trigger] w[i]) by {
                assert(w[i] == v[i + 1]);
            }
            assert(v.take(1).len() == 1 && v.take(1)[0] == v[0]);
            assert(takes(a, v[0]));
            assert(accepts(a, v.take(1)));
            assert(repeats(a, v.skip(1)));
        }
    }
}

/// A text of one pattern with one of another behind it is of the two in a row; of a repeated pattern
/// are all texts made of its texts, among them the empty one and, but for that, just those of which
/// one or more is asked for.
pub proof fn patterns_are_put_together(a: Re, b: Re, x: Seq<char>, y: Seq<char>)
    ensures
        accepts(a, x) && accepts(b, y) ==> accepts(Re::Then(Box::new(a), Box::new(b)), x + y),
        accepts(Re::Either(Box::new(a), Box::new(b)), x) <==> accepts(a, x) || accepts(b, x),
        accepts(Re::Optional(Box::new(a)), x) <==> x.len() == 0 || accepts(a, x),
        accepts(Re::Star(Box::new(a)), x) <==> x.len() == 0 || accepts(Re::Plus(Box::new(a)), x),
        accepts(a, x) && accepts(Re::Star(Box::new(a)), y) ==> accepts(
            Re::Plus(Box::new(a)),
            x + y,
        ),
        accepts(a, x) ==> accepts(Re::Plus(Box::new(a)), x),
{
    let s = x + y;
    let k = x.len() as int;
    assert(s.take(k) =~= x);
    assert(s.skip(k) =~= y);
    let e = Seq::<char>::empty();
    assert(x.take(k) =~= x);
    assert(x.skip(k) =~= e);
    assert(repeats(a, e));
    reveal_with_fuel(accepts, 2);
    reveal_with_fuel(repeats, 2);
    assert(accepts(Re::Star(Box::new(a)), x) <==> repeats(a, x));
    if accepts(Re::Plus(Box::new(a)), x) {
        let j = choose|j: int|
            0 <= j <= x.len() && accepts(a, #[trigger] x.take(j)) && repeats(a, x.skip(j));
        if j == 0 {
            assert(x.skip(j) =~= x);
        }
    }
}

} // verus!
