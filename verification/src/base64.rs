//! Base64: bytes as text of sixty-four characters.
use crate::text;
use crate::text::CharClass;
use vstd::prelude::*;

verus! {

/// The six-bit groups of bytes, the last one filled up with zero bits.
pub open spec fn groups_of(b: Seq<u8>) -> Seq<nat>
    decreases b.len(),
{
    if b.len() == 0 {
        Seq::empty()
    } else if b.len() == 1 {
        seq![(b[0] / 4) as nat, ((b[0] % 4) * 16) as nat]
    } else if b.len() == 2 {
        seq![
            (b[0] / 4) as nat,
            ((b[0] % 4) * 16 + b[1] / 16) as nat,
            ((b[1] % 16) * 4) as nat,
        ]
    } else {
        seq![
            (b[0] / 4) as nat,
            ((b[0] % 4) * 16 + b[1] / 16) as nat,
            ((b[1] % 16) * 4 + b[2] / 64) as nat,
            (b[2] % 64) as nat,
        ] + groups_of(b.skip(3))
    }
}

/// The bytes of six-bit groups; bits that fill no byte are dropped.
pub open spec fn bytes_of(v: Seq<nat>) -> Seq<u8>
    decreases v.len(),
{
    if v.len() <= 1 {
        Seq::empty()
    } else if v.len() == 2 {
        seq![(v[0] * 4 + v[1] / 16) as u8]
    } else if v.len() == 3 {
        seq![(v[0] * 4 + v[1] / 16) as u8, ((v[1] % 16) * 16 + v[2] / 4) as u8]
    } else {
        seq![
            (v[0] * 4 + v[1] / 16) as u8,
            ((v[1] % 16) * 16 + v[2] / 4) as u8,
            ((v[2] % 4) * 64 + v[3]) as u8,
        ] + bytes_of(v.skip(4))
    }
}

/// The character of a six-bit group.
pub open spec fn group_char(v: nat) -> char {
    if v < 26 {
        (65 + v) as char
    } else if v < 52 {
        (71 + v) as char
    } else if v < 62 {
        (v - 4) as char
    } else if v == 62 {
        '+'
    } else {
        '/'
    }
}

/// The six-bit group that a character stands for. The two last characters have a second form,
/// for addresses.
pub open spec fn char_group(c: char) -> Option<nat> {
    let n = c as int;
    if 65 <= n <= 90 {
        Some((n - 65) as nat)
    } else if 97 <= n <= 122 {
        Some((n - 71) as nat)
    } else if 48 <= n <= 57 {
        Some((n + 4) as nat)
    } else if c == '+' || c == '-' {
        Some(62)
    } else if c == '/' || c == '_' {
        Some(63)
    } else {
        None
    }
}

/// The padding behind the text of so many bytes.
pub open spec fn padding(n: nat) -> Seq<char> {
    if n % 3 == 1 {
        seq!['=', '=']
    } else if n % 3 == 2 {
        seq!['=']
    } else {
        Seq::empty()
    }
}

/// The text of bytes.
pub open spec fn base64_text(b: Seq<u8>) -> Seq<char> {
    groups_of(b).map_values(|v: nat| group_char(v)) + padding(b.len())
}

/// The groups of the characters of a text, or `None` where one of them stands for none.
pub open spec fn text_groups(s: Seq<char>) -> Option<Seq<nat>>
    decreases s.len(),
{
    if s.len() == 0 {
        Some(Seq::empty())
    } else {
        match (text_groups(s.drop_last()), char_group(s.last())) {
            (Some(v), Some(g)) => Some(v.push(g)),
            _ => None,
        }
    }
}

/// Whether a character is no white space.
pub open spec fn no_space() -> spec_fn(char) -> bool {
    |c: char| !CharClass::AsciiSpace.has_char(c)
}

/// The bytes that a text stands for: white space is passed over, padding at the end is dropped,
/// and any character that stands for no group spoils the text.
pub open spec fn base64_bytes(s: Seq<char>) -> Option<Seq<u8>> {
    let body = text::chop_class(s.filter(no_space()), CharClass::Is('='));
    match text_groups(body) {
        Some(v) => Some(bytes_of(v)),
        None => None,
    }
}

spec fn small_view(v: Seq<u8>) -> Seq<nat> {
    v.map_values(|g: u8| g as nat)
}

fn write_group(v: u8) -> (r: char)
    requires
        v < 64,
    ensures
        r == group_char(v as nat),
{
    if v < 26 {
        (65 + v) as char
    } else if v < 52 {
        (71 + v) as char
    } else if v < 62 {
        (v - 4) as char
    } else if v == 62 {
        '+'
    } else {
        '/'
    }
}

/// The six-bit groups of bytes.
fn split_groups(b: &[u8]) -> (r: Vec<u8>)
    ensures
        small_view(r@) == groups_of(b@),
        forall|i: int| 0 <= i < r@.len() ==> #[trigger] r@[i] < 64,
{
    let mut out: Vec<u8> = Vec::new();
    let mut i: usize = 0;
    let n: usize = b.len();
    proof {
        assert(b@.skip(0) =~= b@);
        assert(small_view(out@) + groups_of(b@.skip(0)) =~= groups_of(b@));
    }
    while n - i >= 3
        invariant
            n == b@.len(),
            i <= n,
            small_view(out@) + groups_of(b@.skip(i as int)) == groups_of(b@),
            forall|k: int| 0 <= k < out@.len() ==> #[trigger] out@[k] < 64,
        decreases n - i,
    {
        let ghost before = small_view(out@);
        let ghost rest = b@.skip(i as int);
        let x: u8 = b[i];
        let y: u8 = b[i + 1];
        let z: u8 = b[i + 2];
        out.push(x / 4);
        out.push((x % 4) * 16 + y / 16);
        out.push((y % 16) * 4 + z / 64);
        out.push(z % 64);
        proof {
            assert(rest[0] == x && rest[1] == y && rest[2] == z);
            assert(rest.skip(3) =~= b@.skip(i + 3));
            let four = seq![
                (x / 4) as nat,
                ((x % 4) * 16 + y / 16) as nat,
                ((y % 16) * 4 + z / 64) as nat,
                (z % 64) as nat,
            ];
            assert(groups_of(rest) == four + groups_of(b@.skip(i + 3)));
            assert(small_view(out@) =~= before + four);
            assert(small_view(out@) + groups_of(b@.skip(i + 3)) =~= before + groups_of(rest));
        }
        i = i + 3;
    }
    let ghost before = small_view(out@);
    let ghost rest = b@.skip(i as int);
    if n - i == 1 {
        let x: u8 = b[i];
        out.push(x / 4);
        out.push((x % 4) * 16);
        proof {
            assert(rest[0] == x);
            assert(groups_of(rest) == seq![(x / 4) as nat, ((x % 4) * 16) as nat]);
            assert(small_view(out@) =~= before + groups_of(rest));
        }
    } else if n - i == 2 {
        let x: u8 = b[i];
        let y: u8 = b[i + 1];
        out.push(x / 4);
        out.push((x % 4) * 16 + y / 16);
        out.push((y % 16) * 4);
        proof {
            assert(rest[0] == x && rest[1] == y);
            assert(groups_of(rest) == seq![
                (x / 4) as nat,
                ((x % 4) * 16 + y / 16) as nat,
                ((y % 16) * 4) as nat,
            ]);
            assert(small_view(out@) =~= before + groups_of(rest));
        }
    } else {
        proof {
            assert(groups_of(rest) =~= Seq::empty());
            assert(small_view(out@) =~= before + groups_of(rest));
        }
    }
    out
}

/// The base64 text of bytes.
pub fn base64_encode(b: &[u8]) -> (r: String)
    ensures
        r@ == base64_text(b@),
{
    let groups = split_groups(b);
    let ghost goal = groups_of(b@).map_values(|v: nat| group_char(v));
    let mut out: Vec<char> = Vec::new();
    let mut i: usize = 0;
    proof {
        assert(small_view(groups@).len() == groups@.len());
    }
    while i < groups.len()
        invariant
            i <= groups@.len(),
            small_view(groups@) == groups_of(b@),
            goal == groups_of(b@).map_values(|v: nat| group_char(v)),
            forall|k: int| 0 <= k < groups@.len() ==> #[trigger] groups@[k] < 64,
            out@ == goal.take(i as int),
        decreases groups@.len() - i,
    {
        let c = write_group(groups[i]);
        out.push(c);
        proof {
            assert(small_view(groups@)[i as int] == groups@[i as int] as nat);
            assert(goal[i as int] == c);
            assert(goal.take(i + 1) =~= goal.take(i as int).push(c));
        }
        i = i + 1;
    }
    proof {
        assert(goal.take(goal.len() as int) =~= goal);
    }
    let rem: usize = b.len() % 3;
    if rem == 1 {
        out.push('=');
        out.push('=');
    } else if rem == 2 {
        out.push('=');
    }
    proof {
        assert(out@ =~= base64_text(b@));
    }
    text::to_text(&out)
}

fn read_group(c: char) -> (r: Option<u8>)
    ensures
        r matches Some(g) ==> g < 64 && char_group(c) == Some(g as nat),
        r is None ==> char_group(c) is None,
{
    let n: u32 = c as u32;
    if 65 <= n && n <= 90 {
        Some((n - 65) as u8)
    } else if 97 <= n && n <= 122 {
        Some((n - 71) as u8)
    } else if 48 <= n && n <= 57 {
        Some((n + 4) as u8)
    } else if c == '+' || c == '-' {
        Some(62)
    } else if c == '/' || c == '_' {
        Some(63)
    } else {
        None
    }
}

/// The bytes of six-bit groups.
fn join_groups(v: &[u8]) -> (r: Vec<u8>)
    requires
        forall|i: int| 0 <= i < v@.len() ==> #[trigger] v@[i] < 64,
    ensures
        r@ == bytes_of(small_view(v@)),
{
    let ghost g = small_view(v@);
    let n: usize = v.len();
    let mut out: Vec<u8> = Vec::new();
    let mut i: usize = 0;
    proof {
        assert(g.skip(0) =~= g);
        assert(out@ + bytes_of(g.skip(0)) =~= bytes_of(g));
    }
    while n - i >= 4
        invariant
            n == v@.len(),
            i <= n,
            g == small_view(v@),
            forall|k: int| 0 <= k < v@.len() ==> #[trigger] v@[k] < 64,
            out@ + bytes_of(g.skip(i as int)) == bytes_of(g),
        decreases n - i,
    {
        let ghost before = out@;
        let ghost rest = g.skip(i as int);
        let a: u8 = v[i];
        let b: u8 = v[i + 1];
        let c: u8 = v[i + 2];
        let d: u8 = v[i + 3];
        out.push(a * 4 + b / 16);
        out.push((b % 16) * 16 + c / 4);
        out.push((c % 4) * 64 + d);
        proof {
            assert(rest[0] == a as nat && rest[1] == b as nat && rest[2] == c as nat && rest[3]
                == d as nat);
            assert(rest.skip(4) =~= g.skip(i + 4));
            let three = seq![
                (a * 4 + b / 16) as u8,
                ((b % 16) * 16 + c / 4) as u8,
                ((c % 4) * 64 + d) as u8,
            ];
            assert(bytes_of(rest) == three + bytes_of(g.skip(i + 4)));
            assert(out@ =~= before + three);
            assert(out@ + bytes_of(g.skip(i + 4)) =~= before + bytes_of(rest));
        }
        i = i + 4;
    }
    let ghost before = out@;
    let ghost rest = g.skip(i as int);
    if n - i >= 2 {
        let a: u8 = v[i];
        let b: u8 = v[i + 1];
        out.push(a * 4 + b / 16);
        if n - i == 3 {
            let c: u8 = v[i + 2];
            out.push((b % 16) * 16 + c / 4);
            proof {
                assert(rest[0] == a as nat && rest[1] == b as nat && rest[2] == c as nat);
                assert(out@ =~= before + bytes_of(rest));
            }
        } else {
            proof {
                assert(rest[0] == a as nat && rest[1] == b as nat);
                assert(out@ =~= before + bytes_of(rest));
            }
        }
    } else {
        proof {
            assert(bytes_of(rest) =~= Seq::empty());
            assert(out@ =~= before + bytes_of(rest));
        }
    }
    out
}

/// Where a beginning of a text has no groups, neither has the whole.
proof fn lemma_groups_stop(s: Seq<char>, n: int)
    requires
        0 <= n <= s.len(),
        text_groups(s.take(n)) is None,
    ensures
        text_groups(s) is None,
    decreases s.len(),
{
    if n < s.len() {
        assert(s.drop_last().take(n) =~= s.take(n));
        lemma_groups_stop(s.drop_last(), n);
    } else {
        assert(s.take(n) =~= s);
    }
}

/// The bytes that a base64 text stands for.
pub fn base64_decode(s: &str) -> (r: Option<Vec<u8>>)
    ensures
        base64_bytes(s@) == match r {
            Some(v) => Some(v@),
            None => None,
        },
{
    let cs = text::to_chars(s);
    let mut kept: Vec<char> = Vec::new();
    let mut i: usize = 0;
    let ghost p = no_space();
    proof {
        reveal(Seq::filter);
        assert(cs@.take(0).filter(p) =~= Seq::empty());
    }
    while i < cs.len()
        invariant
            i <= cs@.len(),
            p == no_space(),
            kept@ == cs@.take(i as int).filter(p),
        decreases cs@.len() - i,
    {
        proof {
            reveal(Seq::filter);
            assert(cs@.take(i + 1).drop_last() =~= cs@.take(i as int));
            assert(cs@.take(i + 1).last() == cs@[i as int]);
        }
        if !CharClass::AsciiSpace.test(cs[i]) {
            kept.push(cs[i]);
        }
        i = i + 1;
    }
    proof {
        assert(cs@.take(cs@.len() as int) =~= cs@);
    }
    let body = text::chop_back(&kept, CharClass::Is('='));
    let mut groups: Vec<u8> = Vec::new();
    let mut k: usize = 0;
    proof {
        assert(small_view(groups@) =~= Seq::empty());
    }
    while k < body.len()
        invariant
            k <= body@.len(),
            body@ == text::chop_class(s@.filter(no_space()), CharClass::Is('=')),
            text_groups(body@.take(k as int)) == Some(small_view(groups@)),
            forall|j: int| 0 <= j < groups@.len() ==> #[trigger] groups@[j] < 64,
        decreases body@.len() - k,
    {
        proof {
            assert(body@.take(k + 1).drop_last() =~= body@.take(k as int));
            assert(body@.take(k + 1).last() == body@[k as int]);
        }
        match read_group(body[k]) {
            None => {
                proof {
                    lemma_groups_stop(body@, k + 1);
                }
                return None;
            },
            Some(g) => {
                let ghost prev = groups@;
                groups.push(g);
                proof {
                    assert(small_view(groups@) =~= small_view(prev).push(g as nat));
                }
            },
        }
        k = k + 1;
    }
    proof {
        assert(body@.take(body@.len() as int) =~= body@);
    }
    Some(join_groups(&groups))
}

/// The groups of bytes join into the bytes again.
proof fn lemma_groups_join(b: Seq<u8>)
    ensures
        bytes_of(groups_of(b)) == b,
        forall|i: int| 0 <= i < groups_of(b).len() ==> #[trigger] groups_of(b)[i] < 64,
    decreases b.len(),
{
    let g = groups_of(b);
    if b.len() == 0 {
        assert(bytes_of(g) =~= b);
    } else if b.len() == 1 {
        assert(bytes_of(g) =~= b);
    } else if b.len() == 2 {
        assert(bytes_of(g) =~= b);
    } else {
        let rest = b.skip(3);
        lemma_groups_join(rest);
        assert(g.skip(4) =~= groups_of(rest));
        assert(bytes_of(g) =~= seq![b[0], b[1], b[2]] + rest);
        assert(seq![b[0], b[1], b[2]] + rest =~= b);
        assert forall|i: int| 0 <= i < g.len() implies #[trigger] g[i] < 64 by {
            if i >= 4 {
                assert(g[i] == groups_of(rest)[i - 4]);
            }
        }
    }
}

proof fn lemma_group_char(v: nat)
    requires
        v < 64,
    ensures
        char_group(group_char(v)) == Some(v),
        group_char(v) != '=',
        !CharClass::AsciiSpace.has_char(group_char(v)),
{
}

proof fn lemma_text_groups(v: Seq<nat>)
    requires
        forall|i: int| 0 <= i < v.len() ==> #[trigger] v[i] < 64,
    ensures
        text_groups(v.map_values(|g: nat| group_char(g))) == Some(v),
    decreases v.len(),
{
    let f = |g: nat| group_char(g);
    let s = v.map_values(f);
    if v.len() > 0 {
        let u = v.drop_last();
        assert forall|i: int| 0 <= i < u.len() implies #[trigger] u[i] < 64 by {
            assert(u[i] == v[i]);
        }
        lemma_text_groups(u);
        assert(s.drop_last() =~= u.map_values(f));
        assert(v[v.len() - 1] < 64);
        lemma_group_char(v.last());
        assert(s.last() == group_char(v.last()));
        assert(u.push(v.last()) =~= v);
    } else {
        assert(s =~= Seq::empty());
        assert(v =~= Seq::empty());
    }
}

proof fn lemma_filter_all(s: Seq<char>)
    requires
        forall|i: int| 0 <= i < s.len() ==> no_space()(#[trigger] s[i]),
    ensures
        s.filter(no_space()) == s,
    decreases s.len(),
{
    reveal(Seq::filter);
    if s.len() > 0 {
        let u = s.drop_last();
        assert forall|i: int| 0 <= i < u.len() implies no_space()(#[trigger] u[i]) by {
            assert(u[i] == s[i]);
        }
        lemma_filter_all(u);
        assert(no_space()(s[s.len() - 1]));
        assert(u.push(s.last()) =~= s);
    } else {
        assert(s.filter(no_space()) =~= s);
    }
}

/// The text of bytes stands for those bytes.
pub proof fn encoded_bytes_decode(b: Seq<u8>)
    ensures
        base64_bytes(base64_text(b)) == Some(b),
{
    lemma_groups_join(b);
    let g = groups_of(b);
    let f = |v: nat| group_char(v);
    let head = g.map_values(f);
    let s = base64_text(b);
    let k = CharClass::Is('=');
    assert forall|i: int| 0 <= i < s.len() implies no_space()(#[trigger] s[i]) by {
        if i < head.len() {
            assert(g[i] < 64);
            lemma_group_char(g[i]);
            assert(s[i] == group_char(g[i]));
        }
    }
    lemma_filter_all(s);
    if head.len() > 0 {
        assert(g[g.len() - 1] < 64);
        lemma_group_char(g[g.len() - 1]);
        assert(head.last() == group_char(g[g.len() - 1]));
    }
    assert(text::chop_class(head, k) == head);
    let pad = padding(b.len());
    assert(text::chop_class(s, k) == head) by {
        if pad.len() == 0 {
            assert(s =~= head);
        } else if pad.len() == 1 {
            assert(s.last() == '=');
            assert(s.drop_last() =~= head);
        } else {
            assert(s.last() == '=');
            let u = s.drop_last();
            assert(u.last() == '=');
            assert(u.drop_last() =~= head);
            assert(text::chop_class(s, k) == text::chop_class(u, k));
            assert(text::chop_class(u, k) == text::chop_class(head, k));
        }
    }
    lemma_text_groups(g);
}

/// The form for addresses of a character: the two last ones have another.
pub open spec fn address_form(c: char) -> char {
    if c == '+' {
        '-'
    } else if c == '/' {
        '_'
    } else {
        c
    }
}

/// A text in the form for addresses.
pub open spec fn in_address_form(s: Seq<char>) -> Seq<char> {
    s.map_values(|c: char| address_form(c))
}

proof fn lemma_form_groups(s: Seq<char>)
    ensures
        text_groups(in_address_form(s)) == text_groups(s),
    decreases s.len(),
{
    if s.len() > 0 {
        lemma_form_groups(s.drop_last());
        assert(in_address_form(s).drop_last() =~= in_address_form(s.drop_last()));
        assert(in_address_form(s).last() == address_form(s.last()));
    } else {
        assert(in_address_form(s) =~= s);
    }
}

proof fn lemma_form_filter(s: Seq<char>)
    ensures
        in_address_form(s).filter(no_space()) == in_address_form(s.filter(no_space())),
    decreases s.len(),
{
    reveal(Seq::filter);
    if s.len() > 0 {
        let u = s.drop_last();
        lemma_form_filter(u);
        assert(in_address_form(s).drop_last() =~= in_address_form(u));
        assert(in_address_form(s).last() == address_form(s.last()));
        assert(in_address_form(u.filter(no_space()).push(s.last())) =~= in_address_form(
            u.filter(no_space()),
        ).push(address_form(s.last())));
    } else {
        assert(in_address_form(s) =~= s);
        assert(s.filter(no_space()) =~= s);
    }
}

proof fn lemma_form_chop(s: Seq<char>)
    ensures
        text::chop_class(in_address_form(s), CharClass::Is('=')) == in_address_form(
            text::chop_class(s, CharClass::Is('=')),
        ),
    decreases s.len(),
{
    if s.len() > 0 {
        assert(in_address_form(s).last() == address_form(s.last()));
        assert(in_address_form(s).drop_last() =~= in_address_form(s.drop_last()));
        lemma_form_chop(s.drop_last());
    }
}

proof fn lemma_filter_twice(s: Seq<char>)
    ensures
        s.filter(no_space()).filter(no_space()) == s.filter(no_space()),
{
    let f = s.filter(no_space());
    assert forall|i: int| 0 <= i < f.len() implies no_space()(#[trigger] f[i]) by {
        s.lemma_filter_pred(no_space(), i);
    }
    lemma_filter_all(f);
}

/// A text stands for the same bytes without its white space, with more padding behind it, and in
/// the form for addresses.
pub proof fn loose_texts_decode(s: Seq<char>)
    ensures
        base64_bytes(s.filter(no_space())) == base64_bytes(s),
        base64_bytes(s.push('=')) == base64_bytes(s),
        base64_bytes(in_address_form(s)) == base64_bytes(s),
{
    lemma_filter_twice(s);
    assert(s.push('=').filter(no_space()) == s.filter(no_space()).push('=')) by {
        reveal(Seq::filter);
        assert(s.push('=').drop_last() =~= s);
    }
    let f = s.filter(no_space());
    assert(f.push('=').drop_last() =~= f);
    assert(text::chop_class(f.push('='), CharClass::Is('=')) == text::chop_class(
        f,
        CharClass::Is('='),
    ));
    lemma_form_filter(s);
    lemma_form_chop(f);
    lemma_form_groups(text::chop_class(f, CharClass::Is('=')));
}

/// Bytes are read from any text that is theirs but for white space, padding and the form of the two
/// last characters.
pub proof fn encoded_bytes_decode_loosely(b: Seq<u8>, s: Seq<char>)
    requires
        ({
            let k = CharClass::Is('=');
            in_address_form(text::chop_class(s.filter(no_space()), k)) == in_address_form(
                text::chop_class(base64_text(b).filter(no_space()), k),
            )
        }),
    ensures
        base64_bytes(s) == Some(b),
{
    let k = CharClass::Is('=');
    encoded_bytes_decode(b);
    lemma_form_groups(text::chop_class(s.filter(no_space()), k));
    lemma_form_groups(text::chop_class(base64_text(b).filter(no_space()), k));
}

/// Four characters stand for each three bytes, or part of three.
pub proof fn encoded_length(b: Seq<u8>)
    ensures
        base64_text(b).len() == 4 * ((b.len() + 2) / 3),
    decreases b.len(),
{
    lemma_groups_length(b);
}

proof fn lemma_groups_length(b: Seq<u8>)
    ensures
        groups_of(b).len() + padding(b.len()).len() == 4 * ((b.len() + 2) / 3),
    decreases b.len(),
{
    if b.len() >= 3 {
        lemma_groups_length(b.skip(3));
    }
}

/// The characters of the groups are the capital letters, the small letters, the digits, the plus sign
/// and the slash, in this order.
pub proof fn groups_have_their_characters(v: nat)
    requires
        v < 64,
    ensures
        v < 26 ==> group_char(v) as int == 'A' as int + v,
        26 <= v < 52 ==> group_char(v) as int == 'a' as int + (v - 26),
        52 <= v < 62 ==> group_char(v) as int == '0' as int + (v - 52),
        v == 62 ==> group_char(v) == '+',
        v == 63 ==> group_char(v) == '/',
        char_group(group_char(v)) == Some(v),
        char_group(address_form(group_char(v))) == Some(v),
        char_group('=') is None,
{
}

/// Three bytes and their four groups are the same number, the first counting most; a text is that of
/// its first three bytes and then that of the others.
pub proof fn groups_hold_the_bits(b: Seq<u8>)
    requires
        b.len() >= 3,
    ensures
        groups_of(b.take(3)).len() == 4,
        b[0] as int * 65536 + b[1] as int * 256 + b[2] as int == groups_of(b.take(3))[0] * 262144
            + groups_of(b.take(3))[1] * 4096 + groups_of(b.take(3))[2] * 64 + groups_of(
            b.take(3),
        )[3],
        forall|i: int| 0 <= i < 4 ==> #[trigger] groups_of(b.take(3))[i] < 64,
        base64_text(b) == base64_text(b.take(3)) + base64_text(b.skip(3)),
        !base64_text(b.take(3)).contains('='),
{
    let h = b.take(3);
    assert(h.skip(3) =~= Seq::<u8>::empty());
    reveal_with_fuel(groups_of, 2);
    let g = groups_of(h);
    assert(g =~= seq![
        (b[0] / 4) as nat,
        ((b[0] % 4) * 16 + b[1] / 16) as nat,
        ((b[1] % 16) * 4 + b[2] / 64) as nat,
        (b[2] % 64) as nat,
    ]);
    assert(groups_of(b) =~= g + groups_of(b.skip(3)));
    assert(padding(h.len()) =~= Seq::<char>::empty());
    assert(padding(b.len()) == padding(b.skip(3).len()));
    assert(base64_text(b) =~= base64_text(h) + base64_text(b.skip(3)));
    let s = base64_text(h);
    assert forall|i: int| 0 <= i < s.len() implies s[i] != '=' by {
        assert(s[i] == group_char(g[i]));
        groups_have_their_characters(g[i]);
    }
}

} // verus!
