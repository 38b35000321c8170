//! Text as a sequence of characters: cutting, trimming, joining and changing the case of it,
//! and reading and writing whole numbers.
use vstd::prelude::*;
use vstd::string::*;

verus! {

/// The characters of each string of a list.
pub open spec fn texts(v: Seq<String>) -> Seq<Seq<char>> {
    v.map_values(|s: String| s@)
}

/// The characters of both strings of each pair of a list.
pub open spec fn pair_texts(v: Seq<(String, String)>) -> Seq<(Seq<char>, Seq<char>)> {
    v.map_values(|p: (String, String)| (p.0@, p.1@))
}

/// The characters of each piece of a list.
pub open spec fn pieces_view(v: Seq<Vec<char>>) -> Seq<Seq<char>> {
    v.map_values(|p: Vec<char>| p@)
}

/// The characters of an optional string.
pub open spec fn opt_text(s: Option<String>) -> Option<Seq<char>> {
    match s {
        Some(t) => Some(t@),
        None => None,
    }
}

/// `String::push` of std appends the character to the end of the string.
#[verifier::external_body]
pub(crate) fn push_char(s: &mut String, c: char)
    ensures
        final(s)@ == old(s)@.push(c),
{
    s.push(c);
}

/// The characters of a string, in order.
pub fn to_chars(s: &str) -> (r: Vec<char>)
    ensures
        r@ == s@,
{
    let mut out: Vec<char> = Vec::new();
    for c in it: s.chars()
        invariant
            it.seq() == s@,
            out@ == s@.take(it.index()),
    {
        proof {
            assert(s@.take(it.index() + 1) =~= s@.take(it.index()).push(s@[it.index()]));
        }
        out.push(c);
    }
    proof {
        assert(s@.take(s@.len() as int) =~= s@);
    }
    out
}

/// The string made of the given characters.
pub fn to_text(cs: &[char]) -> (r: String)
    ensures
        r@ == cs@,
{
    let mut out = String::new();
    let mut i: usize = 0;
    while i < cs.len()
        invariant
            i <= cs@.len(),
            out@ == cs@.take(i as int),
        decreases cs@.len() - i,
    {
        push_char(&mut out, cs[i]);
        proof {
            assert(cs@.take(i + 1) =~= cs@.take(i as int).push(cs@[i as int]));
        }
        i = i + 1;
    }
    proof {
        assert(cs@.take(cs@.len() as int) =~= cs@);
    }
    out
}

/// Whether two character lists are the same.
pub fn same_chars(a: &[char], b: &[char]) -> (r: bool)
    ensures
        r == (a@ == b@),
{
    if a.len() != b.len() {
        return false;
    }
    let mut i: usize = 0;
    while i < a.len()
        invariant
            i <= a@.len(),
            a@.len() == b@.len(),
            forall|j: int| 0 <= j < i ==> a@[j] == b@[j],
        decreases a@.len() - i,
    {
        if a[i] != b[i] {
            return false;
        }
        i = i + 1;
    }
    proof {
        assert(a@ =~= b@);
    }
    true
}

/// Whether two strings are the same.
pub fn same(a: &str, b: &str) -> (r: bool)
    ensures
        r == (a@ == b@),
{
    let x = to_chars(a);
    let y = to_chars(b);
    same_chars(&x, &y)
}


/// An owned copy of a string.
pub fn copy(s: &str) -> (r: String)
    ensures
        r@ == s@,
{
    s.to_owned()
}

/// A sort of character at which text is cut or trimmed.
#[derive(Clone, Copy)]
pub enum CharClass {
    /// The characters with Unicode's `White_Space` property.
    Space,
    /// The white space of ASCII: space, tab, line feed, form feed, carriage return.
    AsciiSpace,
    /// One character.
    Is(char),
}

/// Unicode's `White_Space` property.
pub open spec fn is_space(c: char) -> bool {
    let n = c as u32;
    ||| 0x09 <= n <= 0x0d
    ||| n == 0x20
    ||| n == 0x85
    ||| n == 0xa0
    ||| n == 0x1680
    ||| 0x2000 <= n <= 0x200a
    ||| n == 0x2028
    ||| n == 0x2029
    ||| n == 0x202f
    ||| n == 0x205f
    ||| n == 0x3000
}

/// Whether a character is white space.
pub fn char_is_space(c: char) -> (r: bool)
    ensures
        r == is_space(c),
{
    let n: u32 = c as u32;
    (0x09 <= n && n <= 0x0d) || n == 0x20 || n == 0x85 || n == 0xa0 || n == 0x1680 || (0x2000 <= n
        && n <= 0x200a) || n == 0x2028 || n == 0x2029 || n == 0x202f || n == 0x205f || n == 0x3000
}

impl CharClass {
    /// Whether the class has the character.
    pub open spec fn has_char(self, c: char) -> bool {
        match self {
            CharClass::Space => is_space(c),
            CharClass::AsciiSpace => c == ' ' || c == '\t' || c == '\n' || c == '\x0C' || c == '\r',
            CharClass::Is(d) => c == d,
        }
    }

    /// Tests whether the class has the character.
    pub fn test(self, c: char) -> (r: bool)
        ensures
            r == self.has_char(c),
    {
        match self {
            CharClass::Space => char_is_space(c),
            CharClass::AsciiSpace => c == ' ' || c == '\t' || c == '\n' || c == '\x0C' || c == '\r',
            CharClass::Is(d) => c == d,
        }
    }
}

/// What is left of a text once the leading characters of a class are gone.
pub open spec fn skip_class(s: Seq<char>, k: CharClass) -> Seq<char>
    decreases s.len(),
{
    if s.len() > 0 && k.has_char(s[0]) {
        skip_class(s.skip(1), k)
    } else {
        s
    }
}

/// What is left of a text once the trailing characters of a class are gone.
pub open spec fn chop_class(s: Seq<char>, k: CharClass) -> Seq<char>
    decreases s.len(),
{
    if s.len() > 0 && k.has_char(s.last()) {
        chop_class(s.drop_last(), k)
    } else {
        s
    }
}

/// A text without the characters of a class at either end.
pub open spec fn trim_class(s: Seq<char>, k: CharClass) -> Seq<char> {
    chop_class(skip_class(s, k), k)
}

/// A text without the white space at either end.
pub open spec fn trimmed(s: Seq<char>) -> Seq<char> {
    trim_class(s, CharClass::Space)
}

/// Drops the leading characters of a class.
pub fn skip_front(cs: &[char], k: CharClass) -> (r: Vec<char>)
    ensures
        r@ == skip_class(cs@, k),
{
    let mut i: usize = 0;
    proof {
        assert(cs@.skip(0) =~= cs@);
    }
    while i < cs.len() && k.test(cs[i])
        invariant
            i <= cs@.len(),
            skip_class(cs@, k) == skip_class(cs@.skip(i as int), k),
        decreases cs@.len() - i,
    {
        proof {
            assert(cs@.skip(i as int).skip(1) =~= cs@.skip(i + 1));
        }
        i = i + 1;
    }
    copy_range(cs, i, cs.len())
}

/// Drops the trailing characters of a class.
pub fn chop_back(cs: &[char], k: CharClass) -> (r: Vec<char>)
    ensures
        r@ == chop_class(cs@, k),
{
    let mut n: usize = cs.len();
    proof {
        assert(cs@.take(n as int) =~= cs@);
    }
    while n > 0 && k.test(cs[n - 1])
        invariant
            n <= cs@.len(),
            chop_class(cs@, k) == chop_class(cs@.take(n as int), k),
        decreases n,
    {
        proof {
            assert(cs@.take(n as int).drop_last() =~= cs@.take(n - 1));
        }
        n = n - 1;
    }
    proof {
        assert(cs@.take(n as int) =~= cs@.subrange(0, n as int));
    }
    copy_range(cs, 0, n)
}

/// The characters from one position up to another.
pub fn copy_range(cs: &[char], from: usize, to: usize) -> (r: Vec<char>)
    requires
        from <= to <= cs@.len(),
    ensures
        r@ == cs@.subrange(from as int, to as int),
{
    let mut out: Vec<char> = Vec::new();
    let mut i: usize = from;
    while i < to
        invariant
            from <= i <= to <= cs@.len(),
            out@ == cs@.subrange(from as int, i as int),
        decreases to - i,
    {
        out.push(cs[i]);
        proof {
            assert(cs@.subrange(from as int, i + 1) =~= cs@.subrange(from as int, i as int).push(
                cs@[i as int],
            ));
        }
        i = i + 1;
    }
    out
}

/// Drops the characters of a class at both ends.
pub fn trim_ends(cs: &[char], k: CharClass) -> (r: Vec<char>)
    ensures
        r@ == trim_class(cs@, k),
{
    let front = skip_front(cs, k);
    chop_back(&front, k)
}

/// Drops the white space at both ends.
pub fn trim(cs: &[char]) -> (r: Vec<char>)
    ensures
        r@ == trimmed(cs@),
{
    trim_ends(cs, CharClass::Space)
}

/// The pieces between the characters of a class, empty ones among them.
pub open spec fn pieces(s: Seq<char>, k: CharClass) -> Seq<Seq<char>>
    decreases s.len(),
{
    if s.len() == 0 {
        seq![Seq::<char>::empty()]
    } else {
        let before = pieces(s.drop_last(), k);
        if k.has_char(s.last()) {
            before.push(Seq::empty())
        } else {
            before.update(before.len() - 1, before.last().push(s.last()))
        }
    }
}

/// The nonempty texts of a list.
pub open spec fn nonempty(v: Seq<Seq<char>>) -> Seq<Seq<char>> {
    v.filter(|p: Seq<char>| p.len() > 0)
}

/// The words of a text: its nonempty pieces between the characters of a class.
pub open spec fn words(s: Seq<char>, k: CharClass) -> Seq<Seq<char>> {
    nonempty(pieces(s, k))
}

/// A text has at least one piece.
pub proof fn lemma_pieces_nonempty(s: Seq<char>, k: CharClass)
    ensures
        pieces(s, k).len() >= 1,
    decreases s.len(),
{
    if s.len() > 0 {
        lemma_pieces_nonempty(s.drop_last(), k);
    }
}

/// Cuts a text at the characters of a class.
pub fn split(cs: &[char], k: CharClass) -> (r: Vec<Vec<char>>)
    ensures
        pieces_view(r@) == pieces(cs@, k),
        r@.len() >= 1,
{
    let mut out: Vec<Vec<char>> = Vec::new();
    let mut cur: Vec<char> = Vec::new();
    let mut i: usize = 0;
    proof {
        assert(cs@.take(0) =~= Seq::<char>::empty());
        assert(pieces_view(out@).push(cur@) =~= pieces(cs@.take(0), k));
    }
    while i < cs.len()
        invariant
            i <= cs@.len(),
            pieces_view(out@).push(cur@) == pieces(cs@.take(i as int), k),
        decreases cs@.len() - i,
    {
        let c = cs[i];
        proof {
            assert(cs@.take(i + 1).drop_last() =~= cs@.take(i as int));
            assert(cs@.take(i + 1).last() == c);
        }
        let ghost before = pieces_view(out@).push(cur@);
        if k.test(c) {
            let ghost old_out = out@;
            let ghost old_cur = cur@;
            out.push(cur);
            cur = Vec::new();
            proof {
                assert(pieces_view(out@).push(cur@) =~= before.push(Seq::empty()));
            }
        } else {
            cur.push(c);
            proof {
                assert(pieces_view(out@).push(cur@) =~= before.update(
                    before.len() - 1,
                    before.last().push(c),
                ));
            }
        }
        i = i + 1;
    }
    let ghost before_out = out@;
    let ghost last = cur@;
    out.push(cur);
    proof {
        assert(pieces_view(out@) =~= pieces_view(before_out).push(last));
        assert(cs@.take(cs@.len() as int) =~= cs@);
    }
    out
}

/// The words of a text.
pub fn split_words(cs: &[char], k: CharClass) -> (r: Vec<Vec<char>>)
    ensures
        pieces_view(r@) == words(cs@, k),
{
    let parts = split(cs, k);
    let mut out: Vec<Vec<char>> = Vec::new();
    let mut i: usize = 0;
    let ghost full = pieces_view(parts@);
    let ghost keep = |p: Seq<char>| p.len() > 0;
    proof {
        assert(full.take(0).filter(keep) =~= Seq::empty()) by {
            reveal(Seq::filter);
        }
        assert(pieces_view(out@) =~= Seq::empty());
    }
    while i < parts.len()
        invariant
            i <= parts@.len(),
            full == pieces_view(parts@),
            keep == (|p: Seq<char>| p.len() > 0),
            pieces_view(out@) == full.take(i as int).filter(keep),
        decreases parts@.len() - i,
    {
        proof {
            assert(full.take(i + 1).drop_last() =~= full.take(i as int));
            assert(full.take(i + 1).last() == parts@[i as int]@);
            reveal(Seq::filter);
        }
        if parts[i].len() > 0 {
            let piece = copy_range(&parts[i], 0, parts[i].len());
            let ghost prev = out@;
            proof {
                assert(piece@ =~= parts@[i as int]@);
            }
            out.push(piece);
            proof {
                assert(pieces_view(out@) =~= pieces_view(prev).push(piece@));
            }
        }
        i = i + 1;
    }
    proof {
        assert(full.take(full.len() as int) =~= full);
    }
    out
}

/// The position of the first such character, or the length where there is none.
pub open spec fn first_at(s: Seq<char>, c: char) -> int
    decreases s.len(),
{
    if s.len() == 0 || s[0] == c {
        0
    } else {
        1 + first_at(s.skip(1), c)
    }
}

/// `first_at` is the one position before which the character does not stand, and at which it
/// stands or the text ends.
pub proof fn lemma_first_at(s: Seq<char>, c: char, i: int)
    requires
        0 <= i <= s.len(),
        forall|j: int| 0 <= j < i ==> s[j] != c,
        i == s.len() || s[i] == c,
    ensures
        first_at(s, c) == i,
    decreases s.len(),
{
    if i > 0 {
        assert(s[0] != c);
        let t = s.skip(1);
        assert(forall|j: int| 0 <= j < i - 1 ==> t[j] == s[j + 1]);
        lemma_first_at(t, c, i - 1);
    }
}

/// The position of the first such character, or the length where there is none.
pub fn find_char(cs: &[char], c: char) -> (r: usize)
    ensures
        r == first_at(cs@, c),
        r <= cs@.len(),
        forall|j: int| 0 <= j < r ==> cs@[j] != c,
        r < cs@.len() ==> cs@[r as int] == c,
{
    let mut i: usize = 0;
    while i < cs.len() && cs[i] != c
        invariant
            i <= cs@.len(),
            forall|j: int| 0 <= j < i ==> cs@[j] != c,
        decreases cs@.len() - i,
    {
        i = i + 1;
    }
    proof {
        lemma_first_at(cs@, c, i as int);
    }
    i
}

/// A text cut at the first such character, which is dropped.
pub open spec fn cut_at(s: Seq<char>, c: char) -> Option<(Seq<char>, Seq<char>)> {
    let i = first_at(s, c);
    if s.contains(c) {
        Some((s.take(i), s.skip(i + 1)))
    } else {
        None
    }
}

/// Cuts a text at the first such character.
pub fn split_once(cs: &[char], c: char) -> (r: Option<(Vec<char>, Vec<char>)>)
    ensures
        r is Some <==> cs@.contains(c),
        r matches Some(p) ==> cut_at(cs@, c) == Some((p.0@, p.1@)),
        r is None ==> cut_at(cs@, c) is None,
{
    let i = find_char(cs, c);
    if i < cs.len() {
        let a = copy_range(cs, 0, i);
        let b = copy_range(cs, i + 1, cs.len());
        proof {
            assert(cs@[i as int] == c);
            assert(a@ =~= cs@.take(i as int));
            assert(b@ =~= cs@.skip(i + 1));
        }
        Some((a, b))
    } else {
        None
    }
}

/// Whether a text begins with another.
pub open spec fn begins(s: Seq<char>, p: Seq<char>) -> bool {
    s.len() >= p.len() && s.take(p.len() as int) == p
}

/// Whether a text ends with another.
pub open spec fn ends(s: Seq<char>, p: Seq<char>) -> bool {
    s.len() >= p.len() && s.skip(s.len() - p.len()) == p
}

/// Tests whether a text begins with another.
pub fn starts_with(cs: &[char], p: &str) -> (r: bool)
    ensures
        r == begins(cs@, p@),
{
    let q = to_chars(p);
    if cs.len() < q.len() {
        return false;
    }
    let head = copy_range(cs, 0, q.len());
    proof {
        assert(head@ =~= cs@.take(q@.len() as int));
    }
    same_chars(&head, &q)
}

/// Tests whether a text ends with another.
pub fn ends_with(cs: &[char], p: &str) -> (r: bool)
    ensures
        r == ends(cs@, p@),
{
    let q = to_chars(p);
    if cs.len() < q.len() {
        return false;
    }
    let tail = copy_range(cs, cs.len() - q.len(), cs.len());
    proof {
        assert(tail@ =~= cs@.skip(cs@.len() - q@.len()));
    }
    same_chars(&tail, &q)
}

/// The rest of a text after a beginning that it has.
pub open spec fn without_prefix(s: Seq<char>, p: Seq<char>) -> Option<Seq<char>> {
    if begins(s, p) {
        Some(s.skip(p.len() as int))
    } else {
        None
    }
}

/// Takes a beginning off a text.
pub fn strip_prefix(cs: &[char], p: &str) -> (r: Option<Vec<char>>)
    ensures
        r is Some <==> begins(cs@, p@),
        r matches Some(t) ==> t@ == cs@.skip(p@.len() as int),
{
    if starts_with(cs, p) {
        let n: usize = p.unicode_len();
        let rest = copy_range(cs, n, cs.len());
        proof {
            assert(rest@ =~= cs@.skip(p@.len() as int));
        }
        Some(rest)
    } else {
        None
    }
}

/// The lower-case form of an ASCII letter; any other character itself.
pub open spec fn lower_char(c: char) -> char {
    if 'A' <= c <= 'Z' {
        ((c as u32 + 32) as u32) as char
    } else {
        c
    }
}

/// The upper-case form of an ASCII letter; any other character itself.
pub open spec fn upper_char(c: char) -> char {
    if 'a' <= c <= 'z' {
        ((c as u32 - 32) as u32) as char
    } else {
        c
    }
}

/// A text with its ASCII letters in lower case.
pub open spec fn lower(s: Seq<char>) -> Seq<char> {
    s.map_values(|c: char| lower_char(c))
}

/// A text with its ASCII letters in upper case.
pub open spec fn upper(s: Seq<char>) -> Seq<char> {
    s.map_values(|c: char| upper_char(c))
}

/// The lower-case form of an ASCII letter.
pub fn to_lower_char(c: char) -> (r: char)
    ensures
        r == lower_char(c),
{
    if 'A' <= c && c <= 'Z' {
        ((c as u8) + 32) as char
    } else {
        c
    }
}

/// The upper-case form of an ASCII letter.
pub fn to_upper_char(c: char) -> (r: char)
    ensures
        r == upper_char(c),
{
    if 'a' <= c && c <= 'z' {
        ((c as u8) - 32) as char
    } else {
        c
    }
}

/// Puts the ASCII letters of a text into lower case.
pub fn to_lower(cs: &[char]) -> (r: Vec<char>)
    ensures
        r@ == lower(cs@),
{
    let mut out: Vec<char> = Vec::new();
    let mut i: usize = 0;
    while i < cs.len()
        invariant
            i <= cs@.len(),
            out@ == lower(cs@).take(i as int),
        decreases cs@.len() - i,
    {
        out.push(to_lower_char(cs[i]));
        proof {
            assert(lower(cs@).take(i + 1) =~= lower(cs@).take(i as int).push(lower_char(cs@[i as int])));
        }
        i = i + 1;
    }
    proof {
        assert(lower(cs@).take(cs@.len() as int) =~= lower(cs@));
    }
    out
}

/// Puts the ASCII letters of a text into upper case.
pub fn to_upper(cs: &[char]) -> (r: Vec<char>)
    ensures
        r@ == upper(cs@),
{
    let mut out: Vec<char> = Vec::new();
    let mut i: usize = 0;
    while i < cs.len()
        invariant
            i <= cs@.len(),
            out@ == upper(cs@).take(i as int),
        decreases cs@.len() - i,
    {
        out.push(to_upper_char(cs[i]));
        proof {
            assert(upper(cs@).take(i + 1) =~= upper(cs@).take(i as int).push(upper_char(cs@[i as int])));
        }
        i = i + 1;
    }
    proof {
        assert(upper(cs@).take(cs@.len() as int) =~= upper(cs@));
    }
    out
}

/// A string with its ASCII letters in lower case.
pub fn lower_text(s: &str) -> (r: String)
    ensures
        r@ == lower(s@),
{
    to_text(&to_lower(&to_chars(s)))
}

/// A string with its ASCII letters in upper case.
pub fn upper_text(s: &str) -> (r: String)
    ensures
        r@ == upper(s@),
{
    to_text(&to_upper(&to_chars(s)))
}

/// Whether two strings are the same up to the case of their ASCII letters.
pub fn same_ignoring_case(a: &str, b: &str) -> (r: bool)
    ensures
        r == (lower(a@) == lower(b@)),
{
    let x = to_lower(&to_chars(a));
    let y = to_lower(&to_chars(b));
    same_chars(&x, &y)
}

/// The result of `str::to_uppercase` of std.
pub uninterp spec fn unicode_upper(s: Seq<char>) -> Seq<char>;

/// Whether all characters are of ASCII.
pub open spec fn is_ascii_text(s: Seq<char>) -> bool {
    forall|i: int| 0 <= i < s.len() ==> (#[trigger] s[i] as u32) < 128
}

/// `str::to_uppercase` of std: the upper-case form of a string by the Unicode tables, which
/// depends on the string alone; of a string of ASCII, the one with its small letters made
/// capital.
#[verifier::external_body]
pub(crate) fn to_unicode_upper(s: &str) -> (r: String)
    ensures
        r@ == unicode_upper(s@),
        is_ascii_text(s@) ==> r@ == upper(s@),
{
    s.to_uppercase()
}

/// Texts joined, with a separator between each two.
pub open spec fn joined(parts: Seq<Seq<char>>, sep: Seq<char>) -> Seq<char>
    decreases parts.len(),
{
    if parts.len() == 0 {
        Seq::empty()
    } else if parts.len() == 1 {
        parts[0]
    } else {
        joined(parts.drop_last(), sep) + sep + parts.last()
    }
}

/// Appends the characters of a string.
pub fn push_text(out: &mut Vec<char>, s: &str)
    ensures
        final(out)@ == old(out)@ + s@,
{
    let cs = to_chars(s);
    push_chars(out, &cs);
}

/// Appends characters.
pub fn push_chars(out: &mut Vec<char>, cs: &[char])
    ensures
        final(out)@ == old(out)@ + cs@,
{
    let ghost before = out@;
    let mut i: usize = 0;
    proof {
        assert(before + cs@.take(0) =~= before);
    }
    while i < cs.len()
        invariant
            i <= cs@.len(),
            out@ == before + cs@.take(i as int),
        decreases cs@.len() - i,
    {
        out.push(cs[i]);
        proof {
            assert(before + cs@.take(i + 1) =~= (before + cs@.take(i as int)).push(cs@[i as int]));
        }
        i = i + 1;
    }
    proof {
        assert(cs@.take(cs@.len() as int) =~= cs@);
    }
}

/// Joins texts.
pub fn join(parts: &Vec<Vec<char>>, sep: &str) -> (r: Vec<char>)
    ensures
        r@ == joined(pieces_view(parts@), sep@),
{
    let mut out: Vec<char> = Vec::new();
    let mut i: usize = 0;
    let ghost all = pieces_view(parts@);
    while i < parts.len()
        invariant
            i <= parts@.len(),
            all == pieces_view(parts@),
            out@ == joined(all.take(i as int), sep@),
        decreases parts@.len() - i,
    {
        proof {
            assert(all.take(i + 1).drop_last() =~= all.take(i as int));
            assert(all.take(i + 1).last() == parts@[i as int]@);
        }
        if i > 0 {
            push_text(&mut out, sep);
        }
        let ghost before = out@;
        push_chars(&mut out, &parts[i]);
        proof {
            if i == 0 {
                assert(out@ =~= all.take(1)[0]);
            }
        }
        i = i + 1;
    }
    proof {
        assert(all.take(all.len() as int) =~= all);
    }
    out
}

/// Characters outside the class, put behind a text, extend its last piece.
pub proof fn lemma_pieces_extend(s: Seq<char>, b: Seq<char>, k: CharClass)
    requires
        forall|i: int| 0 <= i < b.len() ==> !k.has_char(#[trigger] b[i]),
    ensures
        pieces(s + b, k) == pieces(s, k).update(
            pieces(s, k).len() - 1,
            pieces(s, k).last() + b,
        ),
    decreases b.len(),
{
    lemma_pieces_nonempty(s, k);
    let ps = pieces(s, k);
    if b.len() == 0 {
        assert(s + b =~= s);
        assert(ps.last() + b =~= ps.last());
        assert(ps.update(ps.len() - 1, ps.last() + b) =~= ps);
    } else {
        let c = b.drop_last();
        lemma_pieces_extend(s, c, k);
        assert((s + b).drop_last() =~= s + c);
        assert((s + b).last() == b.last());
        assert(!k.has_char(b[b.len() - 1]));
        let before = pieces(s + c, k);
        assert((ps.last() + c).push(b.last()) =~= ps.last() + b);
        assert(before.update(before.len() - 1, before.last().push(b.last())) =~= ps.update(
            ps.len() - 1,
            ps.last() + b,
        ));
    }
}

/// No piece holds a character at which the text was cut.
pub proof fn lemma_pieces_clear(s: Seq<char>, k: CharClass, i: int, j: int)
    requires
        0 <= i < pieces(s, k).len(),
        0 <= j < pieces(s, k)[i].len(),
    ensures
        !k.has_char(pieces(s, k)[i][j]),
    decreases s.len(),
{
    if s.len() > 0 {
        let before = pieces(s.drop_last(), k);
        lemma_pieces_nonempty(s.drop_last(), k);
        if k.has_char(s.last()) {
            if i < before.len() {
                lemma_pieces_clear(s.drop_last(), k, i, j);
            }
        } else if i < before.len() - 1 || j < before.last().len() {
            lemma_pieces_clear(s.drop_last(), k, i, j);
        }
    }
}

/// Trimming makes no text longer.
pub proof fn lemma_trim_shorter(s: Seq<char>, k: CharClass)
    ensures
        skip_class(s, k).len() <= s.len(),
        chop_class(s, k).len() <= s.len(),
        trim_class(s, k).len() <= s.len(),
    decreases s.len(),
{
    if s.len() > 0 {
        lemma_trim_shorter(s.skip(1), k);
        lemma_trim_shorter(s.drop_last(), k);
    }
    if skip_class(s, k).len() < s.len() {
        lemma_trim_shorter(skip_class(s, k), k);
    } else {
        assert(skip_class(s, k) == s) by {
            if s.len() > 0 && k.has_char(s[0]) {
                lemma_trim_shorter(s.skip(1), k);
            }
        }
    }
}

/// A text is trimmed where no character of the class stands at either end.
pub proof fn lemma_trimmed(s: Seq<char>, k: CharClass)
    requires
        s.len() > 0 ==> !k.has_char(s[0]) && !k.has_char(s.last()),
    ensures
        trim_class(s, k) == s,
{
}

/// No character of the class stands at either end of a trimmed text.
pub proof fn lemma_trim_ends(s: Seq<char>, k: CharClass)
    ensures
        trim_class(s, k).len() > 0 ==> !k.has_char(trim_class(s, k)[0]) && !k.has_char(
            trim_class(s, k).last(),
        ),
{
    let f = skip_class(s, k);
    lemma_skip_end(s, k);
    lemma_chop_end(f, k);
}

proof fn lemma_skip_end(s: Seq<char>, k: CharClass)
    ensures
        skip_class(s, k).len() > 0 ==> !k.has_char(skip_class(s, k)[0]),
    decreases s.len(),
{
    if s.len() > 0 && k.has_char(s[0]) {
        lemma_skip_end(s.skip(1), k);
    }
}

proof fn lemma_chop_end(s: Seq<char>, k: CharClass)
    ensures
        chop_class(s, k).len() > 0 ==> !k.has_char(chop_class(s, k).last()),
        chop_class(s, k).len() > 0 ==> chop_class(s, k)[0] == s[0],
    decreases s.len(),
{
    if s.len() > 0 && k.has_char(s.last()) {
        lemma_chop_end(s.drop_last(), k);
    }
}

/// What is left of a trimmed text is a stretch of the text.
pub proof fn lemma_trim_is_part(s: Seq<char>, k: CharClass) -> (r: (int, int))
    ensures
        0 <= r.0 <= r.1 <= s.len(),
        trim_class(s, k) == s.subrange(r.0, r.1),
{
    let a = lemma_skip_is_part(s, k);
    let f = skip_class(s, k);
    let n = lemma_chop_is_part(f, k);
    assert(f.take(n) =~= s.subrange(a, a + n));
    (a, a + n)
}

proof fn lemma_skip_is_part(s: Seq<char>, k: CharClass) -> (a: int)
    ensures
        0 <= a <= s.len(),
        skip_class(s, k) == s.skip(a),
    decreases s.len(),
{
    if s.len() > 0 && k.has_char(s[0]) {
        let a = lemma_skip_is_part(s.skip(1), k);
        assert(s.skip(1).skip(a) =~= s.skip(a + 1));
        a + 1
    } else {
        assert(s.skip(0) =~= s);
        0
    }
}

proof fn lemma_chop_is_part(s: Seq<char>, k: CharClass) -> (n: int)
    ensures
        0 <= n <= s.len(),
        chop_class(s, k) == s.take(n),
    decreases s.len(),
{
    if s.len() > 0 && k.has_char(s.last()) {
        let n = lemma_chop_is_part(s.drop_last(), k);
        assert(s.drop_last().take(n) =~= s.take(n));
        n
    } else {
        assert(s.take(s.len() as int) =~= s);
        s.len() as int
    }
}

/// Lower case is kept by lower case, and lower case makes no white space and takes none away.
pub proof fn lemma_lower_char(c: char)
    ensures
        lower_char(lower_char(c)) == lower_char(c),
        is_space(lower_char(c)) == is_space(c),
        lower_char(c) == ':' ==> c == ':',
        lower_char(c) == ';' ==> c == ';',
{
}

/// A text is cut where a character of the class stands, and nowhere else: what stands before and
/// behind such a character is cut by itself, and a text without one is one piece.
pub proof fn texts_are_cut_at_their_class(a: Seq<char>, c: char, b: Seq<char>, k: CharClass)
    requires
        k.has_char(c),
    ensures
        pieces(a.push(c) + b, k) == pieces(a, k) + pieces(b, k),
        (forall|i: int| 0 <= i < a.len() ==> !k.has_char(#[trigger] a[i])) ==> pieces(a, k) == seq![
            a,
        ],
    decreases b.len(),
{
    let s = a.push(c) + b;
    if forall|i: int| 0 <= i < a.len() ==> !k.has_char(#[trigger] a[i]) {
        lemma_pieces_extend(Seq::empty(), a, k);
        assert(Seq::<char>::empty() + a =~= a);
        assert(pieces(a, k) =~= seq![a]);
    }
    lemma_pieces_nonempty(a, k);
    if b.len() == 0 {
        assert(s =~= a.push(c));
        assert(s.drop_last() =~= a);
        assert(pieces(s, k) =~= pieces(a, k) + pieces(b, k));
    } else {
        let d = b.drop_last();
        texts_are_cut_at_their_class(a, c, d, k);
        lemma_pieces_nonempty(d, k);
        assert(s.drop_last() =~= a.push(c) + d);
        assert(s.last() == b.last());
        assert(pieces(s, k) =~= pieces(a, k) + pieces(b, k));
    }
}

/// The words of a text are what stands between characters of the class, without what is empty:
/// words before and behind such a character are words of the whole, in that order, and a text
/// without one is one word unless it is empty.
pub proof fn words_stand_apart(a: Seq<char>, c: char, b: Seq<char>, k: CharClass)
    requires
        k.has_char(c),
    ensures
        words(a.push(c) + b, k) == words(a, k) + words(b, k),
        (forall|i: int| 0 <= i < a.len() ==> !k.has_char(#[trigger] a[i])) ==> words(a, k) == (
        if a.len() == 0 {
            Seq::<Seq<char>>::empty()
        } else {
            seq![a]
        }),
{
    let keep = |p: Seq<char>| p.len() > 0;
    texts_are_cut_at_their_class(a, c, b, k);
    Seq::filter_distributes_over_add(pieces(a, k), pieces(b, k), keep);
    if forall|i: int| 0 <= i < a.len() ==> !k.has_char(#[trigger] a[i]) {
        reveal(Seq::filter);
        let one = pieces(a, k);
        assert(one == seq![a]);
        assert(one.drop_last() =~= Seq::empty());
        assert(one.last() == a);
        assert(words(a, k) == one.filter(keep));
        assert(one.drop_last().filter(keep) =~= Seq::empty());
        if a.len() > 0 {
            assert(one.filter(keep) =~= seq![a]);
        } else {
            assert(one.filter(keep) =~= Seq::empty());
        }
    }
}

/// Texts that are joined with a character which none of them holds are the pieces of the whole.
pub proof fn joined_texts_are_cut_again(parts: Seq<Seq<char>>, c: char)
    requires
        parts.len() > 0,
        forall|i: int| 0 <= i < parts.len() ==> !(#[trigger] parts[i]).contains(c),
    ensures
        pieces(joined(parts, seq![c]), CharClass::Is(c)) == parts,
    decreases parts.len(),
{
    let k = CharClass::Is(c);
    let last = parts.last();
    assert(!parts[parts.len() - 1].contains(c));
    assert forall|i: int| 0 <= i < last.len() implies !k.has_char(#[trigger] last[i]) by {
        assert(last.contains(last[i]));
    }
    texts_are_cut_at_their_class(last, c, Seq::empty(), k);
    if parts.len() == 1 {
        assert(parts =~= seq![last]);
    } else {
        let before = parts.drop_last();
        assert forall|i: int| 0 <= i < before.len() implies !(#[trigger] before[i]).contains(c) by {
            assert(before[i] == parts[i]);
        }
        joined_texts_are_cut_again(before, c);
        let a = joined(before, seq![c]);
        texts_are_cut_at_their_class(a, c, last, k);
        assert(a + seq![c] + last =~= a.push(c) + last);
        assert(before + seq![last] =~= parts);
    }
}

/// The pieces of a text, joined with the character at which it was cut, are the text.
pub proof fn cut_texts_are_joined_again(s: Seq<char>, c: char)
    ensures
        joined(pieces(s, CharClass::Is(c)), seq![c]) == s,
    decreases s.len(),
{
    let k = CharClass::Is(c);
    let v = pieces(s, k);
    if s.len() == 0 {
        assert(joined(v, seq![c]) =~= s);
    } else {
        let t = s.drop_last();
        let before = pieces(t, k);
        lemma_pieces_nonempty(t, k);
        cut_texts_are_joined_again(t, c);
        assert(s =~= t.push(s.last()));
        if s.last() == c {
            assert(v.drop_last() =~= before);
            assert(joined(v, seq![c]) =~= s);
        } else {
            if before.len() == 1 {
                assert(v =~= seq![before.last().push(s.last())]);
                assert(joined(v, seq![c]) =~= s);
            } else {
                assert(v.drop_last() =~= before.drop_last());
                assert(joined(v, seq![c]) =~= s);
            }
        }
    }
}

/// What is trimmed off a text is of the class, all of it, and what is left has none of the class at
/// either end.
pub proof fn trimming_takes_the_ends(s: Seq<char>, k: CharClass) -> (r: (int, int))
    ensures
        0 <= r.0 <= r.1 <= s.len(),
        trim_class(s, k) == s.subrange(r.0, r.1),
        forall|i: int| 0 <= i < r.0 || r.1 <= i < s.len() ==> k.has_char(#[trigger] s[i]),
        r.0 < r.1 ==> !k.has_char(s[r.0]) && !k.has_char(s[r.1 - 1]),
{
    let a = lemma_skip_takes(s, k);
    let f = skip_class(s, k);
    let n = lemma_chop_takes(f, k);
    assert(f.take(n) =~= s.subrange(a, a + n));
    assert forall|i: int| 0 <= i < a || a + n <= i < s.len() implies k.has_char(
        #[trigger] s[i],
    ) by {
        if i >= a + n {
            assert(f[i - a] == s[i]);
        }
    }
    lemma_trim_ends(s, k);
    if n > 0 {
        assert(trim_class(s, k)[0] == s[a]);
        assert(trim_class(s, k).last() == s[a + n - 1]);
    }
    (a, a + n)
}

proof fn lemma_skip_takes(s: Seq<char>, k: CharClass) -> (a: int)
    ensures
        0 <= a <= s.len(),
        skip_class(s, k) == s.skip(a),
        forall|i: int| 0 <= i < a ==> k.has_char(#[trigger] s[i]),
    decreases s.len(),
{
    if s.len() > 0 && k.has_char(s[0]) {
        let t = s.skip(1);
        let a = lemma_skip_takes(t, k);
        assert(t.skip(a) =~= s.skip(a + 1));
        assert forall|i: int| 0 <= i < a + 1 implies k.has_char(#[trigger] s[i]) by {
            if i > 0 {
                assert(t[i - 1] == s[i]);
            }
        }
        a + 1
    } else {
        assert(s.skip(0) =~= s);
        0
    }
}

proof fn lemma_chop_takes(s: Seq<char>, k: CharClass) -> (n: int)
    ensures
        0 <= n <= s.len(),
        chop_class(s, k) == s.take(n),
        forall|i: int| n <= i < s.len() ==> k.has_char(#[trigger] s[i]),
    decreases s.len(),
{
    if s.len() > 0 && k.has_char(s.last()) {
        let n = lemma_chop_takes(s.drop_last(), k);
        assert(s.drop_last().take(n) =~= s.take(n));
        assert forall|i: int| n <= i < s.len() implies k.has_char(#[trigger] s[i]) by {
            if i < s.len() - 1 {
                assert(s.drop_last()[i] == s[i]);
            }
        }
        n
    } else {
        assert(s.take(s.len() as int) =~= s);
        s.len() as int
    }
}

/// A text is cut at the first such character: what stands before holds none, and the two parts with
/// the character between them are the text. A text without one is not cut.
pub proof fn texts_are_cut_once(s: Seq<char>, c: char, a: Seq<char>, b: Seq<char>)
    ensures
        cut_at(s, c) == Some((a, b)) <==> s == a.push(c) + b && !a.contains(c),
        cut_at(s, c) is None <==> !s.contains(c),
{
    if s.contains(c) {
        let w = s.index_of(c);
        lemma_first_found(s, c);
        let i = first_at(s, c);
        assert(s =~= s.take(i).push(c) + s.skip(i + 1));
        assert(!s.take(i).contains(c));
    }
    if s == a.push(c) + b && !a.contains(c) {
        assert(s[a.len() as int] == c);
        assert forall|j: int| 0 <= j < a.len() implies s[j] != c by {
            assert(a.contains(a[j]));
        }
        lemma_first_at(s, c, a.len() as int);
        assert(s.take(a.len() as int) =~= a);
        assert(s.skip(a.len() as int + 1) =~= b);
    }
}

proof fn lemma_first_found(s: Seq<char>, c: char)
    requires
        s.contains(c),
    ensures
        0 <= first_at(s, c) < s.len(),
        s[first_at(s, c)] == c,
        forall|j: int| 0 <= j < first_at(s, c) ==> s[j] != c,
    decreases s.len(),
{
    if s[0] != c {
        let t = s.skip(1);
        let w = s.index_of(c);
        assert(t[w - 1] == c);
        lemma_first_found(t, c);
        assert forall|j: int| 0 <= j < first_at(s, c) implies s[j] != c by {
            if j > 0 {
                assert(t[j - 1] == s[j]);
            }
        }
    }
}

/// A text begins with another where it is that other and something behind it, which is then the
/// rest; it ends with another where it is something and that other.
pub proof fn beginnings_and_ends(s: Seq<char>, p: Seq<char>, rest: Seq<char>)
    ensures
        begins(p + rest, p),
        ends(rest + p, p),
        begins(s, p) ==> s == p + s.skip(p.len() as int),
        ends(s, p) ==> s == s.take(s.len() - p.len()) + p,
        without_prefix(p + rest, p) == Some(rest),
        without_prefix(s, p) == Some(rest) ==> s == p + rest,
        without_prefix(s, p) is None <==> !begins(s, p),
{
    assert((p + rest).take(p.len() as int) =~= p);
    assert((p + rest).skip(p.len() as int) =~= rest);
    assert((rest + p).skip(rest.len() as int) =~= p);
    if begins(s, p) {
        assert(s =~= p + s.skip(p.len() as int));
    }
    if ends(s, p) {
        assert(s =~= s.take(s.len() - p.len()) + p);
    }
}

/// Of the letters of ASCII, each has the one of the other case that stands at the same place of the
/// alphabet; no other character changes.
pub proof fn letters_change_case(c: char, s: Seq<char>, i: int)
    requires
        0 <= i < s.len(),
    ensures
        'A' <= c <= 'Z' ==> 'a' <= lower_char(c) <= 'z' && lower_char(c) as int - 'a' as int == c
            as int - 'A' as int && upper_char(lower_char(c)) == c && upper_char(c) == c,
        'a' <= c <= 'z' ==> 'A' <= upper_char(c) <= 'Z' && upper_char(c) as int - 'A' as int == c
            as int - 'a' as int && lower_char(upper_char(c)) == c && lower_char(c) == c,
        !('A' <= c <= 'Z') && !('a' <= c <= 'z') ==> lower_char(c) == c && upper_char(c) == c,
        lower(s).len() == s.len(),
        upper(s).len() == s.len(),
        lower(s)[i] == lower_char(s[i]),
        upper(s)[i] == upper_char(s[i]),
{
}

/// The white space of ASCII is white space, and no visible character of ASCII is.
pub proof fn spaces_are_not_seen(c: char)
    ensures
        CharClass::AsciiSpace.has_char(c) <==> c == ' ' || c == '\t' || c == '\n' || c == '\r' || c
            as u32 == 0x0c,
        CharClass::AsciiSpace.has_char(c) ==> is_space(c),
        CharClass::Space.has_char(c) == is_space(c),
        '!' <= c <= '~' ==> !is_space(c),
        (c as u32) < 0x80 && is_space(c) ==> CharClass::AsciiSpace.has_char(c) || c as u32 == 0x0b,
        c as u32 == 0x0b || c as u32 == 0x85 || c as u32 == 0xa0 || c as u32 == 0x3000 ==> is_space(
            c,
        ),
        0x2000 <= c as u32 <= 0x200a || c as u32 == 0x1680 || c as u32 == 0x2028 || c as u32
            == 0x2029 || c as u32 == 0x202f || c as u32 == 0x205f ==> is_space(c),
        CharClass::Is(c).has_char(c),
{
}

} // verus!
