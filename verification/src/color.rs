//! Colours and the parts that their notations share.
use crate::number;
use crate::text;
use crate::text::CharClass;
use vstd::prelude::*;

verus! {

/// A colour with its opacity.
#[derive(Clone, Copy, PartialEq, Eq, Structural, Debug)]
pub struct Color {
    pub r: u8,
    pub g: u8,
    pub b: u8,
    pub a: u8,
}

impl Color {
    /// An opaque colour.
    pub open spec fn opaque(r: u8, g: u8, b: u8) -> Color {
        Color { r, g, b, a: 255 }
    }

    /// An opaque colour.
    pub fn rgb(r: u8, g: u8, b: u8) -> (c: Color)
        ensures
            c == Color::opaque(r, g, b),
    {
        Color { r, g, b, a: 255 }
    }
}

/// What a written number stands for as part of a colour: its value held within a byte, and its
/// value held between zero and one and then scaled to a byte.
#[derive(Clone, Copy, PartialEq, Eq, Structural, Debug)]
pub struct Reading {
    pub byte: u8,
    pub unit: u8,
}

/// The byte that hexadecimal digits write.
pub open spec fn hex_byte(s: Seq<char>) -> Option<u8> {
    match number::unsigned_value(s, 16, 255) {
        Some(v) => Some(v as u8),
        None => None,
    }
}

/// The byte that two digits of a text write.
pub open spec fn hex_at(s: Seq<char>, i: int) -> Option<u8> {
    hex_byte(s.subrange(i, i + 2))
}

/// The byte that one digit writes when doubled.
pub open spec fn hex_twice(c: char) -> Option<u8> {
    hex_byte(seq![c, c])
}

/// The colour of three bytes, where all are there.
pub open spec fn from_bytes(r: Option<u8>, g: Option<u8>, b: Option<u8>, a: Option<u8>) -> Option<
    Color,
> {
    match (r, g, b, a) {
        (Some(r), Some(g), Some(b), Some(a)) => Some(Color { r, g, b, a }),
        _ => None,
    }
}

/// The colour that six, eight or three hexadecimal digits write.
pub open spec fn hex_color(s: Seq<char>) -> Option<Color> {
    if s.len() == 6 {
        from_bytes(hex_at(s, 0), hex_at(s, 2), hex_at(s, 4), Some(255))
    } else if s.len() == 8 {
        from_bytes(hex_at(s, 0), hex_at(s, 2), hex_at(s, 4), hex_at(s, 6))
    } else if s.len() == 3 {
        from_bytes(hex_twice(s[0]), hex_twice(s[1]), hex_twice(s[2]), Some(255))
    } else {
        None
    }
}

/// Reads the byte that hexadecimal digits write.
pub fn read_hex_byte(cs: &[char]) -> (r: Option<u8>)
    ensures
        r == hex_byte(cs@),
{
    match number::read_unsigned(cs, 16, 255) {
        Some(v) => Some(v as u8),
        None => None,
    }
}

/// Reads the byte that two digits of a text write.
pub fn read_hex_at(cs: &[char], i: usize) -> (r: Option<u8>)
    requires
        i + 2 <= cs@.len(),
    ensures
        r == hex_at(cs@, i as int),
{
    let n: usize = cs.len();
    assert(i + 2 <= n);
    let pair = text::copy_range(cs, i, i + 2);
    read_hex_byte(&pair)
}

/// Reads the byte that one digit writes when doubled.
pub fn read_hex_twice(c: char) -> (r: Option<u8>)
    ensures
        r == hex_twice(c),
{
    let mut pair: Vec<char> = Vec::new();
    pair.push(c);
    pair.push(c);
    proof {
        assert(pair@ =~= seq![c, c]);
    }
    read_hex_byte(&pair)
}

/// The colour of four bytes, where all are there.
pub fn assemble(r: Option<u8>, g: Option<u8>, b: Option<u8>, a: Option<u8>) -> (c: Option<Color>)
    ensures
        c == from_bytes(r, g, b, a),
{
    match (r, g, b, a) {
        (Some(r), Some(g), Some(b), Some(a)) => Some(Color { r, g, b, a }),
        _ => None,
    }
}

/// Reads the colour that six, eight or three hexadecimal digits write.
pub fn read_hex_color(cs: &[char]) -> (r: Option<Color>)
    ensures
        r == hex_color(cs@),
{
    if cs.len() == 6 {
        assemble(read_hex_at(cs, 0), read_hex_at(cs, 2), read_hex_at(cs, 4), Some(255))
    } else if cs.len() == 8 {
        assemble(
            read_hex_at(cs, 0),
            read_hex_at(cs, 2),
            read_hex_at(cs, 4),
            read_hex_at(cs, 6),
        )
    } else if cs.len() == 3 {
        assemble(
            read_hex_twice(cs[0]),
            read_hex_twice(cs[1]),
            read_hex_twice(cs[2]),
            Some(255),
        )
    } else {
        None
    }
}

/// The texts between the commas of a list, trimmed.
pub open spec fn comma_parts(s: Seq<char>) -> Seq<Seq<char>> {
    text::pieces(s, CharClass::Is(',')).map_values(|p: Seq<char>| text::trimmed(p))
}

/// Cuts a list at its commas.
pub fn split_commas(cs: &[char]) -> (r: Vec<String>)
    ensures
        text::texts(r@) == comma_parts(cs@),
        r@.len() >= 1,
{
    let parts = text::split(cs, CharClass::Is(','));
    let ghost goal = comma_parts(cs@);
    let mut out: Vec<String> = Vec::new();
    let mut i: usize = 0;
    proof {
        assert(text::pieces_view(parts@).len() == parts@.len());
    }
    while i < parts.len()
        invariant
            i <= parts@.len(),
            text::pieces_view(parts@) == text::pieces(cs@, CharClass::Is(',')),
            goal == comma_parts(cs@),
            text::texts(out@) == goal.take(i as int),
            out@.len() == i,
        decreases parts@.len() - i,
    {
        let ghost prev = out@;
        let t = text::trim(&parts[i]);
        out.push(text::to_text(&t));
        proof {
            assert(text::pieces_view(parts@)[i as int] == parts@[i as int]@);
            assert(goal[i as int] == text::trimmed(parts@[i as int]@));
            assert(text::texts(out@) =~= text::texts(prev).push(goal[i as int]));
            assert(goal.take(i + 1) =~= goal.take(i as int).push(goal[i as int]));
        }
        i = i + 1;
    }
    proof {
        assert(goal.take(goal.len() as int) =~= goal);
    }
    out
}

/// What stands between an opening and a closing bracket that ends the text.
pub open spec fn bracketed(s: Seq<char>, opening: Seq<char>) -> Option<Seq<char>> {
    match text::without_prefix(s, opening) {
        Some(rest) => if rest.len() > 0 && rest.last() == ')' {
            Some(rest.drop_last())
        } else {
            None
        },
        None => None,
    }
}

/// What stands between an opening and a closing bracket that ends the text.
pub fn strip_brackets(cs: &[char], opening: &str) -> (r: Option<Vec<char>>)
    ensures
        r is Some <==> bracketed(cs@, opening@) is Some,
        r matches Some(v) ==> bracketed(cs@, opening@) == Some(v@),
{
    match text::strip_prefix(cs, opening) {
        None => None,
        Some(rest) => {
            if rest.len() > 0 && rest[rest.len() - 1] == ')' {
                let inner = text::copy_range(&rest, 0, rest.len() - 1);
                proof {
                    assert(inner@ =~= rest@.drop_last());
                }
                Some(inner)
            } else {
                None
            }
        },
    }
}

/// The reading of a component, where there is one.
pub open spec fn reading_at(v: Seq<Option<Reading>>, i: int) -> Option<Reading> {
    if 0 <= i < v.len() {
        v[i]
    } else {
        None
    }
}

/// The reading of a component, where there is one.
pub fn get_reading(v: &Vec<Option<Reading>>, i: usize) -> (r: Option<Reading>)
    ensures
        r == reading_at(v@, i as int),
{
    if i < v.len() {
        v[i]
    } else {
        None
    }
}

/// The byte that a decimal text writes.
pub open spec fn decimal_byte(s: Seq<char>) -> Option<u8> {
    match number::unsigned_value(s, 10, 255) {
        Some(v) => Some(v as u8),
        None => None,
    }
}

/// Reads the byte that a decimal text writes.
pub fn read_decimal_byte(s: &str) -> (r: Option<u8>)
    ensures
        r == decimal_byte(s@),
{
    let cs = text::to_chars(s);
    match number::read_unsigned(&cs, 10, 255) {
        Some(v) => Some(v as u8),
        None => None,
    }
}

/// A byte's two hexadecimal digits, at any place of a text, are read as the byte.
proof fn lemma_hex_read(s: Seq<char>, i: int, x: u8)
    requires
        0 <= i,
        i + 2 <= s.len(),
        s.subrange(i, i + 2) == crate::bytes::hex_pair(x),
    ensures
        hex_at(s, i) == Some(x),
{
    let p = crate::bytes::hex_pair(x);
    let e = Seq::<u8>::empty();
    crate::bytes::bytes_have_two_digits(e, e, x);
    reveal_with_fuel(crate::bytes::hex_text, 2);
    assert(seq![x].drop_last() =~= e);
    assert(crate::bytes::hex_text(seq![x]) =~= p);
    number::digits_have_their_values(p[0], (x as int / 16) as nat, 16);
    assert(p[0] != '+');
}

proof fn lemma_six_digits(c: Color)
    ensures
        hex_color(
            crate::bytes::hex_pair(c.r) + crate::bytes::hex_pair(c.g) + crate::bytes::hex_pair(c.b),
        ) == Some(Color { r: c.r, g: c.g, b: c.b, a: 255 }),
{
    let r = crate::bytes::hex_pair(c.r);
    let g = crate::bytes::hex_pair(c.g);
    let b = crate::bytes::hex_pair(c.b);
    let six = r + g + b;
    assert(six.len() == 6);
    assert(six.subrange(0, 2) =~= r);
    assert(six.subrange(2, 4) =~= g);
    assert(six.subrange(4, 6) =~= b);
    lemma_hex_read(six, 0, c.r);
    lemma_hex_read(six, 2, c.g);
    lemma_hex_read(six, 4, c.b);
}

proof fn lemma_eight_digits(c: Color)
    ensures
        hex_color(
            crate::bytes::hex_pair(c.r) + crate::bytes::hex_pair(c.g) + crate::bytes::hex_pair(c.b)
                + crate::bytes::hex_pair(c.a),
        ) == Some(c),
{
    let r = crate::bytes::hex_pair(c.r);
    let g = crate::bytes::hex_pair(c.g);
    let b = crate::bytes::hex_pair(c.b);
    let a = crate::bytes::hex_pair(c.a);
    let eight = r + g + b + a;
    assert(eight.len() == 8);
    assert(eight.subrange(0, 2) =~= r);
    assert(eight.subrange(2, 4) =~= g);
    assert(eight.subrange(4, 6) =~= b);
    assert(eight.subrange(6, 8) =~= a);
    lemma_hex_read(eight, 0, c.r);
    lemma_hex_read(eight, 2, c.g);
    lemma_hex_read(eight, 4, c.b);
    lemma_hex_read(eight, 6, c.a);
}

/// The digits of three bytes write the opaque colour of them, those of four the colour with the last
/// as its opacity. Three digits write what each of them twice does, and no other number of digits
/// writes a colour.
pub proof fn digits_write_their_colour(c: Color, x: char, y: char, z: char, s: Seq<char>)
    ensures
        hex_color(
            crate::bytes::hex_pair(c.r) + crate::bytes::hex_pair(c.g) + crate::bytes::hex_pair(c.b),
        ) == Some(Color { r: c.r, g: c.g, b: c.b, a: 255 }),
        hex_color(
            crate::bytes::hex_pair(c.r) + crate::bytes::hex_pair(c.g) + crate::bytes::hex_pair(c.b)
                + crate::bytes::hex_pair(c.a),
        ) == Some(c),
        hex_color(seq![x, y, z]) == hex_color(seq![x, x, y, y, z, z]),
        s.len() != 3 && s.len() != 6 && s.len() != 8 ==> hex_color(s) is None,
{
    lemma_six_digits(c);
    lemma_eight_digits(c);
    let t = seq![x, x, y, y, z, z];
    assert(t.subrange(0, 2) =~= seq![x, x]);
    assert(t.subrange(2, 4) =~= seq![y, y]);
    assert(t.subrange(4, 6) =~= seq![z, z]);
}

/// What stands between brackets is found behind the right opening and before a closing bracket; the
/// parts of a list stand between its commas, without the space around them; and a decimal number of a
/// byte is read as the byte.
pub proof fn lists_are_read(a: Seq<char>, b: Seq<char>, opening: Seq<char>, n: nat)
    ensures
        bracketed(opening + a.push(')'), opening) == Some(a),
        !text::begins(a, opening) ==> bracketed(a, opening) is None,
        bracketed(opening + a, opening) is Some <==> a.len() > 0 && a.last() == ')',
        comma_parts(a.push(',') + b) == comma_parts(a) + comma_parts(b),
        !a.contains(',') ==> comma_parts(a) == seq![text::trimmed(a)],
        n <= 255 ==> decimal_byte(number::decimal(n)) == Some(n as u8),
        n > 255 ==> decimal_byte(number::decimal(n)) is None,
{
    text::beginnings_and_ends(opening, opening, a.push(')'));
    text::beginnings_and_ends(a, opening, a);
    assert(a.push(')').drop_last() =~= a);
    let k = CharClass::Is(',');
    text::texts_are_cut_at_their_class(a, ',', b, k);
    assert(comma_parts(a.push(',') + b) =~= comma_parts(a) + comma_parts(b));
    if !a.contains(',') {
        assert forall|i: int| 0 <= i < a.len() implies !k.has_char(#[trigger] a[i]) by {
            assert(a.contains(a[i]));
        }
        assert(comma_parts(a) =~= seq![text::trimmed(a)]);
    }
    number::number_text_round_trip(n, 10, n);
    if n <= 255 {
        number::number_text_round_trip(n, 10, 255);
    }
}

} // verus!
