//! Lists of bytes.
use crate::number;
use vstd::prelude::*;

verus! {

/// Appends bytes.
pub fn append_bytes(out: &mut Vec<u8>, bytes: &[u8])
    ensures
        final(out)@ == old(out)@ + bytes@,
{
    let ghost before = out@;
    let mut i: usize = 0;
    proof {
        assert(before + bytes@.take(0) =~= before);
    }
    while i < bytes.len()
        invariant
            i <= bytes@.len(),
            out@ == before + bytes@.take(i as int),
        decreases bytes@.len() - i,
    {
        out.push(bytes[i]);
        proof {
            assert(before + bytes@.take(i + 1) =~= (before + bytes@.take(i as int)).push(
                bytes@[i as int],
            ));
        }
        i = i + 1;
    }
    proof {
        assert(bytes@.take(bytes@.len() as int) =~= bytes@);
    }
}

/// A copy of bytes.
pub fn copy_bytes(bytes: &[u8]) -> (r: Vec<u8>)
    ensures
        r@ == bytes@,
{
    let mut out: Vec<u8> = Vec::new();
    append_bytes(&mut out, bytes);
    proof {
        assert(out@ =~= bytes@);
    }
    out
}

/// The bytes from one position up to another.
pub fn copy_part(bytes: &[u8], from: usize, to: usize) -> (r: Vec<u8>)
    requires
        from <= to <= bytes@.len(),
    ensures
        r@ == bytes@.subrange(from as int, to as int),
{
    let mut out: Vec<u8> = Vec::new();
    let mut i: usize = from;
    while i < to
        invariant
            from <= i <= to <= bytes@.len(),
            out@ == bytes@.subrange(from as int, i as int),
        decreases to - i,
    {
        out.push(bytes[i]);
        proof {
            assert(bytes@.subrange(from as int, i + 1) =~= bytes@.subrange(
                from as int,
                i as int,
            ).push(bytes@[i as int]));
        }
        i = i + 1;
    }
    out
}

/// The two hexadecimal digits of a byte.
pub open spec fn hex_pair(b: u8) -> Seq<char> {
    seq![
        number::digit_char((b as int / 16) as nat),
        number::digit_char((b as int % 16) as nat),
    ]
}

/// The hexadecimal digits of bytes.
pub open spec fn hex_text(v: Seq<u8>) -> Seq<char>
    decreases v.len(),
{
    if v.len() == 0 {
        Seq::empty()
    } else {
        hex_text(v.drop_last()) + hex_pair(v.last())
    }
}

/// Appends the hexadecimal digits of part of some bytes.
pub fn push_hex(out: &mut Vec<char>, v: &[u8], from: usize, to: usize)
    requires
        from <= to <= v@.len(),
    ensures
        final(out)@ == old(out)@ + hex_text(v@.subrange(from as int, to as int)),
{
    let ghost before = out@;
    let ghost part = v@.subrange(from as int, to as int);
    let mut i: usize = from;
    proof {
        assert(out@ =~= before + hex_text(part.take(0)));
    }
    while i < to
        invariant
            from <= i <= to <= v@.len(),
            part == v@.subrange(from as int, to as int),
            out@ == before + hex_text(part.take(i - from)),
        decreases to - i,
    {
        let b: u8 = v[i];
        proof {
            assert(part.take(i + 1 - from).drop_last() =~= part.take(i - from));
            assert(part.take(i + 1 - from).last() == b);
        }
        let ghost prev = out@;
        out.push(number::write_digit((b / 16) as u32));
        out.push(number::write_digit((b % 16) as u32));
        proof {
            assert(out@ =~= prev + hex_pair(b));
            assert(out@ =~= before + hex_text(part.take(i + 1 - from)));
        }
        i = i + 1;
    }
    proof {
        assert(part.take(part.len() as int) =~= part);
    }
}

/// Bytes have two hexadecimal digits each.
pub proof fn lemma_hex_len(v: Seq<u8>)
    ensures
        hex_text(v).len() == 2 * v.len(),
    decreases v.len(),
{
    if v.len() > 0 {
        lemma_hex_len(v.drop_last());
    }
}

/// The hexadecimal digits of bytes are those of the first and then those of the others, two for each
/// byte, which they write.
pub proof fn bytes_have_two_digits(a: Seq<u8>, b: Seq<u8>, x: u8)
    ensures
        hex_text(a + b) == hex_text(a) + hex_text(b),
        hex_text(b).len() == 2 * b.len(),
        hex_text(seq![x]).len() == 2,
        number::digits_value(hex_text(seq![x]), 16) == Some(x as nat),
    decreases b.len(),
{
    reveal_with_fuel(hex_text, 2);
    assert(seq![x].drop_last() =~= Seq::<u8>::empty());
    let p = hex_text(seq![x]);
    assert(p =~= hex_pair(x));
    let hi = (x as int / 16) as nat;
    let lo = (x as int % 16) as nat;
    number::digits_have_their_values(p[0], hi, 16);
    number::digits_have_their_values(p[1], lo, 16);
    let e = Seq::<char>::empty();
    number::digits_count_by_their_places(e, p[0], 16);
    number::digits_count_by_their_places(e.push(p[0]), p[1], 16);
    assert(p =~= e.push(p[0]).push(p[1]));
    if b.len() == 0 {
        assert(a + b =~= a);
        assert(hex_text(a) + hex_text(b) =~= hex_text(a));
    } else {
        bytes_have_two_digits(a, b.drop_last(), x);
        assert((a + b).drop_last() =~= a + b.drop_last());
        assert((a + b).last() == b.last());
        assert(hex_text(a + b) =~= hex_text(a) + hex_text(b));
    }
}

} // verus!
