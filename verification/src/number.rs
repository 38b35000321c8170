//! Whole numbers as text, in any radix up to sixteen.
use vstd::prelude::*;

verus! {

/// The value of a digit, or `None` where the character is no digit of that radix.
pub open spec fn digit_value(c: char, radix: nat) -> Option<nat> {
    let n = c as int;
    let v = if 48 <= n <= 57 {
        n - 48
    } else if 97 <= n <= 122 {
        n - 97 + 10
    } else if 65 <= n <= 90 {
        n - 65 + 10
    } else {
        99
    };
    if v < radix {
        Some(v as nat)
    } else {
        None
    }
}

/// The number that a text of digits writes, or `None` where it holds anything else.
/// The empty text writes zero.
pub open spec fn digits_value(s: Seq<char>, radix: nat) -> Option<nat>
    decreases s.len(),
{
    if s.len() == 0 {
        Some(0)
    } else {
        match (digits_value(s.drop_last(), radix), digit_value(s.last(), radix)) {
            (Some(v), Some(d)) => Some(v * radix + d),
            _ => None,
        }
    }
}

/// The digits of a number text: what follows one optional plus sign.
pub open spec fn unsigned_digits(s: Seq<char>) -> Seq<char> {
    if s.len() > 0 && s[0] == '+' {
        s.skip(1)
    } else {
        s
    }
}

/// The unsigned number that a text writes: an optional plus sign, then one digit or more,
/// and a value no larger than the limit.
pub open spec fn unsigned_value(s: Seq<char>, radix: nat, limit: nat) -> Option<nat> {
    let d = unsigned_digits(s);
    if d.len() == 0 {
        None
    } else {
        match digits_value(d, radix) {
            Some(v) => if v <= limit {
                Some(v)
            } else {
                None
            },
            None => None,
        }
    }
}

/// The digit character of a value below sixteen.
pub open spec fn digit_char(d: nat) -> char {
    if d < 10 {
        (48 + d) as char
    } else {
        (87 + d) as char
    }
}

/// The digits of a number, the highest first, without leading zeros, letters in lower case.
pub open spec fn digits_of(n: nat, radix: nat) -> Seq<char>
    decreases n,
{
    if radix < 2 || n < radix {
        seq![digit_char(n)]
    } else {
        proof {
            assert(n / radix < n) by (nonlinear_arith)
                requires
                    n >= radix,
                    radix >= 2,
            ;
        }
        digits_of(n / radix, radix).push(digit_char(n % radix))
    }
}

/// The decimal digits of a number.
pub open spec fn decimal(n: nat) -> Seq<char> {
    digits_of(n, 10)
}

/// The hexadecimal digits of a number.
pub open spec fn hexadecimal(n: nat) -> Seq<char> {
    digits_of(n, 16)
}

/// The value of a digit of the radix.
pub fn read_digit(c: char, radix: u32) -> (r: Option<u32>)
    requires
        radix <= 16,
    ensures
        r matches Some(d) ==> digit_value(c, radix as nat) == Some(d as nat) && d < radix,
        r is None ==> digit_value(c, radix as nat) is None,
{
    let n: u32 = c as u32;
    let v: u32 = if 48 <= n && n <= 57 {
        n - 48
    } else if 97 <= n && n <= 122 {
        n - 97 + 10
    } else if 65 <= n && n <= 90 {
        n - 65 + 10
    } else {
        99
    };
    if v < radix {
        Some(v)
    } else {
        None
    }
}

/// A longer run of digits never writes a smaller number.
pub proof fn lemma_digits_grow(s: Seq<char>, radix: nat, n: int)
    requires
        0 <= n <= s.len(),
        radix >= 1,
        digits_value(s, radix) is Some,
    ensures
        digits_value(s.take(n), radix) is Some,
        digits_value(s.take(n), radix)->0 <= digits_value(s, radix)->0,
    decreases s.len() - n,
{
    if n == s.len() {
        assert(s.take(n) =~= s);
    } else {
        let t = s.drop_last();
        assert(t.take(n) =~= s.take(n));
        lemma_digits_grow(t, radix, n);
        let v = digits_value(t, radix)->0;
        assert(v <= v * radix) by (nonlinear_arith)
            requires
                radix >= 1,
        ;
    }
}

/// Reads an unsigned number of at most the given limit.
pub fn read_unsigned(cs: &[char], radix: u32, limit: u64) -> (r: Option<u64>)
    requires
        2 <= radix <= 16,
    ensures
        r matches Some(v) ==> unsigned_value(cs@, radix as nat, limit as nat) == Some(v as nat),
        r is None ==> unsigned_value(cs@, radix as nat, limit as nat) is None,
{
    let start: usize = if cs.len() > 0 && cs[0] == '+' {
        1
    } else {
        0
    };
    let ghost d = unsigned_digits(cs@);
    proof {
        assert(d =~= cs@.skip(start as int));
    }
    if start == cs.len() {
        return None;
    }
    let mut acc: u64 = 0;
    let mut i: usize = start;
    while i < cs.len()
        invariant
            start <= i <= cs@.len(),
            d == cs@.skip(start as int),
            2 <= radix <= 16,
            acc <= limit,
            d == unsigned_digits(cs@),
            d.len() > 0,
            digits_value(d.take(i - start), radix as nat) == Some(acc as nat),
        decreases cs@.len() - i,
    {
        let ghost k = i - start;
        proof {
            assert(d.take(k + 1).drop_last() =~= d.take(k));
            assert(d.take(k + 1).last() == cs@[i as int]);
            if digits_value(d, radix as nat) is Some {
                lemma_digits_grow(d, radix as nat, k + 1);
            }
        }
        match read_digit(cs[i], radix) {
            None => {
                return None;
            },
            Some(v) => {
                proof {
                    assert(acc * radix <= 0xffff_ffff_ffff_ffff * 16) by (nonlinear_arith)
                        requires
                            acc <= 0xffff_ffff_ffff_ffff,
                            radix <= 16,
                    ;
                    assert(acc as nat * radix as nat == acc * radix) by (nonlinear_arith);
                }
                let next: u128 = acc as u128 * radix as u128 + v as u128;
                if next > limit as u128 {
                    return None;
                }
                acc = next as u64;
            },
        }
        i = i + 1;
    }
    proof {
        assert(d.take(d.len() as int) =~= d);
    }
    Some(acc)
}

/// Writes the digit of a value below sixteen.
pub fn write_digit(d: u32) -> (r: char)
    requires
        d < 16,
    ensures
        r == digit_char(d as nat),
{
    if d < 10 {
        (48 + d as u8) as char
    } else {
        (87 + d as u8) as char
    }
}

/// Writes a number in a radix.
pub fn write_digits(n: u128, radix: u32) -> (r: Vec<char>)
    requires
        2 <= radix <= 16,
    ensures
        r@ == digits_of(n as nat, radix as nat),
    decreases n,
{
    let m: u128 = radix as u128;
    if n < m {
        let mut out: Vec<char> = Vec::new();
        out.push(write_digit(n as u32));
        proof {
            assert(out@ =~= digits_of(n as nat, radix as nat));
        }
        out
    } else {
        proof {
            assert(n / m < n) by (nonlinear_arith)
                requires
                    n >= m,
                    m >= 2,
            ;
            assert(n % m < m) by (nonlinear_arith)
                requires
                    m >= 2,
            ;
        }
        let mut out = write_digits(n / m, radix);
        out.push(write_digit((n % m) as u32));
        out
    }
}

/// Writes a number in decimal.
pub fn write_decimal(n: u128) -> (r: Vec<char>)
    ensures
        r@ == decimal(n as nat),
{
    write_digits(n, 10)
}

/// A digit of a radix reads back as the value that it was written for.
pub proof fn lemma_digit_round_trip(d: nat, radix: nat)
    requires
        d < radix <= 16,
    ensures
        digit_value(digit_char(d), radix) == Some(d),
{
}

/// A number that was written reads back as itself, and is written with at least one digit.
pub proof fn lemma_digits_round_trip(n: nat, radix: nat)
    requires
        2 <= radix <= 16,
    ensures
        digits_value(digits_of(n, radix), radix) == Some(n),
        digits_of(n, radix).len() >= 1,
    decreases n,
{
    let s = digits_of(n, radix);
    if n < radix {
        lemma_digit_round_trip(n, radix);
        assert(s =~= seq![digit_char(n)]);
        assert(s.drop_last() =~= Seq::<char>::empty());
        assert(s.last() == digit_char(n));
        assert(digits_value(s.drop_last(), radix) == Some(0nat));
        assert(0nat * radix == 0) by (nonlinear_arith);
    } else {
        assert(n / radix < n) by (nonlinear_arith)
            requires
                n >= radix,
                radix >= 2,
        ;
        lemma_digits_round_trip(n / radix, radix);
        assert(n % radix < radix) by (nonlinear_arith)
            requires
                radix >= 2,
        ;
        lemma_digit_round_trip(n % radix, radix);
        assert(s.drop_last() =~= digits_of(n / radix, radix));
        assert((n / radix) * radix + n % radix == n) by (nonlinear_arith)
            requires
                radix >= 2,
        ;
    }
}

/// Each digit written is a digit character, none of them a plus sign.
pub proof fn lemma_digits_are_digits(n: nat, radix: nat)
    requires
        2 <= radix <= 16,
    ensures
        forall|i: int|
            0 <= i < digits_of(n, radix).len() ==> digit_value(
                #[trigger] digits_of(n, radix)[i],
                radix,
            ) is Some,
    decreases n,
{
    if n < radix {
        lemma_digit_round_trip(n, radix);
    } else {
        assert(n / radix < n) by (nonlinear_arith)
            requires
                n >= radix,
                radix >= 2,
        ;
        lemma_digits_are_digits(n / radix, radix);
        assert(n % radix < radix) by (nonlinear_arith)
            requires
                radix >= 2,
        ;
        lemma_digit_round_trip(n % radix, radix);
    }
}

/// Reading undoes writing: the text of a number within the limit is read as that number.
pub proof fn number_text_round_trip(n: nat, radix: nat, limit: nat)
    requires
        2 <= radix <= 16,
        n <= limit,
    ensures
        unsigned_value(digits_of(n, radix), radix, limit) == Some(n),
{
    lemma_digits_round_trip(n, radix);
    lemma_digits_are_digits(n, radix);
    let s = digits_of(n, radix);
    assert(digit_value(s[0], radix) is Some);
    assert(unsigned_digits(s) == s);
}

/// The digits are those of every day, and the small letters from `a` on; capital letters are read
/// as the small ones. Nothing else is a digit.
pub proof fn digits_have_their_values(c: char, d: nat, radix: nat)
    requires
        d < radix <= 16,
    ensures
        d < 10 ==> digit_char(d) as int == '0' as int + d,
        10 <= d ==> digit_char(d) as int == 'a' as int + (d - 10),
        digit_value(c, radix) == Some(d) <==> (d < 10 && c as int == '0' as int + d) || (10 <= d
            && (c as int == 'a' as int + (d - 10) || c as int == 'A' as int + (d - 10))),
{
}

/// A number counts its digits by their places: one more digit makes it the radix times as large, and
/// adds the digit. A text with anything else than digits writes no number.
pub proof fn digits_count_by_their_places(s: Seq<char>, c: char, radix: nat)
    ensures
        digits_value(Seq::empty(), radix) == Some(0nat),
        match (digits_value(s, radix), digit_value(c, radix)) {
            (Some(v), Some(d)) => digits_value(s.push(c), radix) == Some(v * radix + d),
            _ => digits_value(s.push(c), radix) is None,
        },
{
    assert(s.push(c).drop_last() =~= s);
}

/// What reads as an unsigned number: digits, of which there is one at least, with or without one
/// plus sign before them, and no more than the limit.
pub proof fn numbers_are_read(s: Seq<char>, radix: nat, limit: nat, n: nat)
    ensures
        unsigned_value(Seq::empty(), radix, limit) is None,
        unsigned_value(seq!['+'], radix, limit) is None,
        s.len() > 0 && s[0] != '+' ==> (unsigned_value(s, radix, limit) == Some(n) <==> digits_value(
            s,
            radix,
        ) == Some(n) && n <= limit),
        s.len() > 0 && s[0] != '+' ==> unsigned_value(seq!['+'] + s, radix, limit)
            == unsigned_value(s, radix, limit),
        s.len() > 0 && s[0] == '+' && radix <= 16 ==> unsigned_value(seq!['+'] + s, radix, limit)
            is None,
    decreases s.len(),
{
    assert(seq!['+'].skip(1) =~= Seq::<char>::empty());
    assert((seq!['+'] + s).skip(1) =~= s);
    if s.len() > 0 && s[0] == '+' && radix <= 16 {
        lemma_plus_is_no_digit(s, radix);
    }
}

proof fn lemma_plus_is_no_digit(s: Seq<char>, radix: nat)
    requires
        s.len() > 0,
        s[0] == '+',
        radix <= 16,
    ensures
        digits_value(s, radix) is None,
    decreases s.len(),
{
    if s.len() > 1 {
        lemma_plus_is_no_digit(s.drop_last(), radix);
    }
}

/// A number is written without zeros before it.
pub proof fn numbers_have_no_leading_zeros(n: nat, radix: nat)
    requires
        2 <= radix <= 16,
    ensures
        digits_of(n, radix).len() > 1 ==> digits_of(n, radix)[0] != '0',
        n > 0 ==> digits_of(n, radix)[0] != '0',
        n < radix <==> digits_of(n, radix).len() == 1,
        decimal(n) == digits_of(n, 10),
        hexadecimal(n) == digits_of(n, 16),
    decreases n,
{
    lemma_digits_round_trip(n, radix);
    if n >= radix {
        assert(1 <= n / radix < n) by (nonlinear_arith)
            requires
                n >= radix,
                radix >= 2,
        ;
        numbers_have_no_leading_zeros(n / radix, radix);
        lemma_digits_round_trip(n / radix, radix);
        assert(digits_of(n, radix)[0] == digits_of(n / radix, radix)[0]);
    }
}

} // verus!
