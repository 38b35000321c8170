//! Stores of values by key, kept as files: the names of the files, and the keys they stand for.
use crate::bytes;
use crate::number;
use crate::sort;
use crate::text;
use vstd::prelude::*;
use vstd::string::*;
use vstd::utf8::*;

verus! {

/// The name of the file for a key: the hexadecimal digits of its UTF-8 bytes.
pub open spec fn file_name_of(key: Seq<char>) -> Seq<char> {
    bytes::hex_text(encode_utf8(key))
}

/// The name of the file for a key.
pub fn key_to_filename(key: &str) -> (r: String)
    ensures
        r@ == file_name_of(key@),
{
    let b = key.as_bytes();
    let mut out: Vec<char> = Vec::new();
    let n: usize = b.len();
    bytes::push_hex(&mut out, b, 0, n);
    proof {
        assert(b@.subrange(0, n as int) =~= b@);
        assert(out@ =~= file_name_of(key@));
    }
    text::to_text(&out)
}

/// The bytes that pairs of hexadecimal digits write, where all are such pairs.
pub open spec fn pair_bytes(s: Seq<char>) -> Option<Seq<u8>>
    decreases s.len(),
{
    if s.len() == 0 {
        Some(Seq::empty())
    } else if s.len() == 1 {
        None
    } else {
        let n = s.len() - 2;
        match (pair_bytes(s.take(n)), number::unsigned_value(s.skip(n), 16, 255)) {
            (Some(v), Some(b)) => Some(v.push(b as u8)),
            _ => None,
        }
    }
}

/// The key that a file's name stands for, where it stands for one.
pub open spec fn key_of(name: Seq<char>) -> Option<Seq<char>> {
    match pair_bytes(name) {
        Some(b) => if valid_utf8(b) {
            Some(decode_utf8(b))
        } else {
            None
        },
        None => None,
    }
}

/// `String::from_utf8` of std gives the text that bytes encode where they are valid UTF-8, and
/// refuses other bytes.
#[verifier::external_body]
fn text_from_utf8(b: Vec<u8>) -> (r: Option<String>)
    ensures
        r is Some <==> valid_utf8(b@),
        r matches Some(s) ==> s@ == decode_utf8(b@),
{
    String::from_utf8(b).ok()
}

fn read_pairs(cs: &Vec<char>) -> (r: Option<Vec<u8>>)
    ensures
        pair_bytes(cs@) == match r {
            Some(v) => Some(v@),
            None => None,
        },
{
    let n: usize = cs.len();
    let mut out: Vec<u8> = Vec::new();
    let mut good: bool = true;
    let mut i: usize = 0;
    proof {
        assert(cs@.take(0) =~= Seq::empty());
        assert(out@ =~= Seq::empty());
    }
    while n - i >= 2
        invariant
            n == cs@.len(),
            i <= n,
            i % 2 == 0,
            pair_bytes(cs@.take(i as int)) == (if good {
                Some(out@)
            } else {
                None
            }),
        decreases n - i,
    {
        let pair = text::copy_range(cs, i, i + 2);
        let value = number::read_unsigned(&pair, 16, 255);
        proof {
            let s = cs@.take(i + 2);
            assert(s.take(s.len() - 2) =~= cs@.take(i as int));
            assert(s.skip(s.len() - 2) =~= pair@);
        }
        match value {
            Some(b) => {
                out.push(b as u8);
            },
            None => {
                good = false;
            },
        }
        i = i + 2;
    }
    if i < n {
        proof {
            lemma_odd(cs@);
        }
        return None;
    }
    proof {
        assert(cs@.take(n as int) =~= cs@);
    }
    if good {
        Some(out)
    } else {
        None
    }
}

proof fn lemma_odd(s: Seq<char>)
    requires
        s.len() % 2 == 1,
    ensures
        pair_bytes(s) is None,
    decreases s.len(),
{
    if s.len() > 1 {
        lemma_odd(s.take(s.len() - 2));
    }
}

/// The key that a file's name stands for, where it stands for one.
pub fn filename_to_key(name: &str) -> (r: Option<String>)
    ensures
        text::opt_text(r) == key_of(name@),
{
    let cs = text::to_chars(name);
    match read_pairs(&cs) {
        Some(b) => text_from_utf8(b),
        None => None,
    }
}

proof fn lemma_pairs(v: Seq<u8>)
    ensures
        pair_bytes(bytes::hex_text(v)) == Some(v),
    decreases v.len(),
{
    let s = bytes::hex_text(v);
    if v.len() == 0 {
        assert(v =~= Seq::empty());
    } else {
        let rest = v.drop_last();
        let b = v.last();
        lemma_pairs(rest);
        bytes::lemma_hex_len(rest);
        let n = s.len() - 2;
        assert(s.take(n) =~= bytes::hex_text(rest));
        assert(s.skip(n) =~= bytes::hex_pair(b));
        let hi = (b as int / 16) as nat;
        let lo = (b as int % 16) as nat;
        let p = bytes::hex_pair(b);
        number::lemma_digit_round_trip(hi, 16);
        number::lemma_digit_round_trip(lo, 16);
        assert(p[0] == number::digit_char(hi) && p[1] == number::digit_char(lo));
        assert(p[0] != '+');
        assert(number::unsigned_digits(p) == p);
        assert(p.drop_last() =~= seq![p[0]]);
        assert(seq![p[0]].drop_last() =~= Seq::empty());
        reveal_with_fuel(number::digits_value, 3);
        assert(number::digits_value(p, 16) == Some((16 * hi + lo) as nat));
        assert(number::unsigned_value(p, 16, 255) == Some(b as nat));
        assert(rest.push(b) =~= v);
    }
}

/// A key is read back from the name of its file.
pub proof fn key_is_read_back(key: Seq<char>)
    ensures
        key_of(file_name_of(key)) == Some(key),
{
    lemma_pairs(encode_utf8(key));
    encode_utf8_valid_utf8(key);
    encode_utf8_decode_utf8(key);
}

/// Different keys have files with different names.
pub proof fn file_names_differ(a: Seq<char>, b: Seq<char>)
    requires
        a != b,
    ensures
        file_name_of(a) != file_name_of(b),
{
    key_is_read_back(a);
    key_is_read_back(b);
}

/// The keys that the names of files stand for, in the order of the names; files that are still
/// being written and names that stand for no key are passed over.
pub open spec fn keys_of(names: Seq<Seq<char>>) -> Seq<Seq<char>>
    decreases names.len(),
{
    if names.len() == 0 {
        Seq::empty()
    } else {
        let before = keys_of(names.drop_last());
        let name = names.last();
        match key_of(name) {
            Some(k) => if text::ends(name, ".tmp"@) {
                before
            } else {
                before.push(k)
            },
            None => before,
        }
    }
}

/// The keys of a store, in order, from the names of its files.
pub fn store_get_all_keys(names: &Vec<String>) -> (r: Vec<String>)
    ensures
        sort::in_order(text::texts(r@)),
        text::texts(r@).to_multiset() == keys_of(text::texts(names@)).to_multiset(),
{
    let ghost t = text::texts(names@);
    let mut keys: Vec<String> = Vec::new();
    let mut i: usize = 0;
    proof {
        assert(text::texts(keys@) =~= keys_of(t.take(0)));
    }
    while i < names.len()
        invariant
            i <= names@.len(),
            t == text::texts(names@),
            text::texts(keys@) == keys_of(t.take(i as int)),
        decreases names@.len() - i,
    {
        proof {
            assert(t.take(i + 1).drop_last() =~= t.take(i as int));
            assert(t.take(i + 1).last() == names@[i as int]@);
        }
        let cs = text::to_chars(&names[i]);
        if !text::ends_with(&cs, ".tmp") {
            match filename_to_key(&names[i]) {
                Some(k) => {
                    let ghost prev = keys@;
                    let ghost kv = k@;
                    keys.push(k);
                    proof {
                        assert(text::texts(keys@) =~= text::texts(prev).push(kv));
                    }
                },
                None => {},
            }
        }
        i = i + 1;
    }
    proof {
        assert(t.take(t.len() as int) =~= t);
    }
    sort::sort_texts(keys)
}

proof fn lemma_hex_ends(v: Seq<u8>)
    requires
        v.len() > 0,
    ensures
        bytes::hex_text(v).len() > 0,
        bytes::hex_text(v).last() != 'p',
{
    number::digits_have_their_values('p', (v.last() as int % 16) as nat, 16);
}

/// The keys of a directory are those that its files were named for, in the order of the names; what is
/// still being written, and what is named otherwise, is no key.
pub proof fn files_tell_their_keys(
    names: Seq<Seq<char>>,
    key: Seq<char>,
    name: Seq<char>,
    more: Seq<Seq<char>>,
)
    ensures
        keys_of(names.push(file_name_of(key))) == keys_of(names).push(key),
        keys_of(names.push(name + ".tmp"@)) == keys_of(names),
        key_of(name) is None ==> keys_of(names.push(name)) == keys_of(names),
        keys_of(names + more) == keys_of(names) + keys_of(more),
    decreases more.len(),
{
    let f = file_name_of(key);
    reveal_strlit(".tmp");
    key_is_read_back(key);
    assert(names.push(f).drop_last() =~= names);
    assert(names.push(name).drop_last() =~= names);
    assert(names.push(name + ".tmp"@).drop_last() =~= names);
    text::beginnings_and_ends(name + ".tmp"@, ".tmp"@, name);
    if text::ends(f, ".tmp"@) {
        text::beginnings_and_ends(f, ".tmp"@, name);
        assert(f.last() == 'p');
        if encode_utf8(key).len() > 0 {
            lemma_hex_ends(encode_utf8(key));
        }
    }
    if more.len() == 0 {
        assert(names + more =~= names);
        assert(keys_of(names) + keys_of(more) =~= keys_of(names));
    } else {
        files_tell_their_keys(names, key, name, more.drop_last());
        assert((names + more).drop_last() =~= names + more.drop_last());
        assert((names + more).last() == more.last());
        assert(keys_of(names + more) =~= keys_of(names) + keys_of(more));
    }
}

} // verus!
