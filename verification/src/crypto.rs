//! Cryptography for scripts: random values, and keys that sign and encrypt by the `ring` crate.
use crate::bytes;
use crate::number;
use crate::registry;
use crate::registry::{Registry, RegistryView};
use crate::text;
use ring::rand::SecureRandom;
use ring::{aead, digest, hmac};
use vstd::prelude::*;
use vstd::string::*;

verus! {

broadcast use crate::registry::group_registry;

/// A hash function.
#[derive(Clone, Copy, PartialEq, Eq, Structural, Debug)]
pub enum HashKind {
    Sha1,
    Sha256,
    Sha384,
    Sha512,
}

/// An encryption that authenticates, by the length of its keys.
#[derive(Clone, Copy, PartialEq, Eq, Structural, Debug)]
pub enum AeadKind {
    Aes128Gcm,
    Aes256Gcm,
}

/// The most bytes that a hash function is given here.
pub const HASH_LIMIT: u64 = 0x1fff_ffff_ffff_ff00;

/// The most bytes that are encrypted in one piece.
pub const SEAL_LIMIT: u64 = 0xf_ffff_ffe0;

/// How many bytes a hash has.
pub open spec fn hash_len(kind: HashKind) -> nat {
    match kind {
        HashKind::Sha1 => 20,
        HashKind::Sha256 => 32,
        HashKind::Sha384 => 48,
        HashKind::Sha512 => 64,
    }
}

/// The result of `ring::digest::digest`.
pub uninterp spec fn hash_of(kind: HashKind, data: Seq<u8>) -> Seq<u8>;

/// The result of `ring::hmac::sign`.
pub uninterp spec fn tag_of(kind: HashKind, key: Seq<u8>, data: Seq<u8>) -> Seq<u8>;

/// The result of `ring::aead::LessSafeKey::seal_in_place_append_tag`.
pub uninterp spec fn sealed(
    kind: AeadKind,
    key: Seq<u8>,
    iv: Seq<u8>,
    data: Seq<u8>,
) -> Option<Seq<u8>>;

/// `ring::digest::digest` gives the hash of the data, which depends on the function and the
/// data alone and has the length of the function's hashes.
#[verifier::external_body]
fn ring_digest(kind: HashKind, data: &[u8]) -> (r: Vec<u8>)
    requires
        data@.len() <= HASH_LIMIT,
    ensures
        r@ == hash_of(kind, data@),
        r@.len() == hash_len(kind),
{
    let algorithm = match kind {
        HashKind::Sha1 => &digest::SHA1_FOR_LEGACY_USE_ONLY,
        HashKind::Sha256 => &digest::SHA256,
        HashKind::Sha384 => &digest::SHA384,
        HashKind::Sha512 => &digest::SHA512,
    };
    digest::digest(algorithm, data).as_ref().to_vec()
}

/// `ring::hmac::sign` gives the tag of the data under a key, which depends on the hash function,
/// the key and the data alone and has the length of the function's hashes.
#[verifier::external_body]
fn ring_sign(kind: HashKind, key: &[u8], data: &[u8]) -> (r: Vec<u8>)
    requires
        key@.len() <= HASH_LIMIT,
        data@.len() <= HASH_LIMIT,
    ensures
        r@ == tag_of(kind, key@, data@),
        r@.len() == hash_len(kind),
{
    let algorithm = match kind {
        HashKind::Sha1 => hmac::HMAC_SHA1_FOR_LEGACY_USE_ONLY,
        HashKind::Sha256 => hmac::HMAC_SHA256,
        HashKind::Sha384 => hmac::HMAC_SHA384,
        HashKind::Sha512 => hmac::HMAC_SHA512,
    };
    hmac::sign(&hmac::Key::new(algorithm, key), data).as_ref().to_vec()
}

/// `ring::hmac::verify` tells whether a tag is the one that `ring::hmac::sign` gives.
#[verifier::external_body]
fn ring_verify(kind: HashKind, key: &[u8], data: &[u8], tag: &[u8]) -> (r: bool)
    requires
        key@.len() <= HASH_LIMIT,
        data@.len() <= HASH_LIMIT,
    ensures
        r == (tag@ == tag_of(kind, key@, data@)),
{
    let algorithm = match kind {
        HashKind::Sha1 => hmac::HMAC_SHA1_FOR_LEGACY_USE_ONLY,
        HashKind::Sha256 => hmac::HMAC_SHA256,
        HashKind::Sha384 => hmac::HMAC_SHA384,
        HashKind::Sha512 => hmac::HMAC_SHA512,
    };
    hmac::verify(&hmac::Key::new(algorithm, key), data, tag).is_ok()
}

/// How many bytes a key has.
pub open spec fn aead_key_len(kind: AeadKind) -> nat {
    match kind {
        AeadKind::Aes128Gcm => 16,
        AeadKind::Aes256Gcm => 32,
    }
}

/// `ring::aead::LessSafeKey::seal_in_place_append_tag`, with nothing but the data to
/// authenticate: the encrypted data with its tag of sixteen bytes, which depend on the
/// arguments alone; refused only for data beyond the limit of the encryption.
#[verifier::external_body]
fn ring_seal(kind: AeadKind, key: &[u8], iv: [u8; 12], data: &[u8]) -> (r: Option<Vec<u8>>)
    requires
        key@.len() == aead_key_len(kind),
    ensures
        opt_bytes(r) == sealed(kind, key@, iv@, data@),
        r is Some <==> data@.len() <= SEAL_LIMIT,
        r matches Some(v) ==> v@.len() == data@.len() + 16,
{
    let algorithm = match kind {
        AeadKind::Aes128Gcm => &aead::AES_128_GCM,
        AeadKind::Aes256Gcm => &aead::AES_256_GCM,
    };
    let key = aead::LessSafeKey::new(aead::UnboundKey::new(algorithm, key).ok()?);
    let mut buf = data.to_vec();
    let nonce = aead::Nonce::assume_unique_for_key(iv);
    key.seal_in_place_append_tag(nonce, aead::Aad::empty(), &mut buf).ok()?;
    Some(buf)
}

/// `ring::aead::LessSafeKey::open_in_place`, with nothing but the data to authenticate: the
/// data that sealing turns into the given bytes, where there is such data; refused otherwise.
#[verifier::external_body]
fn ring_open(kind: AeadKind, key: &[u8], iv: [u8; 12], data: &[u8]) -> (r: Option<Vec<u8>>)
    requires
        key@.len() == aead_key_len(kind),
    ensures
        r matches Some(p) ==> sealed(kind, key@, iv@, p@) == Some(data@) && p@.len() + 16
            == data@.len(),
        forall|q: Seq<u8>| #[trigger]
            sealed(kind, key@, iv@, q) == Some(data@) ==> opt_bytes(r) == Some(q),
{
    let algorithm = match kind {
        AeadKind::Aes128Gcm => &aead::AES_128_GCM,
        AeadKind::Aes256Gcm => &aead::AES_256_GCM,
    };
    let key = aead::LessSafeKey::new(aead::UnboundKey::new(algorithm, key).ok()?);
    let mut buf = data.to_vec();
    let nonce = aead::Nonce::assume_unique_for_key(iv);
    let plain = key.open_in_place(nonce, aead::Aad::empty(), &mut buf).ok()?;
    Some(plain.to_vec())
}

/// `ring::rand::SystemRandom::fill` fills so many bytes with random ones, unless the system
/// gives none. No more bytes than an allocation can have can be asked for.
#[verifier::external_body]
fn random_bytes(n: usize) -> (r: Option<Vec<u8>>)
    requires
        n <= isize::MAX,
    ensures
        r matches Some(v) ==> v@.len() == n,
{
    let mut out = vec![0u8; n];
    ring::rand::SystemRandom::new().fill(&mut out).ok()?;
    Some(out)
}

/// The plain value of bytes, where there are some.
pub open spec fn opt_bytes(b: Option<Vec<u8>>) -> Option<Seq<u8>> {
    match b {
        Some(v) => Some(v@),
        None => None,
    }
}

/// A key.
pub struct CryptoKeyEntry {
    pub algorithm: String,
    pub hash: Option<String>,
    pub extractable: bool,
    pub usages: Vec<String>,
    pub raw: Vec<u8>,
}

/// A key over plain values.
pub struct KeyView {
    pub algorithm: Seq<char>,
    pub hash: Option<Seq<char>>,
    pub extractable: bool,
    pub usages: Seq<Seq<char>>,
    pub raw: Seq<u8>,
}

impl View for CryptoKeyEntry {
    type V = KeyView;

    open spec fn view(&self) -> KeyView {
        KeyView {
            algorithm: self.algorithm@,
            hash: text::opt_text(self.hash),
            extractable: self.extractable,
            usages: text::texts(self.usages@),
            raw: self.raw@,
        }
    }
}

/// A word between two others.
pub fn with_word(before: &str, word: &str, after: &str) -> (r: String)
    ensures
        r@ == before@ + word@ + after@,
{
    let mut out = text::to_chars(before);
    text::push_text(&mut out, word);
    text::push_text(&mut out, after);
    text::to_text(&out)
}

fn with_number(before: &str, n: u64, after: &str) -> (r: String)
    ensures
        r@ == before@ + number::decimal(n as nat) + after@,
{
    let mut out = text::to_chars(before);
    let d = number::write_decimal(n as u128);
    text::push_chars(&mut out, &d);
    text::push_text(&mut out, after);
    text::to_text(&out)
}

/// The hash function with a name, up to the case of its letters.
pub open spec fn hash_named(name: Seq<char>) -> Option<HashKind> {
    let up = text::upper(name);
    if up == "SHA-1"@ {
        Some(HashKind::Sha1)
    } else if up == "SHA-256"@ {
        Some(HashKind::Sha256)
    } else if up == "SHA-384"@ {
        Some(HashKind::Sha384)
    } else if up == "SHA-512"@ {
        Some(HashKind::Sha512)
    } else {
        None
    }
}

/// The hash function with a name, up to the case of its letters.
pub fn digest_algorithm(name: &str) -> (r: Option<HashKind>)
    ensures
        r == hash_named(name@),
{
    let up = text::upper_text(name);
    if text::same(&up, "SHA-1") {
        Some(HashKind::Sha1)
    } else if text::same(&up, "SHA-256") {
        Some(HashKind::Sha256)
    } else if text::same(&up, "SHA-384") {
        Some(HashKind::Sha384)
    } else if text::same(&up, "SHA-512") {
        Some(HashKind::Sha512)
    } else {
        None
    }
}

/// The encryption with a name, up to the case of its letters, for keys of a length.
pub open spec fn aead_named(name: Seq<char>, key_len: nat) -> Option<AeadKind> {
    if text::upper(name) == "AES-GCM"@ && key_len == 16 {
        Some(AeadKind::Aes128Gcm)
    } else if text::upper(name) == "AES-GCM"@ && key_len == 32 {
        Some(AeadKind::Aes256Gcm)
    } else {
        None
    }
}

/// The encryption with a name, up to the case of its letters, for keys of a length.
pub fn aead_algorithm(name: &str, key_len: usize) -> (r: Option<AeadKind>)
    ensures
        r == aead_named(name@, key_len as nat),
{
    let up = text::upper_text(name);
    if text::same(&up, "AES-GCM") && key_len == 16 {
        Some(AeadKind::Aes128Gcm)
    } else if text::same(&up, "AES-GCM") && key_len == 32 {
        Some(AeadKind::Aes256Gcm)
    } else {
        None
    }
}

/// What is wrong with a call for a hash: the first of these that holds.
pub open spec fn digest_error(name: Option<Seq<char>>, data: Option<Seq<u8>>) -> Option<Seq<char>> {
    match name {
        None => Some("digest: missing algorithm"@),
        Some(n) => if hash_named(n) is None {
            Some("digest: unsupported algorithm "@ + n + ""@)
        } else if data is None {
            Some("digest: invalid data"@)
        } else {
            None
        },
    }
}

/// The view of an optional text.
pub open spec fn opt_view(s: Option<&str>) -> Option<Seq<char>> {
    match s {
        Some(t) => Some(t@),
        None => None,
    }
}

/// The view of optional bytes.
pub open spec fn opt_slice(b: Option<&Vec<u8>>) -> Option<Seq<u8>> {
    match b {
        Some(v) => Some(v@),
        None => None,
    }
}

/// The hash of data.
pub fn subtle_digest(name: Option<&str>, data: Option<&Vec<u8>>) -> (r: Result<Vec<u8>, String>)
    requires
        data matches Some(d) ==> d@.len() <= HASH_LIMIT,
    ensures
        match digest_error(opt_view(name), opt_slice(data)) {
            Some(e) => r matches Err(m) && m@ == e,
            None => r matches Ok(v) && v@ == hash_of(
                hash_named(opt_view(name)->0)->0,
                opt_slice(data)->0,
            ) && v@.len() == hash_len(hash_named(opt_view(name)->0)->0),
        },
{
    let name = match name {
        Some(n) => n,
        None => {
            return Err(text::copy("digest: missing algorithm"));
        },
    };
    let kind = match digest_algorithm(name) {
        Some(k) => k,
        None => {
            return Err(with_word("digest: unsupported algorithm ", name, ""));
        },
    };
    match data {
        Some(d) => Ok(ring_digest(kind, d)),
        None => Err(text::copy("digest: invalid data")),
    }
}

/// Whether a name is that of an encryption whose keys are made here.
pub open spec fn is_aes(up: Seq<char>) -> bool {
    up == "AES-GCM"@ || up == "AES-CBC"@ || up == "AES-CTR"@
}

/// How many bytes a new key has, or why none is made.
pub open spec fn new_key_len(
    name: Option<Seq<char>>,
    length_bits: u32,
    hash: Option<Seq<char>>,
) -> Result<nat, Seq<char>> {
    match name {
        None => Err("generateKey: missing algorithm"@),
        Some(n) => {
            let up = text::upper(n);
            let bits = if length_bits == 0 {
                256
            } else {
                length_bits
            };
            if is_aes(up) {
                if bits == 128 || bits == 192 || bits == 256 {
                    Ok((bits / 8) as nat)
                } else {
                    Err(
                        "generateKey: AES key length "@ + number::decimal(bits as nat)
                            + " not supported"@,
                    )
                }
            } else if up == "HMAC"@ {
                match hash {
                    None => Err("generateKey: HMAC requires hash"@),
                    Some(h) => match hash_named(h) {
                        Some(kind) => Ok(hash_len(kind)),
                        None => Err("generateKey: unsupported HMAC hash "@ + h + ""@),
                    },
                }
            } else {
                Err("generateKey: algorithm '"@ + up + "' unsupported"@)
            }
        },
    }
}

/// How many bytes a new key has, or why none is made.
pub fn plan_key(name: Option<&str>, length_bits: u32, hash: &Option<String>) -> (r: Result<
    usize,
    String,
>)
    ensures
        match new_key_len(opt_view(name), length_bits, text::opt_text(*hash)) {
            Ok(n) => r matches Ok(m) && m == n,
            Err(e) => r matches Err(m) && m@ == e,
        },
{
    let name = match name {
        Some(n) => n,
        None => {
            return Err(text::copy("generateKey: missing algorithm"));
        },
    };
    let up = text::upper_text(name);
    if text::same(&up, "AES-GCM") || text::same(&up, "AES-CBC") || text::same(&up, "AES-CTR") {
        let bits: u32 = if length_bits == 0 {
            256
        } else {
            length_bits
        };
        if bits == 128 || bits == 192 || bits == 256 {
            Ok((bits / 8) as usize)
        } else {
            Err(with_number("generateKey: AES key length ", bits as u64, " not supported"))
        }
    } else if text::same(&up, "HMAC") {
        match hash {
            None => Err(text::copy("generateKey: HMAC requires hash")),
            Some(h) => match digest_algorithm(h) {
                Some(HashKind::Sha1) => Ok(20),
                Some(HashKind::Sha256) => Ok(32),
                Some(HashKind::Sha384) => Ok(48),
                Some(HashKind::Sha512) => Ok(64),
                None => Err(with_word("generateKey: unsupported HMAC hash ", h, "")),
            },
        }
    } else {
        Err(with_word("generateKey: algorithm '", &up, "' unsupported"))
    }
}

/// Keeps a key made of given bytes, and gives its number.
pub fn store_key(
    keys: &mut Registry<CryptoKeyEntry>,
    name: &str,
    hash: Option<String>,
    extractable: bool,
    usages: Vec<String>,
    raw: Vec<u8>,
) -> (r: u32)
    ensures
        r == old(keys)@.next,
        registry::views(final(keys)@) == registry::views(old(keys)@).added(
            (KeyView {
                algorithm: text::unicode_upper(name@),
                hash: text::opt_text(hash),
                extractable,
                usages: text::texts(usages@),
                raw: raw@,
            }),
        ),
        text::is_ascii_text(name@) ==> registry::views(final(keys)@).found(r)->0.algorithm
            == text::upper(name@),
{
    let algorithm = text::to_unicode_upper(name);
    keys.insert_next(CryptoKeyEntry { algorithm, hash, extractable, usages, raw })
}

/// Makes a key of the random bytes that were drawn for it.
pub fn complete_key(
    keys: &mut Registry<CryptoKeyEntry>,
    name: &str,
    hash: Option<String>,
    extractable: bool,
    usages: Vec<String>,
    random: Option<Vec<u8>>,
) -> (r: Result<u32, String>)
    ensures
        match random {
            Some(raw) => r == Ok::<u32, String>(old(keys)@.next) && registry::views(final(keys)@)
                == registry::views(old(keys)@).added(
                (KeyView {
                    algorithm: text::unicode_upper(name@),
                    hash: text::opt_text(hash),
                    extractable,
                    usages: text::texts(usages@),
                    raw: raw@,
                }),
            ),
            None => (r matches Err(e) && e@ == "generateKey: rng failure"@) && final(keys)@
                == old(keys)@,
        },
{
    match random {
        Some(raw) => Ok(store_key(keys, name, hash, extractable, usages, raw)),
        None => Err(text::copy("generateKey: rng failure")),
    }
}

/// Makes a random key, and gives its number. Its bytes are the system's to choose.
pub fn subtle_generate_key(
    keys: &mut Registry<CryptoKeyEntry>,
    name: Option<&str>,
    length_bits: u32,
    hash: Option<String>,
    extractable: bool,
    usages: Vec<String>,
) -> (r: Result<u32, String>)
    ensures
        match new_key_len(opt_view(name), length_bits, text::opt_text(hash)) {
            Err(e) => (r matches Err(m) && m@ == e) && final(keys)@ == old(keys)@,
            Ok(n) => match r {
                Ok(id) => id == old(keys)@.next && exists|raw: Seq<u8>|
                    raw.len() == n && registry::views(final(keys)@) == #[trigger] registry::views(
                        old(keys)@,
                    ).added(
                        (KeyView {
                            algorithm: text::unicode_upper(name->0@),
                            hash: text::opt_text(hash),
                            extractable,
                            usages: text::texts(usages@),
                            raw,
                        }),
                    ),
                Err(m) => m@ == "generateKey: rng failure"@ && final(keys)@ == old(keys)@,
            },
        },
{
    let n: usize = match plan_key(name, length_bits, &hash) {
        Ok(n) => n,
        Err(e) => {
            return Err(e);
        },
    };
    let word: &str = match name {
        Some(w) => w,
        None => "",
    };
    let random = random_bytes(n);
    let ghost raw = opt_bytes(random);
    let r = complete_key(keys, word, hash, extractable, usages, random);
    proof {
        if raw is Some {
            let k = KeyView {
                algorithm: text::unicode_upper(name->0@),
                hash: text::opt_text(hash),
                extractable,
                usages: text::texts(usages@),
                raw: raw->0,
            };
            assert(registry::views(keys@) == registry::views(old(keys)@).added(k));
        }
    }
    r
}

/// Why a key is not taken in: the first of these that holds.
pub open spec fn import_error(
    format: Seq<char>,
    raw: Option<Seq<u8>>,
    name: Option<Seq<char>>,
) -> Option<Seq<char>> {
    if format != "raw"@ {
        Some("importKey: format '"@ + format + "' not supported"@)
    } else if raw is None {
        Some("importKey: invalid key data"@)
    } else if name is None {
        Some("importKey: missing algorithm"@)
    } else {
        None
    }
}

/// Takes in a key, and gives its number.
pub fn subtle_import_key(
    keys: &mut Registry<CryptoKeyEntry>,
    format: &str,
    raw: Option<Vec<u8>>,
    name: Option<&str>,
    hash: Option<String>,
    extractable: bool,
    usages: Vec<String>,
) -> (r: Result<u32, String>)
    ensures
        match import_error(format@, opt_bytes(raw), opt_view(name)) {
            Some(e) => (r matches Err(m) && m@ == e) && final(keys)@ == old(keys)@,
            None => r == Ok::<u32, String>(old(keys)@.next) && registry::views(final(keys)@)
                == registry::views(old(keys)@).added(
                (KeyView {
                    algorithm: text::unicode_upper(name->0@),
                    hash: text::opt_text(hash),
                    extractable,
                    usages: text::texts(usages@),
                    raw: raw->0@,
                }),
            ),
        },
{
    if !text::same(format, "raw") {
        return Err(with_word("importKey: format '", format, "' not supported"));
    }
    let raw = match raw {
        Some(b) => b,
        None => {
            return Err(text::copy("importKey: invalid key data"));
        },
    };
    match name {
        Some(n) => Ok(store_key(keys, n, hash, extractable, usages, raw)),
        None => Err(text::copy("importKey: missing algorithm")),
    }
}

/// The key with a number.
pub open spec fn key_found(keys: RegistryView<KeyView>, id: Option<u32>) -> Option<KeyView> {
    match id {
        Some(n) => keys.found(n),
        None => None,
    }
}

fn load_key(keys: &Registry<CryptoKeyEntry>, id: Option<u32>) -> (r: Option<&CryptoKeyEntry>)
    ensures
        match key_found(registry::views(keys@), id) {
            Some(k) => r matches Some(e) && e@ == k,
            None => r is None,
        },
{
    match id {
        Some(n) => keys.get(n),
        None => None,
    }
}

/// Gives out the bytes of a key, where it may leave.
pub fn subtle_export_key(
    keys: &Registry<CryptoKeyEntry>,
    format: &str,
    key: Option<u32>,
) -> (r: Result<Vec<u8>, String>)
    ensures
        if format@ != "raw"@ {
            r matches Err(m) && m@ == "exportKey: format '"@ + format@ + "' not supported"@
        } else {
            match key_found(registry::views(keys@), key) {
                None => r matches Err(m) && m@ == "exportKey: invalid key"@,
                Some(k) => if k.extractable {
                    r matches Ok(v) && v@ == k.raw
                } else {
                    r matches Err(m) && m@ == "exportKey: key is not extractable"@
                },
            }
        },
{
    if !text::same(format, "raw") {
        return Err(with_word("exportKey: format '", format, "' not supported"));
    }
    match load_key(keys, key) {
        None => Err(text::copy("exportKey: invalid key")),
        Some(e) => if e.extractable {
            Ok(bytes::copy_bytes(&e.raw))
        } else {
            Err(text::copy("exportKey: key is not extractable"))
        },
    }
}

/// A key that was taken in and may leave is given out as it was; one that may not is kept.
pub proof fn imported_key_is_exported(keys: RegistryView<KeyView>, k: KeyView)
    ensures
        key_found(keys.added(k), Some(keys.next)) == Some(k),
{
}

/// The hash function by which a call signs, or why it does not.
pub open spec fn signing_hash(
    op: Seq<char>,
    name: Option<Seq<char>>,
    key: Option<KeyView>,
) -> Result<HashKind, Seq<char>> {
    match name {
        None => Err(op + ""@ + ": missing algorithm"@),
        Some(n) => if text::upper(n) != "HMAC"@ {
            Err(op + ": algorithm '"@ + n + "' unsupported"@)
        } else {
            match key {
                None => Err(op + ""@ + ": invalid key"@),
                Some(k) => match k.hash {
                    None => Err(op + ""@ + ": key has no hash"@),
                    Some(h) => match hash_named(h) {
                        Some(kind) => Ok(kind),
                        None => Err(op + ": unsupported HMAC hash "@ + h + ""@),
                    },
                },
            }
        },
    }
}

fn op_word(op: &str, before: &str, word: &str, after: &str) -> (r: String)
    ensures
        r@ == op@ + before@ + word@ + after@,
{
    let mut out = text::to_chars(op);
    text::push_text(&mut out, before);
    text::push_text(&mut out, word);
    text::push_text(&mut out, after);
    text::to_text(&out)
}

fn find_hash(op: &str, name: Option<&str>, key: Option<&CryptoKeyEntry>) -> (r: Result<
    HashKind,
    String,
>)
    ensures
        match signing_hash(
            op@,
            opt_view(name),
            match key {
                Some(k) => Some(k@),
                None => None,
            },
        ) {
            Ok(kind) => r == Ok::<HashKind, String>(kind),
            Err(e) => r matches Err(m) && m@ == e,
        },
{
    let name = match name {
        Some(n) => n,
        None => {
            return Err(with_word(op, "", ": missing algorithm"));
        },
    };
    let up = text::upper_text(name);
    if !text::same(&up, "HMAC") {
        return Err(op_word(op, ": algorithm '", name, "' unsupported"));
    }
    match key {
        None => Err(with_word(op, "", ": invalid key")),
        Some(e) => match &e.hash {
            None => Err(with_word(op, "", ": key has no hash")),
            Some(h) => match digest_algorithm(h) {
                Some(kind) => Ok(kind),
                None => Err(op_word(op, ": unsupported HMAC hash ", h, "")),
            },
        },
    }
}

/// Whether a key is short enough to sign with.
pub open spec fn key_fits(key: Option<KeyView>) -> bool {
    key matches Some(k) ==> k.raw.len() <= HASH_LIMIT
}

/// The signature of data by a key, or why there is none.
pub open spec fn sign_result(
    name: Option<Seq<char>>,
    key: Option<KeyView>,
    data: Option<Seq<u8>>,
) -> Result<Seq<u8>, Seq<char>> {
    match signing_hash("sign"@, name, key) {
        Err(e) => Err(e),
        Ok(kind) => match data {
            None => Err("sign: invalid data"@),
            Some(d) => Ok(tag_of(kind, key->0.raw, d)),
        },
    }
}

/// Whether a signature of data is the one by a key, or why that cannot be told.
pub open spec fn verify_result(
    name: Option<Seq<char>>,
    key: Option<KeyView>,
    signature: Option<Seq<u8>>,
    data: Option<Seq<u8>>,
) -> Result<bool, Seq<char>> {
    match signing_hash("verify"@, name, key) {
        Err(e) => Err(e),
        Ok(kind) => match (signature, data) {
            (None, _) => Err("verify: invalid signature"@),
            (Some(_), None) => Err("verify: invalid data"@),
            (Some(s), Some(d)) => Ok(s == tag_of(kind, key->0.raw, d)),
        },
    }
}

/// What signing gives is a signature of the data by the key, and nothing else is.
pub proof fn signature_is_verified(
    name: Option<Seq<char>>,
    key: Option<KeyView>,
    data: Option<Seq<u8>>,
    other: Seq<u8>,
)
    ensures
        sign_result(name, key, data) matches Ok(s) ==> verify_result(name, key, Some(s), data)
            == Ok::<bool, Seq<char>>(true) && verify_result(name, key, Some(other), data) == Ok::<
            bool,
            Seq<char>,
        >(other == s),
{
}

/// Signs data by a key.
pub fn subtle_sign(
    keys: &Registry<CryptoKeyEntry>,
    name: Option<&str>,
    key: Option<u32>,
    data: Option<&Vec<u8>>,
) -> (r: Result<Vec<u8>, String>)
    requires
        key_fits(key_found(registry::views(keys@), key)),
        data matches Some(d) ==> d@.len() <= HASH_LIMIT,
    ensures
        match sign_result(
            opt_view(name),
            key_found(registry::views(keys@), key),
            opt_slice(data),
        ) {
            Ok(s) => r matches Ok(v) && v@ == s,
            Err(e) => r matches Err(m) && m@ == e,
        },
{
    let entry = load_key(keys, key);
    let kind = match find_hash("sign", name, entry) {
        Ok(k) => k,
        Err(e) => {
            return Err(e);
        },
    };
    let d = match data {
        Some(d) => d,
        None => {
            return Err(text::copy("sign: invalid data"));
        },
    };
    match entry {
        Some(e) => Ok(ring_sign(kind, &e.raw, d)),
        None => Err(text::copy("sign: invalid key")),
    }
}

/// Tells whether a signature of data is the one by a key.
pub fn subtle_verify(
    keys: &Registry<CryptoKeyEntry>,
    name: Option<&str>,
    key: Option<u32>,
    signature: Option<&Vec<u8>>,
    data: Option<&Vec<u8>>,
) -> (r: Result<bool, String>)
    requires
        key_fits(key_found(registry::views(keys@), key)),
        data matches Some(d) ==> d@.len() <= HASH_LIMIT,
    ensures
        match verify_result(
            opt_view(name),
            key_found(registry::views(keys@), key),
            opt_slice(signature),
            opt_slice(data),
        ) {
            Ok(b) => r == Ok::<bool, String>(b),
            Err(e) => r matches Err(m) && m@ == e,
        },
{
    let entry = load_key(keys, key);
    let kind = match find_hash("verify", name, entry) {
        Ok(k) => k,
        Err(e) => {
            return Err(e);
        },
    };
    let s = match signature {
        Some(s) => s,
        None => {
            return Err(text::copy("verify: invalid signature"));
        },
    };
    let d = match data {
        Some(d) => d,
        None => {
            return Err(text::copy("verify: invalid data"));
        },
    };
    match entry {
        Some(e) => Ok(ring_verify(kind, &e.raw, d, s)),
        None => Err(text::copy("verify: invalid key")),
    }
}

/// The encryption of a call, or why it is refused: the first reason that holds.
pub open spec fn aead_plan(
    name: Option<Seq<char>>,
    key: Option<KeyView>,
    iv: Option<Seq<u8>>,
    data: Option<Seq<u8>>,
) -> Result<AeadKind, Seq<char>> {
    match (name, key) {
        (None, _) => Err("AEAD: missing algorithm"@),
        (Some(_), None) => Err("AEAD: invalid key"@),
        (Some(n), Some(k)) => match aead_named(n, k.raw.len()) {
            None => Err(
                "AEAD: "@ + n + " with "@ + number::decimal(k.raw.len()) + "-byte key unsupported"@,
            ),
            Some(kind) => match iv {
                None => Err("AEAD: missing iv"@),
                Some(v) => if v.len() != 12 {
                    Err("AEAD: iv must be 12 bytes, got "@ + number::decimal(v.len()) + ""@)
                } else if data is None {
                    Err("AEAD: invalid data"@)
                } else {
                    Ok(kind)
                },
            },
        },
    }
}

fn as_iv(v: &Vec<u8>) -> (r: [u8; 12])
    requires
        v@.len() == 12,
    ensures
        r@ == v@,
{
    let r: [u8; 12] = [
        v[0],
        v[1],
        v[2],
        v[3],
        v[4],
        v[5],
        v[6],
        v[7],
        v[8],
        v[9],
        v[10],
        v[11],
    ];
    proof {
        assert(r@ =~= v@);
    }
    r
}

fn plan_aead(
    name: Option<&str>,
    key: Option<&CryptoKeyEntry>,
    iv: Option<&Vec<u8>>,
    data: Option<&Vec<u8>>,
) -> (r: Result<AeadKind, String>)
    ensures
        match aead_plan(
            opt_view(name),
            match key {
                Some(k) => Some(k@),
                None => None,
            },
            opt_slice(iv),
            opt_slice(data),
        ) {
            Ok(kind) => r == Ok::<AeadKind, String>(kind),
            Err(e) => r matches Err(m) && m@ == e,
        },
{
    let name = match name {
        Some(n) => n,
        None => {
            return Err(text::copy("AEAD: missing algorithm"));
        },
    };
    let key = match key {
        Some(k) => k,
        None => {
            return Err(text::copy("AEAD: invalid key"));
        },
    };
    let kind = match aead_algorithm(name, key.raw.len()) {
        Some(k) => k,
        None => {
            let mut out = text::to_chars("AEAD: ");
            text::push_text(&mut out, name);
            text::push_text(&mut out, " with ");
            let d = number::write_decimal(key.raw.len() as u128);
            text::push_chars(&mut out, &d);
            text::push_text(&mut out, "-byte key unsupported");
            return Err(text::to_text(&out));
        },
    };
    match iv {
        None => Err(text::copy("AEAD: missing iv")),
        Some(v) => if v.len() != 12 {
            Err(with_number("AEAD: iv must be 12 bytes, got ", v.len() as u64, ""))
        } else if data.is_none() {
            Err(text::copy("AEAD: invalid data"))
        } else {
            Ok(kind)
        },
    }
}

/// Encrypts data by a key.
pub fn subtle_encrypt(
    keys: &Registry<CryptoKeyEntry>,
    name: Option<&str>,
    key: Option<u32>,
    iv: Option<&Vec<u8>>,
    data: Option<&Vec<u8>>,
) -> (r: Result<Vec<u8>, String>)
    ensures
        match aead_plan(
            opt_view(name),
            key_found(registry::views(keys@), key),
            opt_slice(iv),
            opt_slice(data),
        ) {
            Err(e) => r matches Err(m) && m@ == e,
            Ok(kind) => if data->0@.len() <= SEAL_LIMIT {
                r matches Ok(v) && sealed(
                    kind,
                    key_found(registry::views(keys@), key)->0.raw,
                    iv->0@,
                    data->0@,
                ) == Some(v@) && v@.len() == data->0@.len() + 16
            } else {
                r matches Err(m) && m@ == "AEAD: seal failed"@
            },
        },
{
    let entry = load_key(keys, key);
    match plan_aead(name, entry, iv, data) {
        Err(e) => Err(e),
        Ok(kind) => match (entry, iv, data) {
            (Some(k), Some(v), Some(d)) => match ring_seal(kind, &k.raw, as_iv(v), d) {
                Some(out) => Ok(out),
                None => Err(text::copy("AEAD: seal failed")),
            },
            _ => Err(text::copy("AEAD: invalid data")),
        },
    }
}

/// Decrypts data by a key: gives the one piece of data that encrypting turns into the given
/// bytes, and refuses bytes that encrypting does not give.
pub fn subtle_decrypt(
    keys: &Registry<CryptoKeyEntry>,
    name: Option<&str>,
    key: Option<u32>,
    iv: Option<&Vec<u8>>,
    data: Option<&Vec<u8>>,
) -> (r: Result<Vec<u8>, String>)
    ensures
        match aead_plan(
            opt_view(name),
            key_found(registry::views(keys@), key),
            opt_slice(iv),
            opt_slice(data),
        ) {
            Err(e) => r matches Err(m) && m@ == e,
            Ok(kind) => match r {
                Ok(p) => sealed(
                    kind,
                    key_found(registry::views(keys@), key)->0.raw,
                    iv->0@,
                    p@,
                ) == Some(data->0@) && forall|q: Seq<u8>| #[trigger]
                    sealed(
                        kind,
                        key_found(registry::views(keys@), key)->0.raw,
                        iv->0@,
                        q,
                    ) == Some(data->0@) ==> p@ == q,
                Err(m) => m@ == "AEAD: open failed"@ && forall|p: Seq<u8>| #[trigger]
                    sealed(
                        kind,
                        key_found(registry::views(keys@), key)->0.raw,
                        iv->0@,
                        p,
                    ) != Some(data->0@),
            },
        },
{
    let entry = load_key(keys, key);
    match plan_aead(name, entry, iv, data) {
        Err(e) => Err(e),
        Ok(kind) => match (entry, iv, data) {
            (Some(k), Some(v), Some(d)) => match ring_open(kind, &k.raw, as_iv(v), d) {
                Some(out) => Ok(out),
                None => Err(text::copy("AEAD: open failed")),
            },
            _ => Err(text::copy("AEAD: invalid data")),
        },
    }
}

/// How many bits a key shows that it has, for the algorithms whose keys show it.
pub fn key_length_shown(entry: &CryptoKeyEntry) -> (r: Option<u32>)
    ensures
        r == (if text::begins(entry@.algorithm, "AES"@) || text::begins(
            entry@.algorithm,
            "HMAC"@,
        ) {
            Some(((entry@.raw.len() * 8) % 0x1_0000_0000) as u32)
        } else {
            None
        }),
{
    let cs = text::to_chars(&entry.algorithm);
    if text::starts_with(&cs, "AES") || text::starts_with(&cs, "HMAC") {
        let bits: u128 = entry.raw.len() as u128 * 8;
        Some((bits % 0x1_0000_0000) as u32)
    } else {
        None
    }
}

/// Random bytes with the version and variant of a random identifier stamped on them.
pub open spec fn stamped(b: Seq<u8>) -> Seq<u8> {
    b.update(6, (b[6] & 0x0f) | 0x40).update(8, (b[8] & 0x3f) | 0x80)
}

/// An identifier as text: its digits in five groups.
pub open spec fn uuid_text(b: Seq<u8>) -> Seq<char> {
    bytes::hex_text(b.subrange(0, 4)) + seq!['-'] + bytes::hex_text(b.subrange(4, 6)) + seq!['-'] + bytes::hex_text(
        b.subrange(6, 8),
    ) + seq!['-'] + bytes::hex_text(b.subrange(8, 10)) + seq!['-'] + bytes::hex_text(b.subrange(10, 16))
}

/// The identifier that random bytes make.
pub fn format_uuid(random: &Vec<u8>) -> (r: String)
    requires
        random@.len() == 16,
    ensures
        r@ == uuid_text(stamped(random@)),
{
    let mut b = bytes::copy_bytes(random);
    b[6] = (b[6] & 0x0f) | 0x40;
    b[8] = (b[8] & 0x3f) | 0x80;
    proof {
        assert(b@ =~= stamped(random@));
    }
    let mut out: Vec<char> = Vec::new();
    bytes::push_hex(&mut out, &b, 0, 4);
    out.push('-');
    bytes::push_hex(&mut out, &b, 4, 6);
    out.push('-');
    bytes::push_hex(&mut out, &b, 6, 8);
    out.push('-');
    bytes::push_hex(&mut out, &b, 8, 10);
    out.push('-');
    bytes::push_hex(&mut out, &b, 10, 16);
    proof {
        assert(out@ =~= uuid_text(b@));
    }
    text::to_text(&out)
}

/// A random identifier has thirty-six characters, dashes after the eighth, twelfth, sixteenth
/// and twentieth digit, and shows that it is a random one.
pub proof fn uuid_has_its_form(b: Seq<u8>)
    requires
        b.len() == 16,
    ensures
        uuid_text(stamped(b)).len() == 36,
        uuid_text(stamped(b))[8] == '-',
        uuid_text(stamped(b))[13] == '-',
        uuid_text(stamped(b))[18] == '-',
        uuid_text(stamped(b))[23] == '-',
        uuid_text(stamped(b))[14] == '4',
        uuid_text(stamped(b))[19] == '8' || uuid_text(stamped(b))[19] == '9' || uuid_text(
            stamped(b),
        )[19] == 'a' || uuid_text(stamped(b))[19] == 'b',
{
    let s = stamped(b);
    bytes::lemma_hex_len(s.subrange(0, 4));
    bytes::lemma_hex_len(s.subrange(4, 6));
    bytes::lemma_hex_len(s.subrange(6, 8));
    bytes::lemma_hex_len(s.subrange(8, 10));
    bytes::lemma_hex_len(s.subrange(10, 16));
    let third = s.subrange(6, 8);
    let fourth = s.subrange(8, 10);
    reveal_with_fuel(bytes::hex_text, 3);
    assert(third.drop_last() =~= seq![s[6]]);
    assert(fourth.drop_last() =~= seq![s[8]]);
    assert(seq![s[6]].drop_last() =~= Seq::empty());
    assert(seq![s[8]].drop_last() =~= Seq::empty());
    assert(bytes::hex_text(third)[0] == number::digit_char((s[6] as int / 16) as nat));
    assert(bytes::hex_text(fourth)[0] == number::digit_char((s[8] as int / 16) as nat));
    let x = b[6];
    let y = b[8];
    assert(((x & 0x0f) | 0x40) / 16 == 4) by (bit_vector);
    assert(8 <= ((y & 0x3f) | 0x80) / 16 <= 11) by (bit_vector);
    assert(uuid_text(s)[14] == bytes::hex_text(third)[0]);
    assert(uuid_text(s)[19] == bytes::hex_text(fourth)[0]);
}

/// A random identifier. Its bytes are the system's to choose; it fails only where the system
/// gives none.
pub fn random_uuid() -> (r: Result<String, String>)
    ensures
        match r {
            Ok(s) => exists|b: Seq<u8>| b.len() == 16 && s@ == #[trigger] uuid_text(stamped(b)),
            Err(e) => e@ == "randomUUID: rng failure"@,
        },
{
    match random_bytes(16) {
        Some(b) => Ok(format_uuid(&b)),
        None => Err(text::copy("randomUUID: rng failure")),
    }
}

/// The little-endian number of so many bytes from a place on.
pub open spec fn little_endian(b: Seq<u8>, at: int, n: int) -> int
    decreases n,
{
    if n <= 0 {
        0
    } else {
        b[at] + 256 * little_endian(b, at + 1, n - 1)
    }
}

/// The value of an element that bytes fill: zero for elements of another width than one, two
/// or four.
pub open spec fn element_value(b: Seq<u8>, width: int, i: int) -> int {
    if width == 1 || width == 2 || width == 4 {
        little_endian(b, i * width, width)
    } else {
        0
    }
}

/// The most elements that are filled at once.
pub const RANDOM_LIMIT: usize = 65536;

/// The values of elements that random bytes fill.
pub fn fill_elements(random: &Vec<u8>, len: usize, width: u32) -> (r: Vec<u32>)
    requires
        random@.len() >= len * width,
    ensures
        r@.len() == len,
        forall|i: int|
            0 <= i < len ==> #[trigger] r@[i] == element_value(random@, width as int, i),
{
    let mut out: Vec<u32> = Vec::new();
    let mut i: usize = 0;
    while i < len
        invariant
            i <= len,
            random@.len() >= len * width,
            out@.len() == i,
            forall|j: int|
                0 <= j < i ==> #[trigger] out@[j] == element_value(random@, width as int, j),
        decreases len - i,
    {
        proof {
            let n = random.len();
            assert(i * width + width <= len * width) by (nonlinear_arith)
                requires
                    0 <= i < len,
                    width >= 0,
            ;
            assert(i * width >= 0) by (nonlinear_arith)
                requires
                    i >= 0,
                    width >= 0,
            ;
            reveal_with_fuel(little_endian, 5);
        }
        let value: u32 = if width == 1 {
            random[i] as u32
        } else if width == 2 {
            let at: usize = i * 2;
            random[at] as u32 + 256 * random[at + 1] as u32
        } else if width == 4 {
            let at: usize = i * 4;
            random[at] as u32 + 256 * (random[at + 1] as u32 + 256 * (random[at + 2] as u32 + 256
                * random[at + 3] as u32))
        } else {
            0
        };
        out.push(value);
        i = i + 1;
    }
    out
}

/// Random values for the elements of an array. They are the system's to choose; an array with
/// too many elements is refused.
pub fn get_random_values(len: usize, width: u32) -> (r: Result<Vec<u32>, String>)
    requires
        len <= RANDOM_LIMIT ==> len * width <= isize::MAX,
    ensures
        if len > RANDOM_LIMIT {
            r matches Err(e) && e@ == "getRandomValues: array too large (max 65536 bytes)"@
        } else {
            match r {
                Ok(v) => v@.len() == len && exists|b: Seq<u8>|
                    b.len() == len * width && forall|i: int|
                        #![trigger v@[i]]
                        0 <= i < len ==> v@[i] == element_value(b, width as int, i),
                Err(e) => e@ == "getRandomValues: rng failure"@,
            }
        },
{
    if len > RANDOM_LIMIT {
        return Err(text::copy("getRandomValues: array too large (max 65536 bytes)"));
    }
    proof {
        assert(len * width <= 0x1_0000 * 0xffff_ffff) by (nonlinear_arith)
            requires
                0 <= len <= 0x1_0000,
                0 <= width <= 0xffff_ffff,
        ;
    }
    let total: u64 = len as u64 * width as u64;
    match random_bytes(total as usize) {
        Some(b) => {
            let v = fill_elements(&b, len, width);
            let ghost bv = b@;
            proof {
                assert(bv.len() == len * width);
            }
            Ok(v)
        },
        None => Err(text::copy("getRandomValues: rng failure")),
    }
}

/// A hash function is known by its name alone, whatever the case of the letters, and has as many bits
/// as its name says; the first of them has its own number.
pub proof fn hashes_are_named(name: Seq<char>)
    ensures
        hash_named(name) == Some(HashKind::Sha1) <==> text::upper(name) == "SHA-1"@,
        hash_named(name) == Some(HashKind::Sha256) <==> text::upper(name) == "SHA-256"@,
        hash_named(name) == Some(HashKind::Sha384) <==> text::upper(name) == "SHA-384"@,
        hash_named(name) == Some(HashKind::Sha512) <==> text::upper(name) == "SHA-512"@,
        hash_named(text::lower(name)) == hash_named(name),
        hash_len(HashKind::Sha1) * 8 == 160,
        hash_len(HashKind::Sha256) * 8 == 256,
        hash_len(HashKind::Sha384) * 8 == 384,
        hash_len(HashKind::Sha512) * 8 == 512,
{
    reveal_strlit("SHA-1");
    reveal_strlit("SHA-256");
    reveal_strlit("SHA-384");
    reveal_strlit("SHA-512");
    assert("SHA-1"@.len() != "SHA-256"@.len());
    assert("SHA-256"@[4] == '2' && "SHA-384"@[4] == '3' && "SHA-512"@[4] == '5');
    assert("SHA-1"@.len() == 5 && "SHA-384"@.len() == 7 && "SHA-512"@.len() == 7);
    let l = text::lower(name);
    assert forall|i: int| 0 <= i < name.len() implies text::upper(l)[i] == text::upper(name)[i] by {
        text::letters_change_case(name[i], name, i);
        text::letters_change_case(l[i], l, i);
    }
    assert(text::upper(l) =~= text::upper(name));
}

/// An encryption is there for keys of just the lengths that it has, and only under its name.
pub proof fn encryptions_fit_their_keys(name: Seq<char>, key_len: nat)
    ensures
        aead_named(name, key_len) matches Some(kind) ==> aead_key_len(kind) == key_len,
        aead_named(name, key_len) is Some <==> text::upper(name) == "AES-GCM"@ && (key_len * 8 == 128
            || key_len * 8 == 256),
{
}

/// A hash is made where the name is that of a hash function and there are data, and only there.
pub proof fn hashes_are_made_of_data(name: Seq<char>, data: Seq<u8>)
    ensures
        digest_error(Some(name), Some(data)) is None <==> hash_named(name) is Some,
        digest_error(None, Some(data)) is Some,
        digest_error(Some(name), None) is Some,
{
}

/// A new key of an encryption has as many bits as were asked for, which is the most where nothing was,
/// and a new key of a signature has as many bytes as the hash. No other key is made.
pub proof fn new_keys_have_their_length(name: Seq<char>, bits: u32, hash: Seq<char>, n: nat)
    ensures
        is_aes(text::upper(name)) && bits > 0 ==> (new_key_len(Some(name), bits, Some(hash)) == Ok::<
            nat,
            Seq<char>,
        >(n) <==> n * 8 == bits && (bits == 128 || bits == 192 || bits == 256)),
        is_aes(text::upper(name)) ==> new_key_len(Some(name), 0, None) == Ok::<nat, Seq<char>>(32),
        is_aes(text::upper(name)) <==> text::upper(name) == "AES-GCM"@ || text::upper(name)
            == "AES-CBC"@ || text::upper(name) == "AES-CTR"@,
        text::upper(name) == "HMAC"@ ==> (new_key_len(Some(name), bits, Some(hash)) == Ok::<
            nat,
            Seq<char>,
        >(n) <==> (hash_named(hash) matches Some(kind) && n == hash_len(kind))),
        text::upper(name) == "HMAC"@ ==> new_key_len(Some(name), bits, None) is Err,
        new_key_len(Some(name), bits, Some(hash)) is Ok ==> text::upper(name) == "HMAC"@
            || text::upper(name) == "AES-GCM"@ || text::upper(name) == "AES-CBC"@ || text::upper(
            name,
        ) == "AES-CTR"@,
        new_key_len(None, bits, Some(hash)) is Err,
{
    reveal_strlit("HMAC");
    reveal_strlit("AES-GCM");
    reveal_strlit("AES-CBC");
    reveal_strlit("AES-CTR");
    assert("HMAC"@.len() == 4 && "AES-GCM"@.len() == 7 && "AES-CBC"@.len() == 7 && "AES-CTR"@.len()
        == 7);
}

/// A key is taken in where it is given as plain bytes for an algorithm, and only there.
pub proof fn plain_keys_are_taken_in(format: Seq<char>, raw: Seq<u8>, name: Seq<char>)
    ensures
        import_error(format, Some(raw), Some(name)) is None <==> format == "raw"@,
        import_error(format, None, Some(name)) is Some,
        import_error(format, Some(raw), None) is Some,
{
}

/// A signature is made where the algorithm signs, the key is there and has a known hash, and there are
/// data: the one of the data by the key and that hash. The signature of one message is checked
/// against that message and that key.
pub proof fn signatures_are_by_the_keys_hash(
    op: Seq<char>,
    name: Seq<char>,
    key: KeyView,
    hash: Seq<char>,
    kind: HashKind,
    data: Seq<u8>,
)
    requires
        key.hash == Some(hash),
    ensures
        signing_hash(op, Some(name), Some(key)) == Ok::<HashKind, Seq<char>>(kind) <==> text::upper(
            name,
        ) == "HMAC"@ && hash_named(hash) == Some(kind),
        signing_hash(op, Some(name), None) is Err,
        signing_hash(op, None, Some(key)) is Err,
        signing_hash(op, Some(name), Some(KeyView { hash: None, ..key })) is Err,
        text::upper(name) == "HMAC"@ && hash_named(hash) == Some(kind) ==> sign_result(
            Some(name),
            Some(key),
            Some(data),
        ) == Ok::<Seq<u8>, Seq<char>>(tag_of(kind, key.raw, data)),
        sign_result(Some(name), Some(key), None) is Err,
        verify_result(Some(name), Some(key), None, Some(data)) is Err,
        verify_result(Some(name), Some(key), Some(data), None) is Err,
{
}

/// An encryption goes ahead where the algorithm is there for the key, the start value has twelve bytes
/// and there are data, and only there.
pub proof fn encryptions_need_all_they_take(
    name: Seq<char>,
    key: KeyView,
    iv: Seq<u8>,
    data: Seq<u8>,
    kind: AeadKind,
)
    ensures
        aead_plan(Some(name), Some(key), Some(iv), Some(data)) == Ok::<AeadKind, Seq<char>>(kind)
            <==> aead_named(name, key.raw.len()) == Some(kind) && iv.len() == 12,
        aead_plan(None, Some(key), Some(iv), Some(data)) is Err,
        aead_plan(Some(name), None, Some(iv), Some(data)) is Err,
        aead_plan(Some(name), Some(key), None, Some(data)) is Err,
        aead_plan(Some(name), Some(key), Some(iv), None) is Err,
{
}

/// The digits of an identifier are those of its bytes, in order, but for the dashes; stamping it
/// leaves all bytes but two as they were.
pub proof fn identifiers_show_their_bytes(b: Seq<u8>, i: int)
    requires
        b.len() == 16,
        0 <= i < 16,
    ensures
        stamped(b).len() == 16,
        i != 6 && i != 8 ==> stamped(b)[i] == b[i],
        uuid_text(b).len() == 36,
        uuid_text(b).subrange(0, 8) + uuid_text(b).subrange(9, 13) + uuid_text(b).subrange(14, 18)
            + uuid_text(b).subrange(19, 23) + uuid_text(b).subrange(24, 36) == bytes::hex_text(b),
{
    let p = b.subrange(0, 4);
    let q = b.subrange(4, 6);
    let r = b.subrange(6, 8);
    let s = b.subrange(8, 10);
    let t = b.subrange(10, 16);
    bytes::bytes_have_two_digits(p, q, 0);
    bytes::bytes_have_two_digits(p + q, r, 0);
    bytes::bytes_have_two_digits(p + q + r, s, 0);
    bytes::bytes_have_two_digits(p + q + r + s, t, 0);
    bytes::bytes_have_two_digits(q, p, 0);
    assert(b =~= p + q + r + s + t);
    let u = uuid_text(b);
    assert(u.subrange(0, 8) =~= bytes::hex_text(p));
    assert(u.subrange(9, 13) =~= bytes::hex_text(q));
    assert(u.subrange(14, 18) =~= bytes::hex_text(r));
    assert(u.subrange(19, 23) =~= bytes::hex_text(s));
    assert(u.subrange(24, 36) =~= bytes::hex_text(t));
}

/// The elements of an array of bytes, pairs or fours of bytes have the value of theirs, the first
/// counting least; elements of another width have none.
pub proof fn elements_have_their_bytes(b: Seq<u8>, i: int)
    ensures
        element_value(b, 1, i) == b[i],
        element_value(b, 2, i) == b[2 * i] + 256 * b[2 * i + 1],
        element_value(b, 4, i) == b[4 * i] + 256 * b[4 * i + 1] + 65536 * b[4 * i + 2] + 16777216
            * b[4 * i + 3],
        element_value(b, 8, i) == 0,
{
    reveal_with_fuel(little_endian, 5);
    assert(i * 1 == i);
    assert(i * 2 == 2 * i);
    assert(i * 4 == 4 * i);
}

} // verus!
