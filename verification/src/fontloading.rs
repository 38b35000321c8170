//! Web fonts: the faces that scripts and style sheets load, and the set of a document.
use crate::base64;
use crate::bytes;
use crate::registry;
use crate::registry::{Registry, RegistryView};
use crate::text;
use crate::text::CharClass;
use vstd::prelude::*;
use vstd::string::*;
use vstd::utf8::*;

verus! {

broadcast use crate::registry::group_registry;

/// How far a font face is.
#[derive(Clone, Copy, PartialEq, Eq, Structural, Debug)]
pub enum FontStatus {
    Unloaded,
    Loading,
    Loaded,
    Error,
}

/// A font face.
pub struct FontEntry {
    pub family: String,
    pub bytes: Vec<u8>,
    pub status: FontStatus,
}

/// A font face, over plain values.
pub struct FontView {
    pub family: Seq<char>,
    pub bytes: Seq<u8>,
    pub status: FontStatus,
}

impl View for FontEntry {
    type V = FontView;

    open spec fn view(&self) -> FontView {
        FontView { family: self.family@, bytes: self.bytes@, status: self.status }
    }
}

/// The registry with one value changed, where it is there.
pub open spec fn changed(
    r: RegistryView<FontView>,
    id: u32,
    f: spec_fn(FontView) -> FontView,
) -> RegistryView<FontView> {
    match r.found(id) {
        Some(v) => r.with(id, f(v)),
        None => r,
    }
}

/// A face once its bytes are there.
pub open spec fn loaded_with(content: Seq<u8>) -> spec_fn(FontView) -> FontView {
    |f: FontView| FontView { bytes: content, status: FontStatus::Loaded, ..f }
}

/// A face that could not be loaded.
pub open spec fn failed() -> spec_fn(FontView) -> FontView {
    |f: FontView| FontView { status: FontStatus::Error, ..f }
}

/// Gives a face its bytes, where it is there.
pub fn store_bytes(fonts: &mut Registry<FontEntry>, id: u32, content: Vec<u8>)
    ensures
        registry::views(final(fonts)@) == changed(
            registry::views(old(fonts)@),
            id,
            loaded_with(content@),
        ),
{
    let ghost before = registry::views(fonts@);
    match fonts.take(id) {
        None => {
            proof {
                assert(registry::views(fonts@).items =~= before.items);
            }
        },
        Some(mut e) => {
            e.bytes = content;
            e.status = FontStatus::Loaded;
            fonts.put(id, e);
        },
    }
}

/// Marks a face that could not be loaded, where it is there.
pub fn mark_font_error(fonts: &mut Registry<FontEntry>, id: u32)
    ensures
        registry::views(final(fonts)@) == changed(registry::views(old(fonts)@), id, failed()),
{
    let ghost before = registry::views(fonts@);
    match fonts.take(id) {
        None => {
            proof {
                assert(registry::views(fonts@).items =~= before.items);
            }
        },
        Some(mut e) => {
            e.status = FontStatus::Error;
            fonts.put(id, e);
        },
    }
}

/// The name of a status.
pub open spec fn status_name(s: FontStatus) -> Seq<char> {
    match s {
        FontStatus::Unloaded => "unloaded"@,
        FontStatus::Loading => "loading"@,
        FontStatus::Loaded => "loaded"@,
        FontStatus::Error => "error"@,
    }
}

/// The name of the status of a face; one that is not there is unloaded.
pub fn current_status_str(fonts: &Registry<FontEntry>, id: u32) -> (r: String)
    ensures
        r@ == match registry::views(fonts@).found(id) {
            Some(f) => status_name(f.status),
            None => status_name(FontStatus::Unloaded),
        },
{
    let status = match fonts.get(id) {
        Some(e) => e.status,
        None => FontStatus::Unloaded,
    };
    match status {
        FontStatus::Unloaded => text::copy("unloaded"),
        FontStatus::Loading => text::copy("loading"),
        FontStatus::Loaded => text::copy("loaded"),
        FontStatus::Error => text::copy("error"),
    }
}

/// A text without double quotes, and then without single quotes, at its ends.
pub open spec fn unquoted(s: Seq<char>) -> Seq<char> {
    text::trim_class(text::trim_class(s, CharClass::Is('"')), CharClass::Is('\''))
}

/// The address that a source text writes, with or without `url(..)` and quotes.
pub open spec fn source_address(s: Seq<char>) -> Seq<char> {
    let t = text::trimmed(s);
    match crate::color::bracketed(t, "url("@) {
        Some(inner) => unquoted(text::trimmed(inner)),
        None => unquoted(t),
    }
}

fn unquote(cs: &[char]) -> (r: Vec<char>)
    ensures
        r@ == unquoted(cs@),
{
    let a = text::trim_ends(cs, CharClass::Is('"'));
    text::trim_ends(&a, CharClass::Is('\''))
}

/// The address that a source text writes.
pub fn strip_url_quoted(s: &str) -> (r: String)
    ensures
        r@ == source_address(s@),
{
    let cs = text::to_chars(s);
    let t = text::trim(&cs);
    match crate::color::strip_brackets(&t, "url(") {
        Some(inner) => {
            let body = text::trim(&inner);
            let u = unquote(&body);
            text::to_text(&u)
        },
        None => {
            let u = unquote(&t);
            text::to_text(&u)
        },
    }
}

/// The bytes that a data address holds.
pub open spec fn data_bytes(url: Seq<char>) -> Option<Seq<u8>> {
    match text::without_prefix(url, "data:"@) {
        None => None,
        Some(body) => match text::cut_at(body, ',') {
            None => None,
            Some((header, payload)) => if text::ends(header, ";base64"@) {
                base64::base64_bytes(payload)
            } else {
                Some(encode_utf8(payload))
            },
        },
    }
}

/// The bytes that a data address holds.
pub fn data_url_bytes(url: &str) -> (r: Option<Vec<u8>>)
    ensures
        data_bytes(url@) == match r {
            Some(v) => Some(v@),
            None => None,
        },
{
    let cs = text::to_chars(url);
    let body = match text::strip_prefix(&cs, "data:") {
        None => {
            return None;
        },
        Some(b) => b,
    };
    match text::split_once(&body, ',') {
        None => None,
        Some((header, payload)) => {
            let p = text::to_text(&payload);
            if text::ends_with(&header, ";base64") {
                base64::base64_decode(&p)
            } else {
                Some(bytes::copy_bytes(p.as_str().as_bytes()))
            }
        },
    }
}

/// A data address that a file reader made gives the bytes back that it was made of.
pub proof fn data_url_round_trip(mime: Seq<char>, b: Seq<u8>)
    requires
        !mime.contains(','),
    ensures
        data_bytes(crate::file::data_url(mime, b)) == Some(b),
{
    reveal_strlit("application/octet-stream");
    reveal_strlit(";base64,");
    reveal_strlit(";base64");
    let ty = if mime.len() == 0 {
        "application/octet-stream"@
    } else {
        mime
    };
    let p = "data:"@;
    let enc = base64::base64_text(b);
    let url = crate::file::data_url(mime, b);
    let body = ty + ";base64,"@ + enc;
    assert(url =~= p + body);
    assert(url.take(p.len() as int) =~= p);
    assert(url.skip(p.len() as int) =~= body);
    let n: int = ty.len() as int + 7;
    assert forall|j: int| 0 <= j < n implies body[j] != ',' by {
        if j < ty.len() {
            assert(body[j] == ty[j]);
            if mime.len() > 0 {
                assert(mime.contains(mime[j]));
            }
        } else {
            assert(body[j] == ";base64,"@[j - ty.len()]);
        }
    }
    assert(body[n] == ',');
    text::lemma_first_at(body, ',', n);
    assert(body.contains(','));
    let header = body.take(n);
    assert(header.skip(header.len() - ";base64"@.len()) =~= ";base64"@);
    assert(body.skip(n + 1) =~= enc);
    base64::encoded_bytes_decode(b);
}

/// All font faces, and the set of the document: the faces in it, in the order in which they
/// were added.
pub struct FontSet {
    pub fonts: Registry<FontEntry>,
    pub document: Vec<u32>,
}

/// The same over plain values.
pub ghost struct FontSetView {
    pub fonts: RegistryView<FontView>,
    pub document: Seq<u32>,
}

impl View for FontSet {
    type V = FontSetView;

    open spec fn view(&self) -> FontSetView {
        FontSetView { fonts: registry::views(self.fonts@), document: self.document@ }
    }
}

impl FontSet {
    /// No font faces.
    pub fn new() -> (r: Self)
        ensures
            r@.fonts.items == Map::<u32, FontView>::empty(),
            r@.fonts.next == 1,
            r@.document == Seq::<u32>::empty(),
    {
        let r = FontSet { fonts: Registry::new(), document: Vec::new() };
        proof {
            assert(r@.fonts.items =~= Map::empty());
        }
        r
    }
}

/// Whether what an address stands for has to be fetched: a data address holds it itself.
pub fn is_fetched(url: &str) -> (r: bool)
    ensures
        r == !text::begins(url@, "data:"@),
{
    let cs = text::to_chars(url);
    !text::starts_with(&cs, "data:")
}

/// The bytes of a style sheet's font: those of its data address, or else those that were
/// fetched for it.
pub open spec fn rule_bytes(url: Seq<char>, fetched: Option<Seq<u8>>) -> Option<Seq<u8>> {
    if text::begins(url, "data:"@) {
        data_bytes(url)
    } else {
        fetched
    }
}

/// The set with a loaded face more.
pub open spec fn with_loaded(s: FontSetView, family: Seq<char>, content: Seq<u8>) -> FontSetView {
    FontSetView {
        fonts: s.fonts.added(
            FontView { family, bytes: content, status: FontStatus::Loaded },
        ),
        document: s.document.push(s.fonts.next),
    }
}

/// What was fetched for a rule, where anything was.
pub open spec fn fetched_at(v: Seq<Option<Vec<u8>>>, i: int) -> Option<Seq<u8>> {
    if 0 <= i < v.len() {
        match v[i] {
            Some(b) => Some(b@),
            None => None,
        }
    } else {
        None
    }
}

/// The set with the fonts of the first rules of a style sheet; rules whose bytes cannot be had
/// are passed over.
pub open spec fn with_rules(
    s: FontSetView,
    rules: Seq<(Seq<char>, Seq<char>)>,
    fetched: Seq<Option<Vec<u8>>>,
    n: int,
) -> FontSetView
    decreases n,
{
    if n <= 0 {
        s
    } else {
        let before = with_rules(s, rules, fetched, n - 1);
        match rule_bytes(rules[n - 1].1, fetched_at(fetched, n - 1)) {
            Some(b) => with_loaded(before, rules[n - 1].0, b),
            None => before,
        }
    }
}

/// Loads the fonts of a style sheet: each rule gives a family and an address. What was fetched
/// for the addresses that are no data addresses is handed in, rule by rule.
pub fn register_font_face_css_rules(
    set: &mut FontSet,
    rules: &Vec<(String, String)>,
    fetched: &Vec<Option<Vec<u8>>>,
)
    ensures
        final(set)@ == with_rules(
            old(set)@,
            text::pair_texts(rules@),
            fetched@,
            rules@.len() as int,
        ),
{
    let ghost start = set@;
    let ghost rv = text::pair_texts(rules@);
    let mut i: usize = 0;
    while i < rules.len()
        invariant
            i <= rules@.len(),
            rv == text::pair_texts(rules@),
            set@ == with_rules(start, rv, fetched@, i as int),
        decreases rules@.len() - i,
    {
        let ghost before = set@;
        let cs = text::to_chars(&rules[i].1);
        let content: Option<Vec<u8>> = if text::starts_with(&cs, "data:") {
            data_url_bytes(&rules[i].1)
        } else if i < fetched.len() {
            match &fetched[i] {
                Some(b) => Some(bytes::copy_bytes(b)),
                None => None,
            }
        } else {
            None
        };
        match content {
            None => {},
            Some(b) => {
                let ghost bv = b@;
                let id = set.fonts.insert_next(
                    FontEntry {
                        family: text::copy(&rules[i].0),
                        bytes: b,
                        status: FontStatus::Loaded,
                    },
                );
                set.document.push(id);
                proof {
                    assert(set@ == with_loaded(before, rv[i as int].0, bv));
                }
            },
        }
        i = i + 1;
    }
}

/// Whether a face has bytes to show.
pub open spec fn showable(f: FontView) -> bool {
    f.status == FontStatus::Loaded && f.bytes.len() > 0
}

/// The families and bytes of the faces with these numbers that have bytes to show.
pub open spec fn showable_fonts(fonts: RegistryView<FontView>, ids: Seq<u32>) -> Seq<
    (Seq<char>, Seq<u8>),
>
    decreases ids.len(),
{
    if ids.len() == 0 {
        Seq::empty()
    } else {
        let before = showable_fonts(fonts, ids.drop_last());
        match fonts.found(ids.last()) {
            Some(f) => if showable(f) {
                before.push((f.family, f.bytes))
            } else {
                before
            },
            None => before,
        }
    }
}

/// The plain values of families and bytes.
pub open spec fn font_pairs(v: Seq<(String, Vec<u8>)>) -> Seq<(Seq<char>, Seq<u8>)> {
    v.map_values(|p: (String, Vec<u8>)| (p.0@, p.1@))
}

/// All loaded font bytes with their families, each face once, in no particular order.
pub fn registered_font_bytes(fonts: &Registry<FontEntry>) -> (r: Vec<(String, Vec<u8>)>)
    ensures
        exists|ids: Seq<u32>|
            #![trigger showable_fonts(registry::views(fonts@), ids)]
            ids.no_duplicates() && ids.to_set() == registry::views(fonts@).items.dom()
                && font_pairs(r@) == showable_fonts(registry::views(fonts@), ids),
{
    let ghost fv = registry::views(fonts@);
    let ids = fonts.ids();
    let mut out: Vec<(String, Vec<u8>)> = Vec::new();
    let mut i: usize = 0;
    proof {
        assert(font_pairs(out@) =~= Seq::empty());
    }
    while i < ids.len()
        invariant
            i <= ids@.len(),
            fv == registry::views(fonts@),
            font_pairs(out@) == showable_fonts(fv, ids@.take(i as int)),
        decreases ids@.len() - i,
    {
        proof {
            assert(ids@.take(i + 1).drop_last() =~= ids@.take(i as int));
            assert(ids@.take(i + 1).last() == ids@[i as int]);
        }
        match fonts.get(ids[i]) {
            Some(e) => {
                let loaded = match e.status {
                    FontStatus::Loaded => true,
                    _ => false,
                };
                if loaded && e.bytes.len() > 0 {
                    let ghost prev = out@;
                    out.push((text::copy(&e.family), bytes::copy_bytes(&e.bytes)));
                    proof {
                        assert(font_pairs(out@) =~= font_pairs(prev).push((e.family@, e.bytes@)));
                    }
                }
            },
            None => {},
        }
        i = i + 1;
    }
    proof {
        assert(ids@.take(ids@.len() as int) =~= ids@);
        assert(fv.items.dom() =~= fonts@.items.dom());
        assert(font_pairs(out@) == showable_fonts(fv, ids@));
    }
    out
}

fn find_number(v: &Vec<u32>, n: u32) -> (r: usize)
    ensures
        r == crate::pairs::position(v@, |m: u32| m == n),
        r <= v@.len(),
        r < v@.len() <==> v@.contains(n),
{
    let ghost p = |m: u32| m == n;
    let mut i: usize = 0;
    while i < v.len() && v[i] != n
        invariant
            i <= v@.len(),
            p == (|m: u32| m == n),
            forall|j: int| 0 <= j < i ==> !p(#[trigger] v@[j]),
        decreases v@.len() - i,
    {
        i = i + 1;
    }
    proof {
        crate::pairs::lemma_position(v@, p, i as int);
        if i < v@.len() {
            assert(v@[i as int] == n);
        } else if v@.contains(n) {
            let j = choose|j: int| 0 <= j < v@.len() && v@[j] == n;
            assert(!p(v@[j]));
        }
    }
    i
}

/// Adds a face to the set of the document, once.
pub fn document_fonts_add(document: &mut Vec<u32>, id: u32)
    ensures
        final(document)@ == (if old(document)@.contains(id) {
            old(document)@
        } else {
            old(document)@.push(id)
        }),
        final(document)@.contains(id),
        old(document)@.no_duplicates() ==> final(document)@.no_duplicates(),
{
    let ghost before = document@;
    let i = find_number(document, id);
    if i == document.len() {
        document.push(id);
        proof {
            assert(document@[before.len() as int] == id);
            if !before.contains(id) {
                assert forall|j: int| 0 <= j < before.len() implies before[j] != id by {
                    assert(before.contains(before[j]));
                }
            }
        }
    }
}

proof fn lemma_removed_one(v: Seq<u32>, i: int)
    requires
        0 <= i < v.len(),
    ensures
        v.no_duplicates() ==> !v.remove(i).contains(v[i]),
        forall|x: u32| x != v[i] ==> (#[trigger] v.remove(i).contains(x) <==> v.contains(x)),
{
    let w = v.remove(i);
    if w.contains(v[i]) {
        let j = w.index_of(v[i]);
        assert(w[j] == v[if j < i {
            j
        } else {
            j + 1
        }]);
    }
    assert forall|x: u32| x != v[i] implies (#[trigger] w.contains(x) <==> v.contains(x)) by {
        if w.contains(x) {
            let j = w.index_of(x);
            assert(v[if j < i {
                j
            } else {
                j + 1
            }] == x);
        }
        if v.contains(x) {
            let j = v.index_of(x);
            assert(w[if j < i {
                j
            } else {
                j - 1
            }] == x);
        }
    }
}

/// Removes the first of a face from the set of the document; tells whether it was there.
pub fn document_fonts_delete(document: &mut Vec<u32>, id: u32) -> (r: bool)
    ensures
        r == old(document)@.contains(id),
        final(document)@ == (if r {
            old(document)@.remove(crate::pairs::position(old(document)@, |m: u32| m == id))
        } else {
            old(document)@
        }),
        old(document)@.no_duplicates() ==> !final(document)@.contains(id),
        forall|x: u32|
            x != id ==> (#[trigger] final(document)@.contains(x) <==> old(document)@.contains(x)),
{
    let ghost before = document@;
    let i = find_number(document, id);
    if i < document.len() {
        document.remove(i);
        proof {
            crate::pairs::lemma_position_holds(before, |m: u32| m == id);
            assert(before[i as int] == id);
            lemma_removed_one(before, i as int);
        }
        true
    } else {
        false
    }
}

/// Empties the set of the document.
pub fn document_fonts_clear(document: &mut Vec<u32>)
    ensures
        final(document)@.len() == 0,
{
    document.clear();
}

/// Whether a face is in the set of the document.
pub fn document_fonts_has(document: &Vec<u32>, id: u32) -> (r: bool)
    ensures
        r == document@.contains(id),
{
    find_number(document, id) < document.len()
}

/// How many faces are in the set of the document.
pub fn document_fonts_size(document: &Vec<u32>) -> (r: usize)
    ensures
        r == document@.len(),
{
    document.len()
}

/// Makes a font face. Bytes that are handed in load it at once; an address waits for
/// `font_face_load`.
pub fn font_face_ctor(
    fonts: &mut Registry<FontEntry>,
    family: String,
    content: Option<Vec<u8>>,
) -> (r: u32)
    ensures
        r == old(fonts)@.next,
        registry::views(final(fonts)@) == registry::views(old(fonts)@).added(
            match content {
                Some(b) => (FontView { family: family@, bytes: b@, status: FontStatus::Loaded }),
                None => (FontView {
                    family: family@,
                    bytes: Seq::empty(),
                    status: FontStatus::Unloaded,
                }),
            },
        ),
{
    match content {
        Some(b) => fonts.insert_next(FontEntry { family, bytes: b, status: FontStatus::Loaded }),
        None => {
            let e = FontEntry { family, bytes: Vec::new(), status: FontStatus::Unloaded };
            proof {
                assert(e@.bytes =~= Seq::empty());
            }
            fonts.insert_next(e)
        },
    }
}

/// A face that counts as loaded where it has bytes.
pub open spec fn settled() -> spec_fn(FontView) -> FontView {
    |f: FontView|
        if f.bytes.len() > 0 {
            FontView { status: FontStatus::Loaded, ..f }
        } else {
            f
        }
}

/// Loads a face: with an address, from what was fetched for it, or else it has failed; without
/// one, from the bytes that it was made with. Gives the name of its status.
pub fn font_face_load(
    fonts: &mut Registry<FontEntry>,
    id: u32,
    url: &str,
    fetched: Option<Vec<u8>>,
) -> (r: String)
    ensures
        registry::views(final(fonts)@) == changed(
            registry::views(old(fonts)@),
            id,
            if url@.len() > 0 {
                match fetched {
                    Some(b) => loaded_with(b@),
                    None => failed(),
                }
            } else {
                settled()
            },
        ),
        r@ == match registry::views(final(fonts)@).found(id) {
            Some(f) => status_name(f.status),
            None => status_name(FontStatus::Unloaded),
        },
{
    if !url.is_empty() {
        match fetched {
            Some(b) => store_bytes(fonts, id, b),
            None => mark_font_error(fonts, id),
        }
    } else {
        let ghost before = registry::views(fonts@);
        match fonts.take(id) {
            None => {
                proof {
                    assert(registry::views(fonts@).items =~= before.items);
                }
            },
            Some(mut e) => {
                if e.bytes.len() > 0 {
                    e.status = FontStatus::Loaded;
                }
                fonts.put(id, e);
            },
        }
    }
    current_status_str(fonts, id)
}

/// The bytes that an answer brings: those of one whose status says that all went well.
pub fn fetched_bytes(status: u16, body: Vec<u8>) -> (r: Option<Vec<u8>>)
    ensures
        r == (if 200 <= status < 300 {
            Some(body)
        } else {
            None
        }),
{
    if 200 <= status && status < 300 {
        Some(body)
    } else {
        None
    }
}

/// Whether a text has neither quotes nor white space at its ends.
pub open spec fn is_bare(s: Seq<char>) -> bool {
    &&& s.len() > 0
    &&& !text::is_space(s[0]) && s[0] != '"' && s[0] != '\''
    &&& !text::is_space(s.last()) && s.last() != '"' && s.last() != '\''
}

proof fn lemma_quotes_go(s: Seq<char>, q: char)
    requires
        is_bare(s),
        q == '"' || q == '\'',
    ensures
        unquoted(s) == s,
        unquoted(seq![q] + s + seq![q]) == s,
{
    let t = seq![q] + s + seq![q];
    let n = s.len() as int;
    let dbl = CharClass::Is('"');
    let sgl = CharClass::Is('\'');
    text::lemma_trimmed(s, dbl);
    text::lemma_trimmed(s, sgl);
    let k = CharClass::Is(q);
    assert(t[1] == s[0]);
    assert(t[n] == s.last());
    let (a, b) = text::trimming_takes_the_ends(t, k);
    assert(t[0] == q && t[n + 1] == q);
    assert(k.has_char(q));
    if a > 1 {
        assert(k.has_char(t[1]));
    }
    if b < n + 1 {
        assert(k.has_char(t[n]));
    }
    assert(a == 1 && b == n + 1);
    assert(t.subrange(1, n + 1) =~= s);
    if q == '\'' {
        text::lemma_trimmed(t, dbl);
    }
}

/// A source's address is read the same with and without quotes, and with and without the word for an
/// address around it.
pub proof fn sources_are_read(s: Seq<char>, q: char)
    requires
        is_bare(s),
        q == '"' || q == '\'',
    ensures
        !text::begins(s, "url("@) ==> source_address(s) == s,
        source_address(seq![q] + s + seq![q]) == s,
        source_address("url("@ + (s + seq![')'])) == s,
        source_address("url("@ + ((seq![q] + s + seq![q]) + seq![')'])) == s,
{
    reveal_strlit("url(");
    let u = "url("@;
    let t = seq![q] + s + seq![q];
    lemma_quotes_go(s, q);
    text::lemma_trimmed(s, CharClass::Space);
    text::spaces_are_not_seen(q);
    text::spaces_are_not_seen(')');
    text::spaces_are_not_seen('u');
    text::spaces_are_not_seen(s[0]);
    text::spaces_are_not_seen(s.last());
    text::lemma_trimmed(t, CharClass::Space);
    text::beginnings_and_ends(s, u, s);
    text::beginnings_and_ends(t, u, s);
    if text::begins(t, u) {
        assert(t[0] == u[0]);
    }
    let a = u + (s + seq![')']);
    let b = u + (t + seq![')']);
    assert(a[0] == 'u' && a.last() == ')');
    assert(b[0] == 'u' && b.last() == ')');
    text::lemma_trimmed(a, CharClass::Space);
    text::lemma_trimmed(b, CharClass::Space);
    assert(s + seq![')'] =~= s.push(')'));
    assert(t + seq![')'] =~= t.push(')'));
    crate::color::lists_are_read(s, s, u, 0);
    crate::color::lists_are_read(t, t, u, 0);
}

/// A data address gives the text behind its first comma, as it is or as the bytes it stands for;
/// without the word before it or without a comma it gives nothing.
pub proof fn data_addresses_are_read(header: Seq<char>, payload: Seq<char>, url: Seq<char>)
    requires
        !header.contains(','),
    ensures
        !text::ends(header, ";base64"@) ==> data_bytes("data:"@ + (header.push(',') + payload))
            == Some(encode_utf8(payload)),
        text::ends(header, ";base64"@) ==> data_bytes("data:"@ + (header.push(',') + payload))
            == base64::base64_bytes(payload),
        !text::begins(url, "data:"@) ==> data_bytes(url) is None,
        data_bytes("data:"@ + header) is None,
{
    let body = header.push(',') + payload;
    text::beginnings_and_ends(url, "data:"@, body);
    text::beginnings_and_ends(url, "data:"@, header);
    text::texts_are_cut_once(body, ',', header, payload);
    text::texts_are_cut_once(header, ',', header, payload);
}

/// Changing a face changes that one alone: one that is loaded has the bytes and keeps its family, one
/// that failed keeps what it has, and one that is settled counts as loaded just where it has bytes or
/// did before.
pub proof fn faces_change_alone(
    r: RegistryView<FontView>,
    id: u32,
    face: FontView,
    content: Seq<u8>,
    other: u32,
)
    requires
        r.found(id) == Some(face),
        other != id,
    ensures
        changed(r, id, loaded_with(content)).found(id) matches Some(f) && f.bytes == content
            && f.status == FontStatus::Loaded && f.family == face.family,
        changed(r, id, failed()).found(id) matches Some(f) && f.bytes == face.bytes && f.status
            == FontStatus::Error && f.family == face.family,
        changed(r, id, settled()).found(id) matches Some(f) && f.bytes == face.bytes && f.family
            == face.family && (f.status == FontStatus::Loaded <==> face.bytes.len() > 0
            || face.status == FontStatus::Loaded),
        changed(r, id, loaded_with(content)).found(other) == r.found(other),
        changed(r, id, failed()).found(other) == r.found(other),
        changed(r, id, settled()).found(other) == r.found(other),
        r.found(other) is None ==> changed(r, other, failed()) == r,
{
}

/// A rule whose font cannot be had adds nothing, and any other adds one loaded face, which the document
/// then shows under the rule's family where it has bytes. The bytes of a data address are its own, and
/// any other address has those that were fetched for it.
pub proof fn rules_add_their_faces(
    s: FontSetView,
    rules: Seq<(Seq<char>, Seq<char>)>,
    fetched: Seq<Option<Vec<u8>>>,
    n: int,
    b: Seq<u8>,
)
    requires
        0 < n <= rules.len(),
    ensures
        ({
            let before = with_rules(s, rules, fetched, n - 1);
            let after = with_rules(s, rules, fetched, n);
            let found = if text::begins(rules[n - 1].1, "data:"@) {
                data_bytes(rules[n - 1].1)
            } else {
                fetched_at(fetched, n - 1)
            };
            &&& found is None ==> after == before
            &&& found == Some(b) ==> after.document == before.document.push(before.fonts.next)
                && after.fonts.found(before.fonts.next) == Some(
                FontView { family: rules[n - 1].0, bytes: b, status: FontStatus::Loaded },
            )
            &&& found == Some(b) && b.len() > 0 ==> showable_fonts(
                after.fonts,
                seq![before.fonts.next],
            ) == seq![(rules[n - 1].0, b)]
        }),
        with_rules(s, rules, fetched, 0) == s,
{
    let before = with_rules(s, rules, fetched, n - 1);
    reveal_with_fuel(showable_fonts, 2);
    assert(seq![before.fonts.next].drop_last() =~= Seq::<u32>::empty());
}

/// The faces that show are those of the first numbers and then those of the others: each that is there,
/// loaded and not empty.
pub proof fn loaded_faces_show(
    fonts: RegistryView<FontView>,
    a: Seq<u32>,
    b: Seq<u32>,
    id: u32,
)
    ensures
        showable_fonts(fonts, a + b) == showable_fonts(fonts, a) + showable_fonts(fonts, b),
        showable_fonts(fonts, seq![id]).len() == 1 <==> (fonts.found(id) matches Some(f) && f.status
            == FontStatus::Loaded && f.bytes.len() > 0),
        showable_fonts(fonts, seq![id]).len() <= 1,
    decreases b.len(),
{
    reveal_with_fuel(showable_fonts, 2);
    assert(seq![id].drop_last() =~= Seq::<u32>::empty());
    if b.len() == 0 {
        assert(a + b =~= a);
        assert(showable_fonts(fonts, a) + showable_fonts(fonts, b) =~= showable_fonts(fonts, a));
    } else {
        loaded_faces_show(fonts, a, b.drop_last(), id);
        assert((a + b).drop_last() =~= a + b.drop_last());
        assert((a + b).last() == b.last());
        assert(showable_fonts(fonts, a + b) =~= showable_fonts(fonts, a) + showable_fonts(
            fonts,
            b,
        ));
    }
}

} // verus!
