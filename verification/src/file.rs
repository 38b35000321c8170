//! Blobs, the addresses that stand for them, and how file readers show them.
use crate::base64;
use crate::bytes;
use crate::number;
use crate::pairs;
use crate::registry;
use crate::registry::{Registry, RegistryView};
use crate::text;
use vstd::prelude::*;
use vstd::string::*;
use vstd::utf8::*;

verus! {

broadcast use crate::registry::group_registry;

/// A blob: its bytes and its type.
pub struct BlobEntry {
    pub bytes: Vec<u8>,
    pub mime: String,
}

/// A blob over plain values.
pub struct BlobView {
    pub bytes: Seq<u8>,
    pub mime: Seq<char>,
}

impl View for BlobEntry {
    type V = BlobView;

    open spec fn view(&self) -> BlobView {
        BlobView { bytes: self.bytes@, mime: self.mime@ }
    }
}

/// Keeps a blob, and gives its number.
pub fn store_blob(blobs: &mut Registry<BlobEntry>, content: Vec<u8>, mime: String) -> (r: u32)
    ensures
        r == old(blobs)@.next,
        registry::views(final(blobs)@) == registry::views(old(blobs)@).added(
            (BlobView { bytes: content@, mime: mime@ }),
        ),
{
    blobs.insert_next(BlobEntry { bytes: content, mime })
}

/// The bytes of a blob.
pub fn read_blob_bytes(blobs: &Registry<BlobEntry>, id: u32) -> (r: Option<Vec<u8>>)
    ensures
        match registry::views(blobs@).found(id) {
            Some(b) => r matches Some(v) && v@ == b.bytes,
            None => r is None,
        },
{
    match blobs.get(id) {
        Some(e) => Some(bytes::copy_bytes(&e.bytes)),
        None => None,
    }
}

/// A copy of a blob.
pub fn read_blob_entry(blobs: &Registry<BlobEntry>, id: u32) -> (r: Option<BlobEntry>)
    ensures
        match registry::views(blobs@).found(id) {
            Some(b) => r matches Some(v) && v@ == b,
            None => r is None,
        },
{
    match blobs.get(id) {
        Some(e) => Some(
            BlobEntry { bytes: bytes::copy_bytes(&e.bytes), mime: text::copy(&e.mime) },
        ),
        None => None,
    }
}

/// The bytes of a blob, none where there is no such blob.
pub open spec fn blob_bytes(blobs: RegistryView<BlobView>, id: Option<u32>) -> Seq<u8> {
    match id {
        Some(n) => match blobs.found(n) {
            Some(b) => b.bytes,
            None => Seq::empty(),
        },
        None => Seq::empty(),
    }
}

fn bytes_or_none(blobs: &Registry<BlobEntry>, id: Option<u32>) -> (r: Vec<u8>)
    ensures
        r@ == blob_bytes(registry::views(blobs@), id),
{
    match id {
        Some(n) => match read_blob_bytes(blobs, n) {
            Some(v) => v,
            None => Vec::new(),
        },
        None => Vec::new(),
    }
}

/// One part of a new blob.
pub enum BlobPart {
    Text(String),
    Blob(u32),
    Bytes(Vec<u8>),
}

/// The bytes of one part: the text in UTF-8, the bytes of the blob, or the bytes themselves.
pub open spec fn part_bytes(blobs: RegistryView<BlobView>, p: BlobPart) -> Seq<u8> {
    match p {
        BlobPart::Text(s) => encode_utf8(s@),
        BlobPart::Blob(id) => blob_bytes(blobs, Some(id)),
        BlobPart::Bytes(v) => v@,
    }
}

/// The bytes of parts, one after the other.
pub open spec fn parts_bytes(blobs: RegistryView<BlobView>, v: Seq<BlobPart>) -> Seq<u8>
    decreases v.len(),
{
    if v.len() == 0 {
        Seq::empty()
    } else {
        parts_bytes(blobs, v.drop_last()) + part_bytes(blobs, v.last())
    }
}

/// Appends the bytes of one part.
pub fn append_part(blobs: &Registry<BlobEntry>, part: &BlobPart, out: &mut Vec<u8>)
    ensures
        final(out)@ == old(out)@ + part_bytes(registry::views(blobs@), *part),
{
    match part {
        BlobPart::Text(s) => {
            bytes::append_bytes(out, s.as_str().as_bytes());
        },
        BlobPart::Blob(id) => {
            let v = bytes_or_none(blobs, Some(*id));
            bytes::append_bytes(out, &v);
        },
        BlobPart::Bytes(v) => {
            bytes::append_bytes(out, v);
        },
    }
}

/// The bytes of the parts of a new blob.
pub fn collect_blob_parts(blobs: &Registry<BlobEntry>, parts: &Vec<BlobPart>) -> (r: Vec<u8>)
    ensures
        r@ == parts_bytes(registry::views(blobs@), parts@),
{
    let ghost bv = registry::views(blobs@);
    let mut out: Vec<u8> = Vec::new();
    let mut i: usize = 0;
    while i < parts.len()
        invariant
            i <= parts@.len(),
            bv == registry::views(blobs@),
            out@ == parts_bytes(bv, parts@.take(i as int)),
        decreases parts@.len() - i,
    {
        proof {
            assert(parts@.take(i + 1).drop_last() =~= parts@.take(i as int));
            assert(parts@.take(i + 1).last() == parts@[i as int]);
        }
        append_part(blobs, &parts[i], &mut out);
        i = i + 1;
    }
    proof {
        assert(parts@.take(parts@.len() as int) =~= parts@);
    }
    out
}

/// The result of `String::from_utf8_lossy` of std.
pub uninterp spec fn lossy_text(b: Seq<u8>) -> Seq<char>;

/// `String::from_utf8_lossy` of std: the text of bytes, invalid stretches replaced, which
/// depends on the bytes alone; valid UTF-8 gives the text that it encodes.
#[verifier::external_body]
pub(crate) fn from_utf8_lossy(b: &[u8]) -> (r: String)
    ensures
        r@ == lossy_text(b@),
        valid_utf8(b@) ==> r@ == decode_utf8(b@),
{
    String::from_utf8_lossy(b).into_owned()
}

/// The text of a blob.
pub fn blob_text(blobs: &Registry<BlobEntry>, id: Option<u32>) -> (r: String)
    ensures
        r@ == (if id is Some && registry::views(blobs@).found(id->0) is Some {
            lossy_text(blob_bytes(registry::views(blobs@), id))
        } else {
            Seq::empty()
        }),
        valid_utf8(blob_bytes(registry::views(blobs@), id)) ==> r@ == decode_utf8(
            blob_bytes(registry::views(blobs@), id),
        ),
{
    match id {
        Some(n) => match read_blob_bytes(blobs, n) {
            Some(v) => from_utf8_lossy(&v),
            None => String::new(),
        },
        None => String::new(),
    }
}

/// A position in so many bytes: from the end where it is negative, and within them.
pub open spec fn bounded(raw: int, total: int) -> int {
    if raw < 0 {
        if total + raw < 0 {
            0
        } else {
            total + raw
        }
    } else if raw > total {
        total
    } else {
        raw
    }
}

/// The bytes from one position to another, none where the end is not after the start.
pub open spec fn slice_of(b: Seq<u8>, start: Option<i64>, end: Option<i64>) -> Seq<u8> {
    let s = bounded(
        match start {
            Some(n) => n as int,
            None => 0,
        },
        b.len() as int,
    );
    let e = bounded(
        match end {
            Some(n) => n as int,
            None => b.len() as int,
        },
        b.len() as int,
    );
    if e > s {
        b.subrange(s, e)
    } else {
        Seq::empty()
    }
}

fn bound(raw: i128, total: usize) -> (r: usize)
    requires
        -0x8000_0000_0000_0000 <= raw <= 0xffff_ffff_ffff_ffff,
    ensures
        r == bounded(raw as int, total as int),
        r <= total,
{
    let t: i128 = total as i128;
    if raw < 0 {
        if t + raw < 0 {
            0
        } else {
            (t + raw) as usize
        }
    } else if raw > t {
        total
    } else {
        raw as usize
    }
}

/// Keeps part of a blob as a blob of its own, and gives its number.
pub fn blob_slice(
    blobs: &mut Registry<BlobEntry>,
    id: Option<u32>,
    start: Option<i64>,
    end: Option<i64>,
    mime: String,
) -> (r: u32)
    ensures
        r == old(blobs)@.next,
        registry::views(final(blobs)@) == registry::views(old(blobs)@).added(
            (BlobView {
                bytes: slice_of(blob_bytes(registry::views(old(blobs)@), id), start, end),
                mime: mime@,
            }),
        ),
{
    let content = bytes_or_none(blobs, id);
    let total: usize = content.len();
    let s: usize = match start {
        Some(n) => bound(n as i128, total),
        None => 0,
    };
    let e: usize = match end {
        Some(n) => bound(n as i128, total),
        None => total,
    };
    let part = if e > s {
        bytes::copy_part(&content, s, e)
    } else {
        Vec::new()
    };
    store_blob(blobs, part, mime)
}

/// The data address of bytes.
pub open spec fn data_url(mime: Seq<char>, b: Seq<u8>) -> Seq<char> {
    let ty = if mime.len() == 0 {
        "application/octet-stream"@
    } else {
        mime
    };
    "data:"@ + ty + ";base64,"@ + base64::base64_text(b)
}

/// What a file reader shows of a blob as a data address; a blob that is not there is empty.
pub fn reader_read_as_data_url(blobs: &Registry<BlobEntry>, id: Option<u32>) -> (r: String)
    ensures
        r@ == match id {
            Some(n) => match registry::views(blobs@).found(n) {
                Some(b) => data_url(b.mime, b.bytes),
                None => data_url(Seq::empty(), Seq::empty()),
            },
            None => data_url(Seq::empty(), Seq::empty()),
        },
{
    let entry = match id {
        Some(n) => read_blob_entry(blobs, n),
        None => None,
    };
    let entry = match entry {
        Some(e) => e,
        None => {
            let e = BlobEntry { bytes: Vec::new(), mime: String::new() };
            proof {
                assert(e@.bytes =~= Seq::empty());
            }
            e
        },
    };
    let mut out = text::to_chars("data:");
    if entry.mime.as_str().is_empty() {
        text::push_text(&mut out, "application/octet-stream");
    } else {
        text::push_text(&mut out, &entry.mime);
    }
    text::push_text(&mut out, ";base64,");
    let b64 = base64::base64_encode(&entry.bytes);
    text::push_text(&mut out, &b64);
    text::to_text(&out)
}

/// Each byte as the character with its number.
pub open spec fn binary_text(b: Seq<u8>) -> Seq<char> {
    b.map_values(|x: u8| x as char)
}

/// What a file reader shows of a blob as a binary string.
pub fn reader_read_as_binary_string(blobs: &Registry<BlobEntry>, id: Option<u32>) -> (r: String)
    ensures
        r@ == binary_text(blob_bytes(registry::views(blobs@), id)),
{
    let content = bytes_or_none(blobs, id);
    let ghost goal = binary_text(content@);
    let mut out: Vec<char> = Vec::new();
    let mut i: usize = 0;
    while i < content.len()
        invariant
            i <= content@.len(),
            goal == binary_text(content@),
            out@ == goal.take(i as int),
        decreases content@.len() - i,
    {
        out.push(content[i] as char);
        proof {
            assert(goal.take(i + 1) =~= goal.take(i as int).push(goal[i as int]));
        }
        i = i + 1;
    }
    proof {
        assert(goal.take(goal.len() as int) =~= goal);
    }
    text::to_text(&out)
}

/// What a file reader shows of a blob as text.
pub fn reader_read_as_text(blobs: &Registry<BlobEntry>, id: Option<u32>) -> (r: String)
    ensures
        r@ == lossy_text(blob_bytes(registry::views(blobs@), id)),
{
    let content = bytes_or_none(blobs, id);
    from_utf8_lossy(&content)
}

/// The plain values of a list of addresses.
pub open spec fn urls_view(v: Seq<(String, u32)>) -> Seq<(Seq<char>, u32)> {
    v.map_values(|p: (String, u32)| (p.0@, p.1))
}

/// Whether an entry is about the address.
pub open spec fn about(url: Seq<char>) -> spec_fn((Seq<char>, u32)) -> bool {
    |p: (Seq<char>, u32)| p.0 == url
}

/// Whether an entry is about another address.
pub open spec fn not_about(url: Seq<char>) -> spec_fn((Seq<char>, u32)) -> bool {
    |p: (Seq<char>, u32)| p.0 != url
}

/// The blob that an address stands for.
pub open spec fn url_target(v: Seq<(Seq<char>, u32)>, url: Seq<char>) -> Option<u32> {
    let i = pairs::position(v, about(url));
    if i < v.len() {
        Some(v[i].1)
    } else {
        None
    }
}

/// The address of a blob, made from a time stamp and its number.
pub open spec fn blob_url(stamp: u128, id: u32) -> Seq<char> {
    "blob:daboss/"@ + number::hexadecimal(stamp as nat) + seq!['-'] + number::decimal(id as nat)
}

fn drop_url(urls: &Vec<(String, u32)>, url: &str) -> (r: Vec<(String, u32)>)
    ensures
        urls_view(r@) == urls_view(urls@).filter(not_about(url@)),
{
    let ghost t = urls_view(urls@);
    let ghost keep = not_about(url@);
    let mut out: Vec<(String, u32)> = Vec::new();
    let mut i: usize = 0;
    proof {
        reveal(Seq::filter);
        assert(t.take(0).filter(keep) =~= Seq::empty());
        assert(urls_view(out@) =~= Seq::empty());
    }
    while i < urls.len()
        invariant
            i <= urls@.len(),
            t == urls_view(urls@),
            keep == not_about(url@),
            urls_view(out@) == t.take(i as int).filter(keep),
        decreases urls@.len() - i,
    {
        let ghost prev = out@;
        proof {
            reveal(Seq::filter);
            assert(t.take(i + 1).drop_last() =~= t.take(i as int));
            assert(t.take(i + 1).last() == (urls@[i as int].0@, urls@[i as int].1));
        }
        if !text::same(&urls[i].0, url) {
            out.push((text::copy(&urls[i].0), urls[i].1));
            proof {
                assert(urls_view(out@) =~= urls_view(prev).push(t[i as int]));
            }
        }
        i = i + 1;
    }
    proof {
        assert(t.take(t.len() as int) =~= t);
    }
    out
}

/// The list with an address for a blob, in place of what the address stood for.
pub open spec fn with_url(v: Seq<(Seq<char>, u32)>, url: Seq<char>, id: u32) -> Seq<
    (Seq<char>, u32),
> {
    v.filter(not_about(url)).push((url, id))
}

/// Makes an address for a blob.
pub fn url_create_object_url(urls: &mut Vec<(String, u32)>, stamp: u128, id: u32) -> (r: String)
    ensures
        r@ == blob_url(stamp, id),
        urls_view(final(urls)@) == with_url(urls_view(old(urls)@), blob_url(stamp, id), id),
{
    let mut out = text::to_chars("blob:daboss/");
    let hex = number::write_digits(stamp, 16);
    text::push_chars(&mut out, &hex);
    out.push('-');
    let dec = number::write_decimal(id as u128);
    text::push_chars(&mut out, &dec);
    proof {
        assert(out@ =~= blob_url(stamp, id));
    }
    let url = text::to_text(&out);
    let mut rest = drop_url(urls, &url);
    let ghost prev = rest@;
    rest.push((text::copy(&url), id));
    proof {
        assert(urls_view(rest@) =~= urls_view(prev).push((url@, id)));
    }
    *urls = rest;
    url
}

/// Withdraws an address.
pub fn url_revoke_object_url(urls: &mut Vec<(String, u32)>, url: &str)
    ensures
        urls_view(final(urls)@) == urls_view(old(urls)@).filter(not_about(url@)),
{
    let rest = drop_url(urls, url);
    *urls = rest;
}

/// The blob that an address stands for, where both are there.
pub open spec fn object_at(
    urls: Seq<(Seq<char>, u32)>,
    blobs: RegistryView<BlobView>,
    url: Seq<char>,
) -> Option<BlobView> {
    match url_target(urls, url) {
        Some(id) => blobs.found(id),
        None => None,
    }
}

/// The blob that an address stands for, where both are there.
pub fn resolve_object_url(
    urls: &Vec<(String, u32)>,
    blobs: &Registry<BlobEntry>,
    url: &str,
) -> (r: Option<BlobEntry>)
    ensures
        match object_at(urls_view(urls@), registry::views(blobs@), url@) {
            Some(b) => r matches Some(v) && v@ == b,
            None => r is None,
        },
{
    let ghost t = urls_view(urls@);
    let ghost p = about(url@);
    let mut i: usize = 0;
    while i < urls.len()
        invariant
            i <= urls@.len(),
            t == urls_view(urls@),
            p == about(url@),
            forall|j: int| 0 <= j < i ==> !p(#[trigger] t[j]),
        decreases urls@.len() - i,
    {
        if text::same(&urls[i].0, url) {
            proof {
                pairs::lemma_position(t, p, i as int);
            }
            return read_blob_entry(blobs, urls[i].1);
        }
        i = i + 1;
    }
    proof {
        pairs::lemma_position(t, p, i as int);
    }
    None
}

/// An address that was made stands for its blob; one that was withdrawn stands for nothing.
pub proof fn made_url_resolves(v: Seq<(Seq<char>, u32)>, url: Seq<char>, id: u32)
    ensures
        url_target(with_url(v, url, id), url) == Some(id),
        url_target(v.filter(not_about(url)), url) is None,
{
    let p = about(url);
    let rest = v.filter(not_about(url));
    let w = with_url(v, url, id);
    assert forall|j: int| 0 <= j < rest.len() implies !p(#[trigger] rest[j]) by {
        v.lemma_filter_pred(not_about(url), j);
    }
    pairs::lemma_position(rest, p, rest.len() as int);
    assert forall|j: int| 0 <= j < rest.len() implies !p(#[trigger] w[j]) by {
        assert(w[j] == rest[j]);
    }
    pairs::lemma_position(w, p, rest.len() as int);
}

/// A blob that was stored is read back whole; the slice from its start to its end is all of
/// it; and a slice is never longer than the blob.
pub proof fn stored_blob_is_read(
    blobs: RegistryView<BlobView>,
    b: BlobView,
    start: Option<i64>,
    end: Option<i64>,
)
    ensures
        blob_bytes(blobs.added(b), Some(blobs.next)) == b.bytes,
        slice_of(b.bytes, None, None) == b.bytes,
        slice_of(b.bytes, start, end).len() <= b.bytes.len(),
{
    assert(slice_of(b.bytes, None, None) =~= b.bytes);
}

/// An event that a file reader fires: the name of its handler, and the state that the reader shows
/// then. It shows what it read from state two on.
pub struct ReaderStep {
    pub handler: String,
    pub ready_state: u32,
}

/// An event of a file reader over plain values.
#[verifier::ext_equal]
pub ghost struct StepView {
    pub handler: Seq<char>,
    pub ready_state: u32,
}

impl View for ReaderStep {
    type V = StepView;

    open spec fn view(&self) -> StepView {
        StepView { handler: self.handler@, ready_state: self.ready_state }
    }
}

/// Events of a file reader over plain values.
pub open spec fn steps_view(v: Seq<ReaderStep>) -> Seq<StepView> {
    v.map_values(|s: ReaderStep| s@)
}

/// The events that a file reader fires as it reads, in order: it is loading at first, and done from
/// the second on.
pub open spec fn read_steps() -> Seq<StepView> {
    seq![
        StepView { handler: "onloadstart"@, ready_state: 1 },
        StepView { handler: "onload"@, ready_state: 2 },
        StepView { handler: "onloadend"@, ready_state: 2 },
    ]
}

/// The events that a file reader fires when it is aborted, in order.
pub open spec fn abort_steps() -> Seq<StepView> {
    seq![
        StepView { handler: "onabort"@, ready_state: 2 },
        StepView { handler: "onloadend"@, ready_state: 2 },
    ]
}

fn step(handler: &str, ready_state: u32) -> (r: ReaderStep)
    ensures
        r@ == (StepView { handler: handler@, ready_state }),
{
    ReaderStep { handler: text::copy(handler), ready_state }
}

/// The events that a file reader fires as it reads, in order.
pub fn reader_events() -> (r: Vec<ReaderStep>)
    ensures
        steps_view(r@) == read_steps(),
{
    let mut out: Vec<ReaderStep> = Vec::new();
    out.push(step("onloadstart", 1));
    out.push(step("onload", 2));
    out.push(step("onloadend", 2));
    proof {
        assert(steps_view(out@) =~= read_steps());
    }
    out
}

/// The events that a file reader fires when it is aborted, in order.
pub fn abort_events() -> (r: Vec<ReaderStep>)
    ensures
        steps_view(r@) == abort_steps(),
{
    let mut out: Vec<ReaderStep> = Vec::new();
    out.push(step("onabort", 2));
    out.push(step("onloadend", 2));
    proof {
        assert(steps_view(out@) =~= abort_steps());
    }
    out
}

/// A reader never goes back: it walks from a fresh one's state zero over one to two.
pub proof fn reader_states_walk(i: int)
    requires
        0 <= i < read_steps().len(),
    ensures
        0 < read_steps()[i].ready_state,
        i > 0 ==> read_steps()[i - 1].ready_state <= read_steps()[i].ready_state
            <= read_steps()[i - 1].ready_state + 1,
        i == 0 ==> read_steps()[i].ready_state == 1,
        i == read_steps().len() - 1 ==> read_steps()[i].ready_state == 2,
{
}

/// The type of the event that a handler's name is for: the name without every leading `on`.
pub open spec fn event_type_of(s: Seq<char>) -> Seq<char>
    decreases s.len(),
{
    if s.len() >= 2 && s[0] == 'o' && s[1] == 'n' {
        event_type_of(s.skip(2))
    } else {
        s
    }
}

/// The type of the event that a handler's name is for.
pub fn event_type(handler: &str) -> (r: String)
    ensures
        r@ == event_type_of(handler@),
{
    let cs = text::to_chars(handler);
    let mut i: usize = 0;
    let n: usize = cs.len();
    proof {
        assert(cs@.skip(0) =~= cs@);
    }
    while n - i >= 2 && cs[i] == 'o' && cs[i + 1] == 'n'
        invariant
            n == cs@.len(),
            i <= n,
            event_type_of(cs@) == event_type_of(cs@.skip(i as int)),
        decreases n - i,
    {
        proof {
            let s = cs@.skip(i as int);
            assert(s[0] == 'o' && s[1] == 'n');
            assert(s.skip(2) =~= cs@.skip(i + 2));
        }
        i = i + 2;
    }
    let rest = text::copy_range(&cs, i, n);
    proof {
        let s = cs@.skip(i as int);
        assert(rest@ =~= s);
        if n - i >= 2 {
            assert(s[0] == cs@[i as int] && s[1] == cs@[i + 1]);
        }
    }
    text::to_text(&rest)
}

/// The bytes of parts are those of the first parts and then those of the others. A text gives its
/// bytes in UTF-8, bytes give themselves, and a blob those it was stored with.
pub proof fn parts_are_joined(
    blobs: RegistryView<BlobView>,
    a: Seq<BlobPart>,
    b: Seq<BlobPart>,
    p: BlobPart,
)
    ensures
        parts_bytes(blobs, a + b) == parts_bytes(blobs, a) + parts_bytes(blobs, b),
        p matches BlobPart::Text(s) ==> decode_utf8(parts_bytes(blobs, seq![p])) == s@,
        p matches BlobPart::Bytes(v) ==> parts_bytes(blobs, seq![p]) == v@,
        p matches BlobPart::Blob(id) ==> (blobs.found(id) matches Some(x) ==> parts_bytes(
            blobs,
            seq![p],
        ) == x.bytes),
        p matches BlobPart::Blob(id) ==> (blobs.found(id) is None ==> parts_bytes(
            blobs,
            seq![p],
        ).len() == 0),
    decreases b.len(),
{
    reveal_with_fuel(parts_bytes, 2);
    assert(seq![p].drop_last() =~= Seq::<BlobPart>::empty());
    assert(parts_bytes(blobs, seq![p]) =~= part_bytes(blobs, p));
    if let BlobPart::Text(s) = p {
        encode_utf8_decode_utf8(s@);
    }
    if b.len() == 0 {
        assert(a + b =~= a);
        assert(parts_bytes(blobs, a) + parts_bytes(blobs, b) =~= parts_bytes(blobs, a));
    } else {
        parts_are_joined(blobs, a, b.drop_last(), p);
        assert((a + b).drop_last() =~= a + b.drop_last());
        assert((a + b).last() == b.last());
        assert(parts_bytes(blobs, a + b) =~= parts_bytes(blobs, a) + parts_bytes(blobs, b));
    }
}

/// A blob that is cut at any place is the two slices put together again. A place counts from the start,
/// or from the end where it is below zero.
pub proof fn slices_make_up_the_whole(b: Seq<u8>, n: i64, m: i64)
    ensures
        slice_of(b, None, Some(n)) + slice_of(b, Some(n), None) == b,
        0 <= n <= b.len() ==> slice_of(b, None, Some(n)).len() == n,
        0 < n && n <= b.len() && m == -n ==> slice_of(b, Some(m), None).len() == n,
        0 <= n <= m <= b.len() ==> slice_of(b, Some(n), Some(m)) == b.skip(n as int).take(m - n),
        m <= n && (n < 0 || m >= 0) ==> slice_of(b, Some(n), Some(m)).len() == 0,
        n >= b.len() ==> slice_of(b, Some(n), Some(m)).len() == 0,
{
    assert(slice_of(b, None, Some(n)) + slice_of(b, Some(n), None) =~= b);
    if 0 <= n <= m <= b.len() {
        assert(slice_of(b, Some(n), Some(m)) =~= b.skip(n as int).take(m - n));
    }
}

/// Each byte of a binary text is the character with its number.
pub proof fn binary_texts_show_their_bytes(b: Seq<u8>, i: int)
    requires
        0 <= i < b.len(),
    ensures
        binary_text(b).len() == b.len(),
        binary_text(b)[i] as u32 == b[i],
{
}

/// A data address tells the type of its bytes, and a type of its own where there is none.
pub proof fn data_addresses_tell_their_type(mime: Seq<char>, b: Seq<u8>)
    ensures
        mime.len() > 0 ==> text::begins(data_url(mime, b), "data:"@ + mime + ";base64,"@),
        mime.len() == 0 ==> data_url(mime, b) == data_url("application/octet-stream"@, b),
        mime.len() > 0 ==> data_url(mime, b).skip(("data:"@ + mime + ";base64,"@).len() as int)
            == base64::base64_text(b),
{
    reveal_strlit("application/octet-stream");
    let p = "data:"@ + mime + ";base64,"@;
    text::beginnings_and_ends(data_url(mime, b), p, base64::base64_text(b));
    assert((p + base64::base64_text(b)).skip(p.len() as int) =~= base64::base64_text(b));
}

proof fn lemma_target_push(v: Seq<(Seq<char>, u32)>, url: Seq<char>, p: (Seq<char>, u32))
    ensures
        url_target(v.push(p), url) == (if url_target(v, url) is Some {
            url_target(v, url)
        } else if p.0 == url {
            Some(p.1)
        } else {
            None
        }),
{
    let w = v.push(p);
    assert(w.drop_last() =~= v);
    pairs::lemma_position_drop_last(w, about(url));
    pairs::lemma_position_holds(v, about(url));
}

/// Making or withdrawing an address leaves what all others stand for as it was.
pub proof fn other_addresses_stay(
    v: Seq<(Seq<char>, u32)>,
    url: Seq<char>,
    id: u32,
    other: Seq<char>,
)
    requires
        other != url,
    ensures
        url_target(v.filter(not_about(url)), other) == url_target(v, other),
        url_target(with_url(v, url, id), other) == url_target(v, other),
    decreases v.len(),
{
    reveal(Seq::filter);
    let f = not_about(url);
    if v.len() > 0 {
        let w = v.drop_last();
        other_addresses_stay(w, url, id, other);
        assert(w.push(v.last()) =~= v);
        lemma_target_push(w, other, v.last());
        lemma_target_push(w.filter(f), other, v.last());
    }
    lemma_target_push(v.filter(f), other, (url, id));
}

/// Blobs with different numbers have different addresses.
pub proof fn blob_addresses_differ(stamp: u128, a: u32, b: u32)
    requires
        a != b,
    ensures
        blob_url(stamp, a) != blob_url(stamp, b),
{
    let p = "blob:daboss/"@ + number::hexadecimal(stamp as nat) + seq!['-'];
    let x = number::decimal(a as nat);
    let y = number::decimal(b as nat);
    number::number_text_round_trip(a as nat, 10, u32::MAX as nat);
    number::number_text_round_trip(b as nat, 10, u32::MAX as nat);
    if blob_url(stamp, a) == blob_url(stamp, b) {
        assert((p + x).skip(p.len() as int) =~= x);
        assert((p + y).skip(p.len() as int) =~= y);
    }
}

/// An address leads to a blob just where it stands for one that is still kept.
pub proof fn addresses_lead_to_kept_blobs(
    urls: Seq<(Seq<char>, u32)>,
    blobs: RegistryView<BlobView>,
    url: Seq<char>,
    id: u32,
    b: BlobView,
)
    ensures
        object_at(with_url(urls, url, blobs.next), blobs.added(b), url) == Some(b),
        object_at(with_url(urls, url, id), blobs.without(id), url) is None,
        object_at(urls.filter(not_about(url)), blobs, url) is None,
{
    made_url_resolves(urls, url, blobs.next);
    made_url_resolves(urls, url, id);
}

/// The type of a handler's event is its name without the word before it; a name without that word is
/// its own type.
pub proof fn handlers_name_their_events(s: Seq<char>)
    ensures
        event_type_of(seq!['o', 'n'] + s) == event_type_of(s),
        !text::begins(s, seq!['o', 'n']) ==> event_type_of(s) == s,
        !text::begins(event_type_of(s), seq!['o', 'n']),
        text::ends(s, event_type_of(s)),
    decreases s.len(),
{
    let o = seq!['o', 'n'];
    assert((o + s).skip(2) =~= s);
    if s.len() >= 2 && s[0] == 'o' && s[1] == 'n' {
        assert(s.take(2) =~= o);
        handlers_name_their_events(s.skip(2));
        let e = event_type_of(s.skip(2));
        text::beginnings_and_ends(s.skip(2), e, o);
        let r = s.skip(2).take(s.skip(2).len() - e.len());
        assert(s =~= (o + r) + e);
        text::beginnings_and_ends(s, e, o + r);
    } else {
        if text::begins(s, o) {
            text::beginnings_and_ends(s, o, s);
            assert(s[0] == o[0] && s[1] == o[1]);
        }
        assert(Seq::<char>::empty() + s =~= s);
        text::beginnings_and_ends(s, s, Seq::empty());
    }
}

/// A reader tells that it starts before it tells that it is done, and that it ends last of all; one
/// that is aborted tells so and then that it ends.
pub proof fn readers_tell_their_steps()
    ensures
        read_steps().len() == 3,
        read_steps()[0].handler == "onloadstart"@,
        read_steps()[1].handler == "onload"@,
        abort_steps().len() == 2,
        abort_steps()[0].handler == "onabort"@,
        read_steps().last() == abort_steps().last(),
        read_steps().last().handler == "onloadend"@,
        abort_steps()[0].ready_state == read_steps().last().ready_state,
{
}

} // verus!
