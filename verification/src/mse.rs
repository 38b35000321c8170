//! Media sources and the buffers that feed them.
use crate::bytes;
use crate::number;
use crate::registry;
use crate::registry::{Registry, RegistryView};
use crate::text;
use crate::tree::NodeId;
use vstd::prelude::*;

verus! {

broadcast use crate::registry::group_registry;

/// The state of a media source.
#[derive(Clone, Copy, PartialEq, Eq, Structural, Debug)]
pub enum MediaSourceState {
    Closed,
    Open,
    Ended,
}

/// A media source.
pub struct MediaSourceEntry {
    pub state: MediaSourceState,
    pub source_buffers: Vec<u32>,
    pub attached_video: Option<NodeId>,
    pub finalising: bool,
}

/// A media source, over plain values.
pub struct SourceView {
    pub state: MediaSourceState,
    pub source_buffers: Seq<u32>,
    pub attached_video: Option<NodeId>,
    pub finalising: bool,
}

impl View for MediaSourceEntry {
    type V = SourceView;

    open spec fn view(&self) -> SourceView {
        SourceView {
            state: self.state,
            source_buffers: self.source_buffers@,
            attached_video: self.attached_video,
            finalising: self.finalising,
        }
    }
}

/// A source buffer: its type, the bytes appended so far, and the media source it feeds.
pub struct SourceBufferEntry {
    pub mime: String,
    pub bytes: Vec<u8>,
    pub media_source_id: u32,
}

/// A source buffer, over plain values.
pub struct BufferView {
    pub mime: Seq<char>,
    pub bytes: Seq<u8>,
    pub media_source_id: u32,
}

impl View for SourceBufferEntry {
    type V = BufferView;

    open spec fn view(&self) -> BufferView {
        BufferView {
            mime: self.mime@,
            bytes: self.bytes@,
            media_source_id: self.media_source_id,
        }
    }
}

/// All media sources and source buffers. Both are numbered by the sources' counter.
pub struct MediaRegistry {
    pub sources: Registry<MediaSourceEntry>,
    pub buffers: Registry<SourceBufferEntry>,
}

/// All media sources and source buffers, over plain values.
pub ghost struct MediaView {
    pub sources: RegistryView<SourceView>,
    pub buffers: RegistryView<BufferView>,
}

impl View for MediaRegistry {
    type V = MediaView;

    open spec fn view(&self) -> MediaView {
        MediaView {
            sources: registry::views(self.sources@),
            buffers: registry::views(self.buffers@),
        }
    }
}

impl MediaRegistry {
    /// No media sources and no buffers.
    pub fn new() -> (r: Self)
        ensures
            r@.sources.items == Map::<u32, SourceView>::empty(),
            r@.buffers.items == Map::<u32, BufferView>::empty(),
            r@.sources.next == 1,
            r@.buffers.next == 1,
    {
        let r = MediaRegistry { sources: Registry::new(), buffers: Registry::new() };
        proof {
            assert(r@.sources.items =~= Map::empty());
            assert(r@.buffers.items =~= Map::empty());
        }
        r
    }
}

/// A media source as it is made: closed, without buffers, attached to nothing.
pub open spec fn fresh_source() -> SourceView {
    SourceView {
        state: MediaSourceState::Closed,
        source_buffers: Seq::empty(),
        attached_video: None,
        finalising: false,
    }
}

/// Makes a media source.
pub fn media_source_ctor(reg: &mut MediaRegistry) -> (r: u32)
    ensures
        r == old(reg)@.sources.next,
        final(reg)@ == (MediaView {
            sources: old(reg)@.sources.added(fresh_source()),
            buffers: old(reg)@.buffers,
        }),
{
    let entry = MediaSourceEntry {
        state: MediaSourceState::Closed,
        source_buffers: Vec::new(),
        attached_video: None,
        finalising: false,
    };
    proof {
        assert(entry@.source_buffers =~= Seq::empty());
    }
    reg.sources.insert_next(entry)
}

/// The sources with one of them changed, where it is there.
pub open spec fn changed<V>(r: RegistryView<V>, id: u32, f: spec_fn(V) -> V) -> RegistryView<V> {
    match r.found(id) {
        Some(v) => r.with(id, f(v)),
        None => r,
    }
}

/// The source with a buffer more.
pub open spec fn with_buffer(sb: u32) -> spec_fn(SourceView) -> SourceView {
    |s: SourceView| SourceView { source_buffers: s.source_buffers.push(sb), ..s }
}

/// Whether a number is another than the given one.
pub open spec fn other_than(n: u32) -> spec_fn(u32) -> bool {
    |m: u32| m != n
}

/// The source without a buffer.
pub open spec fn without_buffer(sb: u32) -> spec_fn(SourceView) -> SourceView {
    |s: SourceView| SourceView { source_buffers: s.source_buffers.filter(other_than(sb)), ..s }
}

/// Makes a source buffer, and adds it to its media source where there is one.
pub fn ms_add_source_buffer(reg: &mut MediaRegistry, ms_id: u32, mime: String) -> (r: u32)
    ensures
        r == old(reg)@.sources.next,
        final(reg)@.buffers == old(reg)@.buffers.with(
            r,
            (BufferView { mime: mime@, bytes: Seq::empty(), media_source_id: ms_id }),
        ),
        final(reg)@.sources == changed(
            (RegistryView {
                items: old(reg)@.sources.items,
                next: registry::next_after(old(reg)@.sources.next),
            }),
            ms_id,
            with_buffer(r),
        ),
{
    let ghost before = reg@;
    let ghost mv = mime@;
    let sb_id = reg.sources.skip_id();
    let entry = SourceBufferEntry { mime, bytes: Vec::new(), media_source_id: ms_id };
    proof {
        assert(entry@.bytes =~= Seq::empty());
    }
    reg.buffers.put(sb_id, entry);
    match reg.sources.take(ms_id) {
        None => {
            proof {
                assert(reg@.sources.items =~= before.sources.items);
            }
        },
        Some(mut e) => {
            e.source_buffers.push(sb_id);
            reg.sources.put(ms_id, e);
        },
    }
    sb_id
}

fn drop_number(v: &Vec<u32>, n: u32) -> (r: Vec<u32>)
    ensures
        r@ == v@.filter(other_than(n)),
{
    let ghost p = other_than(n);
    let mut out: Vec<u32> = Vec::new();
    let mut i: usize = 0;
    proof {
        reveal(Seq::filter);
        assert(v@.take(0).filter(p) =~= Seq::empty());
    }
    while i < v.len()
        invariant
            i <= v@.len(),
            p == other_than(n),
            out@ == v@.take(i as int).filter(p),
        decreases v@.len() - i,
    {
        proof {
            reveal(Seq::filter);
            assert(v@.take(i + 1).drop_last() =~= v@.take(i as int));
            assert(v@.take(i + 1).last() == v@[i as int]);
        }
        if v[i] != n {
            out.push(v[i]);
        }
        i = i + 1;
    }
    proof {
        assert(v@.take(v@.len() as int) =~= v@);
    }
    out
}

/// Takes a source buffer from its media source, and drops it.
pub fn ms_remove_source_buffer(reg: &mut MediaRegistry, ms_id: u32, sb_id: u32)
    ensures
        final(reg)@.sources == changed(old(reg)@.sources, ms_id, without_buffer(sb_id)),
        final(reg)@.buffers == old(reg)@.buffers.without(sb_id),
{
    let ghost before = reg@;
    match reg.sources.take(ms_id) {
        None => {
            proof {
                assert(reg@.sources.items =~= before.sources.items);
            }
        },
        Some(mut e) => {
            let rest = drop_number(&e.source_buffers, sb_id);
            e.source_buffers = rest;
            reg.sources.put(ms_id, e);
        },
    }
    let _gone = reg.buffers.take(sb_id);
}

/// The bytes of the first buffers of a list, one after the other; a buffer that is not there
/// has none.
pub open spec fn combined(buffers: RegistryView<BufferView>, ids: Seq<u32>) -> Seq<u8>
    decreases ids.len(),
{
    if ids.len() == 0 {
        Seq::empty()
    } else {
        let before = combined(buffers, ids.drop_last());
        match buffers.found(ids.last()) {
            Some(b) => before + b.bytes,
            None => before,
        }
    }
}

/// What a media source hands on once it has ended.
pub struct EndedStream {
    pub known: bool,
    pub bytes: Vec<u8>,
    pub video: Option<NodeId>,
}

/// The source once it has ended.
pub open spec fn ended() -> spec_fn(SourceView) -> SourceView {
    |s: SourceView| SourceView { state: MediaSourceState::Ended, finalising: true, ..s }
}

/// Ends a media source: all that its buffers hold, in the order in which they were added, and
/// the element that it is attached to.
pub fn ms_end_of_stream(reg: &mut MediaRegistry, ms_id: u32) -> (r: EndedStream)
    ensures
        final(reg)@.sources == changed(old(reg)@.sources, ms_id, ended()),
        final(reg)@.buffers == old(reg)@.buffers,
        match old(reg)@.sources.found(ms_id) {
            None => !r.known && r.bytes@.len() == 0 && r.video is None,
            Some(s) => r.known && r.bytes@ == combined(old(reg)@.buffers, s.source_buffers)
                && r.video == s.attached_video,
        },
{
    let ghost before = reg@;
    match reg.sources.take(ms_id) {
        None => {
            proof {
                assert(reg@.sources.items =~= before.sources.items);
            }
            EndedStream { known: false, bytes: Vec::new(), video: None }
        },
        Some(mut e) => {
            e.state = MediaSourceState::Ended;
            e.finalising = true;
            let video = e.attached_video;
            let mut out: Vec<u8> = Vec::new();
            let mut i: usize = 0;
            let ghost ids = e.source_buffers@;
            while i < e.source_buffers.len()
                invariant
                    i <= e.source_buffers@.len(),
                    ids == e.source_buffers@,
                    registry::views(reg.buffers@) == before.buffers,
                    out@ == combined(before.buffers, ids.take(i as int)),
                decreases e.source_buffers@.len() - i,
            {
                proof {
                    assert(ids.take(i + 1).drop_last() =~= ids.take(i as int));
                    assert(ids.take(i + 1).last() == ids[i as int]);
                }
                match reg.buffers.get(e.source_buffers[i]) {
                    Some(b) => {
                        bytes::append_bytes(&mut out, &b.bytes);
                    },
                    None => {},
                }
                i = i + 1;
            }
            proof {
                assert(ids.take(ids.len() as int) =~= ids);
            }
            reg.sources.put(ms_id, e);
            EndedStream { known: true, bytes: out, video }
        },
    }
}

/// The buffers of a media source that are still there.
pub open spec fn live_buffers(reg: MediaView, ids: Seq<u32>) -> Seq<u32>
    decreases ids.len(),
{
    if ids.len() == 0 {
        Seq::empty()
    } else if reg.buffers.items.dom().contains(ids.last()) {
        live_buffers(reg, ids.drop_last()).push(ids.last())
    } else {
        live_buffers(reg, ids.drop_last())
    }
}

/// The source buffers of a media source, in the order in which they were added.
pub fn ms_get_source_buffers(reg: &MediaRegistry, ms_id: u32) -> (r: Vec<u32>)
    ensures
        r@ == match reg@.sources.found(ms_id) {
            Some(s) => live_buffers(reg@, s.source_buffers),
            None => Seq::empty(),
        },
{
    let mut out: Vec<u32> = Vec::new();
    match reg.sources.get(ms_id) {
        None => out,
        Some(e) => {
            let ghost ids = e.source_buffers@;
            let mut i: usize = 0;
            while i < e.source_buffers.len()
                invariant
                    i <= e.source_buffers@.len(),
                    ids == e.source_buffers@,
                    out@ == live_buffers(reg@, ids.take(i as int)),
                decreases e.source_buffers@.len() - i,
            {
                proof {
                    assert(ids.take(i + 1).drop_last() =~= ids.take(i as int));
                    assert(ids.take(i + 1).last() == ids[i as int]);
                    assert(reg@.buffers.items.dom() =~= reg.buffers@.items.dom());
                }
                if reg.buffers.has(e.source_buffers[i]) {
                    out.push(e.source_buffers[i]);
                }
                i = i + 1;
            }
            proof {
                assert(ids.take(ids.len() as int) =~= ids);
            }
            out
        },
    }
}

/// The buffer with bytes appended.
pub open spec fn with_bytes(bytes: Seq<u8>) -> spec_fn(BufferView) -> BufferView {
    |b: BufferView| BufferView { bytes: b.bytes + bytes, ..b }
}

/// Appends a segment to a source buffer, where it is there.
pub fn sb_append_buffer(reg: &mut MediaRegistry, sb_id: u32, segment: &[u8])
    ensures
        final(reg)@.sources == old(reg)@.sources,
        final(reg)@.buffers == changed(old(reg)@.buffers, sb_id, with_bytes(segment@)),
{
    let ghost before = reg@;
    match reg.buffers.take(sb_id) {
        None => {
            proof {
                assert(reg@.buffers.items =~= before.buffers.items);
            }
        },
        Some(mut b) => {
            bytes::append_bytes(&mut b.bytes, segment);
            reg.buffers.put(sb_id, b);
        },
    }
}

/// The buffer with another type.
pub open spec fn with_mime(mime: Seq<char>) -> spec_fn(BufferView) -> BufferView {
    |b: BufferView| BufferView { mime, ..b }
}

/// Changes the type of a source buffer, where it is there.
pub fn sb_change_type(reg: &mut MediaRegistry, sb_id: u32, mime: String)
    ensures
        final(reg)@.sources == old(reg)@.sources,
        final(reg)@.buffers == changed(old(reg)@.buffers, sb_id, with_mime(mime@)),
{
    let ghost before = reg@;
    match reg.buffers.take(sb_id) {
        None => {
            proof {
                assert(reg@.buffers.items =~= before.buffers.items);
            }
        },
        Some(mut b) => {
            b.mime = mime;
            reg.buffers.put(sb_id, b);
        },
    }
}

/// The address of a media source.
pub open spec fn source_url(id: u32) -> Seq<char> {
    "blob:mediasource/"@ + number::decimal(id as nat)
}

/// The address of a media source.
pub fn object_url_for(id: u32) -> (r: String)
    ensures
        r@ == source_url(id),
{
    let mut out = text::to_chars("blob:mediasource/");
    let digits = number::write_decimal(id as u128);
    text::push_chars(&mut out, &digits);
    text::to_text(&out)
}

/// The media source that an address names.
pub open spec fn url_source(url: Seq<char>) -> Option<u32> {
    match text::without_prefix(url, "blob:mediasource/"@) {
        None => None,
        Some(rest) => match number::unsigned_value(rest, 10, u32::MAX as nat) {
            Some(n) => Some(n as u32),
            None => None,
        },
    }
}

/// The number of the media source that an address names.
pub fn named_source(url: &str) -> (r: Option<u32>)
    ensures
        r == url_source(url@),
{
    let cs = text::to_chars(url);
    match text::strip_prefix(&cs, "blob:mediasource/") {
        None => None,
        Some(rest) => match number::read_unsigned(&rest, 10, u32::MAX as u64) {
            None => None,
            Some(n) => Some(n as u32),
        },
    }
}

/// The source opened by an element.
pub open spec fn opened(node: NodeId) -> spec_fn(SourceView) -> SourceView {
    |s: SourceView|
        SourceView { state: MediaSourceState::Open, attached_video: Some(node), ..s }
}

/// Whether an address names a media source that is there.
pub open spec fn names_source(m: MediaView, url: Seq<char>) -> bool {
    url_source(url) matches Some(id) && m.sources.found(id) is Some
}

/// Opens the media source that an address names, where it is there, for an element. Tells whether
/// it is.
pub fn try_attach(reg: &mut MediaRegistry, url: &str, node: NodeId) -> (r: bool)
    ensures
        r == names_source(old(reg)@, url@),
        final(reg)@.buffers == old(reg)@.buffers,
        final(reg)@.sources == (if r {
            changed(old(reg)@.sources, url_source(url@)->0, opened(node))
        } else {
            old(reg)@.sources
        }),
{
    let ghost before = reg@;
    let id: u32 = match named_source(url) {
        None => {
            return false;
        },
        Some(n) => n,
    };
    match reg.sources.take(id) {
        None => {
            proof {
                assert(reg@.sources.items =~= before.sources.items);
            }
            false
        },
        Some(mut e) => {
            e.state = MediaSourceState::Open;
            e.attached_video = Some(node);
            reg.sources.put(id, e);
            true
        },
    }
}

/// How a script sees the state of a media source.
pub open spec fn state_name(s: MediaSourceState) -> Seq<char> {
    match s {
        MediaSourceState::Closed => "closed"@,
        MediaSourceState::Open => "open"@,
        MediaSourceState::Ended => "ended"@,
    }
}

/// How a script sees the state of a media source.
pub fn ready_state(s: MediaSourceState) -> (r: String)
    ensures
        r@ == state_name(s),
{
    match s {
        MediaSourceState::Closed => text::copy("closed"),
        MediaSourceState::Open => text::copy("open"),
        MediaSourceState::Ended => text::copy("ended"),
    }
}

/// The event that is fired at a media source that comes into a state: none where it is closed,
/// which it only is before it was opened.
pub fn state_event(s: MediaSourceState) -> (r: Option<String>)
    ensures
        match s {
            MediaSourceState::Closed => r is None,
            MediaSourceState::Open => r matches Some(e) && e@ == "sourceopen"@,
            MediaSourceState::Ended => r matches Some(e) && e@ == "sourceended"@,
        },
{
    match s {
        MediaSourceState::Closed => None,
        MediaSourceState::Open => Some(text::copy("sourceopen")),
        MediaSourceState::Ended => Some(text::copy("sourceended")),
    }
}

/// The events that are fired at a buffer when a segment was appended to it, in order.
pub fn append_events() -> (r: (String, String))
    ensures
        r.0@ == "update"@,
        r.1@ == "updateend"@,
{
    (text::copy("update"), text::copy("updateend"))
}

/// The address of a media source names that media source.
pub proof fn source_url_names_source(id: u32)
    ensures
        url_source(source_url(id)) == Some(id),
{
    let p = "blob:mediasource/"@;
    let d = number::decimal(id as nat);
    assert(source_url(id).take(p.len() as int) =~= p);
    assert(source_url(id).skip(p.len() as int) =~= d);
    number::number_text_round_trip(id as nat, 10, u32::MAX as nat);
}

/// What is appended to a buffer of a media source is part of what the source hands on: for a
/// source with one buffer, the segments one after the other.
pub proof fn appended_bytes_are_handed_on(reg: MediaView, sb: u32, b: BufferView, more: Seq<u8>)
    requires
        reg.buffers.found(sb) == Some(b),
    ensures
        combined(changed(reg.buffers, sb, with_bytes(more)), seq![sb]) == b.bytes + more,
{
    let after = changed(reg.buffers, sb, with_bytes(more));
    assert(seq![sb].drop_last() =~= Seq::empty());
    assert(combined(after, seq![sb].drop_last()) =~= Seq::empty());
    assert(combined(after, seq![sb]) =~= b.bytes + more);
}

/// What a source hands on is the bytes of its first buffers and then those of the others; a buffer that
/// is gone has none.
pub proof fn buffers_are_handed_on_in_order(
    buffers: RegistryView<BufferView>,
    a: Seq<u32>,
    b: Seq<u32>,
    id: u32,
)
    ensures
        combined(buffers, a + b) == combined(buffers, a) + combined(buffers, b),
        buffers.found(id) matches Some(x) ==> combined(buffers, seq![id]) == x.bytes,
        buffers.found(id) is None ==> combined(buffers, seq![id]).len() == 0,
    decreases b.len(),
{
    reveal_with_fuel(combined, 2);
    assert(seq![id].drop_last() =~= Seq::<u32>::empty());
    if buffers.found(id) is Some {
        assert(combined(buffers, seq![id]) =~= buffers.found(id)->0.bytes);
    }
    if b.len() == 0 {
        assert(a + b =~= a);
        assert(combined(buffers, a) + combined(buffers, b) =~= combined(buffers, a));
    } else {
        buffers_are_handed_on_in_order(buffers, a, b.drop_last(), id);
        assert((a + b).drop_last() =~= a + b.drop_last());
        assert((a + b).last() == b.last());
        assert(combined(buffers, a + b) =~= combined(buffers, a) + combined(buffers, b));
    }
}

/// The buffers of a source that count are those that are still there, in order.
pub proof fn kept_buffers_count(reg: MediaView, a: Seq<u32>, b: Seq<u32>, id: u32)
    ensures
        live_buffers(reg, a + b) == live_buffers(reg, a) + live_buffers(reg, b),
        live_buffers(reg, seq![id]) == (if reg.buffers.found(id) is Some {
            seq![id]
        } else {
            Seq::empty()
        }),
    decreases b.len(),
{
    reveal_with_fuel(live_buffers, 2);
    assert(seq![id].drop_last() =~= Seq::<u32>::empty());
    assert(live_buffers(reg, seq![id]) =~= if reg.buffers.found(id) is Some {
        seq![id]
    } else {
        Seq::empty()
    });
    if b.len() == 0 {
        assert(a + b =~= a);
        assert(live_buffers(reg, a) + live_buffers(reg, b) =~= live_buffers(reg, a));
    } else {
        kept_buffers_count(reg, a, b.drop_last(), id);
        assert((a + b).drop_last() =~= a + b.drop_last());
        assert((a + b).last() == b.last());
        assert(live_buffers(reg, a + b) =~= live_buffers(reg, a) + live_buffers(reg, b));
    }
}

/// Opening, ending, adding and removing change just that of one source: an opened one belongs to its
/// element, an ended one keeps its buffers, an added buffer comes last, and a removed one is gone
/// while the others stay.
pub proof fn sources_change_alone(
    r: RegistryView<SourceView>,
    id: u32,
    s: SourceView,
    sb: u32,
    x: u32,
    node: NodeId,
    other: u32,
)
    requires
        r.found(id) == Some(s),
        other != id,
    ensures
        changed(r, id, opened(node)).found(id) matches Some(u) && u.state == MediaSourceState::Open
            && u.attached_video == Some(node) && u.source_buffers == s.source_buffers,
        changed(r, id, ended()).found(id) matches Some(u) && u.state == MediaSourceState::Ended
            && u.finalising && u.source_buffers == s.source_buffers && u.attached_video
            == s.attached_video,
        changed(r, id, with_buffer(sb)).found(id) matches Some(u) && u.source_buffers
            == s.source_buffers.push(sb) && u.state == s.state,
        changed(r, id, without_buffer(sb)).found(id) matches Some(u) && u.state == s.state && (
        u.source_buffers.contains(x) <==> s.source_buffers.contains(x) && x != sb),
        changed(r, id, opened(node)).found(other) == r.found(other),
        changed(r, id, ended()).found(other) == r.found(other),
        changed(r, id, with_buffer(sb)).found(other) == r.found(other),
        changed(r, id, without_buffer(sb)).found(other) == r.found(other),
        r.found(other) is None ==> changed(r, other, ended()) == r,
        fresh_source().state == MediaSourceState::Closed && fresh_source().source_buffers.len() == 0
            && fresh_source().attached_video is None && !fresh_source().finalising,
{
    let v = s.source_buffers;
    let p = other_than(sb);
    if v.filter(p).contains(x) {
        v.lemma_filter_pred(p, v.filter(p).index_of(x));
        v.lemma_filter_contains_rev(p, x);
    }
    if v.contains(x) && x != sb {
        v.lemma_filter_contains(p, v.index_of(x));
    }
}

/// Appending and renaming change just that of one buffer: bytes come behind those that are there, and a
/// new type leaves them.
pub proof fn buffers_change_alone(
    r: RegistryView<BufferView>,
    id: u32,
    b: BufferView,
    more: Seq<u8>,
    mime: Seq<char>,
    other: u32,
)
    requires
        r.found(id) == Some(b),
        other != id,
    ensures
        changed(r, id, with_bytes(more)).found(id) matches Some(u) && u.bytes == b.bytes + more
            && u.mime == b.mime && u.media_source_id == b.media_source_id,
        changed(r, id, with_mime(mime)).found(id) matches Some(u) && u.bytes == b.bytes && u.mime
            == mime && u.media_source_id == b.media_source_id,
        changed(r, id, with_bytes(more)).found(other) == r.found(other),
        changed(r, id, with_mime(mime)).found(other) == r.found(other),
{
}

/// An address names a media source where it is the address of one that is there; addresses of another
/// kind name none, and the states have names of their own.
pub proof fn source_addresses_name_kept_sources(m: MediaView, url: Seq<char>, id: u32)
    ensures
        names_source(m, source_url(id)) <==> m.sources.found(id) is Some,
        !text::begins(url, "blob:mediasource/"@) ==> !names_source(m, url),
        state_name(MediaSourceState::Closed) == "closed"@,
        state_name(MediaSourceState::Open) == "open"@,
        state_name(MediaSourceState::Ended) == "ended"@,
{
    source_url_names_source(id);
    text::beginnings_and_ends(url, "blob:mediasource/"@, url);
}

} // verus!
