//! What a page records, and the streams and tracks that it sees of it.
use crate::number;
use crate::text;
use crate::tree::NodeId;
use std::collections::HashMap;
use vstd::prelude::*;

verus! {

broadcast use vstd::std_specs::hash::group_hash_axioms;

/// Which devices a page wants: what it says of the camera and the microphone, or the camera alone
/// where it says nothing at all.
pub fn wanted_devices(constraints: Option<(bool, bool)>) -> (r: (bool, bool))
    ensures
        r == match constraints {
            Some(c) => c,
            None => (true, false),
        },
{
    match constraints {
        Some(c) => c,
        None => (true, false),
    }
}

/// What a page is told when nothing can be recorded.
pub open spec fn refusal() -> Seq<char> {
    "NotAllowedError: getUserMedia hardware unavailable"@
}

/// Keeps what was opened to be recorded, and gives its place; a page is refused where nothing was
/// opened or nothing can be kept.
pub fn get_user_media<C>(streams: &mut Option<Vec<Option<C>>>, opened: Option<C>) -> (r: Result<
    usize,
    String,
>)
    ensures
        match (*old(streams), opened) {
            (Some(v), Some(c)) => r == Ok::<usize, String>(v@.len() as usize) && (
            *final(streams) matches Some(w) && w@ == v@.push(Some(c))),
            _ => *final(streams) == *old(streams) && (r matches Err(e) && e@ == refusal()),
        },
{
    match opened {
        Some(c) => {
            match streams.take() {
                Some(v) => {
                    let mut w = v;
                    let at: usize = w.len();
                    w.push(Some(c));
                    *streams = Some(w);
                    Ok(at)
                },
                None => Err(text::copy("NotAllowedError: getUserMedia hardware unavailable")),
            }
        },
        None => Err(text::copy("NotAllowedError: getUserMedia hardware unavailable")),
    }
}

/// A recorded stream as a page sees it.
pub struct MediaStreamInfo {
    pub id: String,
    pub capture: Option<u32>,
}

/// The name of a stream that was made at a time.
pub open spec fn stream_id(stamp: u128) -> Seq<char> {
    "stream-"@ + number::decimal(stamp as nat)
}

/// Makes a stream of what is recorded at a place.
pub fn make_media_stream(stamp: u128, capture: Option<u32>) -> (r: MediaStreamInfo)
    ensures
        r.id@ == stream_id(stamp),
        r.capture == capture,
{
    let mut out = text::to_chars("stream-");
    let digits = number::write_decimal(stamp);
    text::push_chars(&mut out, &digits);
    MediaStreamInfo { id: text::to_text(&out), capture }
}

/// A track of a stream as a page sees it.
pub struct Track {
    pub kind: String,
    pub id: String,
    pub label: String,
    pub enabled: bool,
    pub muted: bool,
    pub ready_state: String,
    pub capture: Option<u32>,
}

/// A track over plain values.
#[verifier::ext_equal]
pub ghost struct TrackView {
    pub kind: Seq<char>,
    pub id: Seq<char>,
    pub label: Seq<char>,
    pub enabled: bool,
    pub muted: bool,
    pub ready_state: Seq<char>,
    pub capture: Option<u32>,
}

impl View for Track {
    type V = TrackView;

    open spec fn view(&self) -> TrackView {
        TrackView {
            kind: self.kind@,
            id: self.id@,
            label: self.label@,
            enabled: self.enabled,
            muted: self.muted,
            ready_state: self.ready_state@,
            capture: self.capture,
        }
    }
}

/// A live track of a kind that was made at a time.
pub open spec fn live_track(kind: Seq<char>, stamp: u128, capture: Option<u32>) -> TrackView {
    TrackView {
        kind,
        id: kind + "-track-"@ + number::decimal(stamp as nat),
        label: "daboss "@ + kind,
        enabled: true,
        muted: false,
        ready_state: "live"@,
        capture,
    }
}

/// Makes a live track.
pub fn make_track(kind: &str, stamp: u128, capture: Option<u32>) -> (r: Track)
    ensures
        r@ == live_track(kind@, stamp, capture),
{
    let mut id = text::to_chars(kind);
    text::push_text(&mut id, "-track-");
    let digits = number::write_decimal(stamp);
    text::push_chars(&mut id, &digits);
    let mut label = text::to_chars("daboss ");
    text::push_text(&mut label, kind);
    Track {
        kind: text::copy(kind),
        id: text::to_text(&id),
        label: text::to_text(&label),
        enabled: true,
        muted: false,
        ready_state: text::copy("live"),
        capture,
    }
}

/// Tracks over plain values.
pub open spec fn tracks_view(v: Seq<Track>) -> Seq<TrackView> {
    v.map_values(|t: Track| t@)
}

/// Both tracks of a stream, the picture first.
pub fn stream_get_tracks(capture: Option<u32>, video: u128, audio: u128) -> (r: Vec<Track>)
    ensures
        tracks_view(r@) == seq![
            live_track("video"@, video, capture),
            live_track("audio"@, audio, capture),
        ],
{
    let mut out: Vec<Track> = Vec::new();
    out.push(make_track("video", video, capture));
    out.push(make_track("audio", audio, capture));
    proof {
        assert(tracks_view(out@) =~= seq![
            live_track("video"@, video, capture),
            live_track("audio"@, audio, capture),
        ]);
    }
    out
}

/// The tracks of one kind, of which a stream that nothing is recorded for has none.
pub open spec fn tracks_of_kind(kind: Seq<char>, stamp: u128, capture: Option<u32>) -> Seq<
    TrackView,
> {
    match capture {
        Some(_) => seq![live_track(kind, stamp, capture)],
        None => seq![],
    }
}

fn one_kind(kind: &str, stamp: u128, capture: Option<u32>) -> (r: Vec<Track>)
    ensures
        tracks_view(r@) == tracks_of_kind(kind@, stamp, capture),
{
    let mut out: Vec<Track> = Vec::new();
    if capture.is_some() {
        out.push(make_track(kind, stamp, capture));
    }
    proof {
        assert(tracks_view(out@) =~= tracks_of_kind(kind@, stamp, capture));
    }
    out
}

/// The picture of a stream.
pub fn stream_get_video_tracks(capture: Option<u32>, stamp: u128) -> (r: Vec<Track>)
    ensures
        tracks_view(r@) == tracks_of_kind("video"@, stamp, capture),
{
    one_kind("video", stamp, capture)
}

/// The sound of a stream.
pub fn stream_get_audio_tracks(capture: Option<u32>, stamp: u128) -> (r: Vec<Track>)
    ensures
        tracks_view(r@) == tracks_of_kind("audio"@, stamp, capture),
{
    one_kind("audio", stamp, capture)
}

/// Ends a track. What is recorded goes on, since other tracks may share it.
pub fn track_stop(t: &mut Track)
    ensures
        final(t)@ == (TrackView { ready_state: "ended"@, ..old(t)@ }),
        final(t)@.capture == old(t)@.capture,
{
    t.ready_state = text::copy("ended");
}

/// What a page sets as the stream of an element.
#[derive(Clone, Copy, PartialEq, Eq, Structural, Debug)]
pub enum SourceObject {
    /// No stream.
    Nothing,
    /// A stream that is recorded at a place.
    Capture(u32),
    /// Something else.
    Other,
}

/// Which recorded stream each element shows.
pub struct CaptureBindings {
    places: HashMap<u32, usize>,
}

impl View for CaptureBindings {
    type V = Map<u32, usize>;

    closed spec fn view(&self) -> Map<u32, usize> {
        self.places@
    }
}

impl CaptureBindings {
    /// No element shows a stream.
    pub fn new() -> (r: CaptureBindings)
        ensures
            r@ == Map::<u32, usize>::empty(),
    {
        let r = CaptureBindings { places: HashMap::new() };
        proof {
            assert(r@ =~= Map::empty());
        }
        r
    }

    /// Sets the stream of an element. What is neither a stream nor nothing leaves it as it is.
    pub fn element_set_src_object(&mut self, id: NodeId, source: SourceObject)
        ensures
            final(self)@ == match source {
                SourceObject::Nothing => old(self)@.remove(id.raw),
                SourceObject::Capture(at) => old(self)@.insert(id.raw, at as usize),
                SourceObject::Other => old(self)@,
            },
    {
        let ghost before = self@;
        match source {
            SourceObject::Nothing => {
                let _ = self.places.remove(&id.raw);
                proof {
                    assert(self@ =~= before.remove(id.raw));
                }
            },
            SourceObject::Capture(at) => {
                self.places.insert(id.raw, at as usize);
            },
            SourceObject::Other => {},
        }
    }

    /// The place of the stream that an element shows.
    pub fn element_get_src_object(&self, id: NodeId) -> (r: Option<usize>)
        ensures
            r == if self@.dom().contains(id.raw) {
                Some(self@[id.raw])
            } else {
                None
            },
    {
        match self.places.get(&id.raw) {
            Some(at) => Some(*at),
            None => None,
        }
    }
}

/// A stream has a track of a kind just where something is recorded for it: one that is live, switched
/// on, not muted, of the kind, and recorded there. Tracks of different kinds have different names, and
/// so have streams of different times.
pub proof fn tracks_show_what_is_recorded(
    kind: Seq<char>,
    stamp: u128,
    capture: u32,
    other: u128,
)
    ensures
        tracks_of_kind(kind, stamp, None).len() == 0,
        tracks_of_kind(kind, stamp, Some(capture)).len() == 1,
        ({
            let t = tracks_of_kind(kind, stamp, Some(capture))[0];
            t.kind == kind && t.capture == Some(capture) && t.enabled && !t.muted && t.ready_state
                == "live"@ && text::begins(t.id, kind) && text::ends(t.label, kind)
        }),
        stamp != other ==> stream_id(stamp) != stream_id(other),
        stamp != other ==> live_track(kind, stamp, None).id != live_track(kind, other, None).id,
{
    let x = number::decimal(stamp as nat);
    let y = number::decimal(other as nat);
    text::beginnings_and_ends(
        kind + "-track-"@ + x,
        kind,
        "-track-"@ + x,
    );
    assert(kind + "-track-"@ + x =~= kind + ("-track-"@ + x));
    text::beginnings_and_ends("daboss "@ + kind, kind, "daboss "@);
    number::number_text_round_trip(stamp as nat, 10, u128::MAX as nat);
    number::number_text_round_trip(other as nat, 10, u128::MAX as nat);
    if stamp != other {
        let p = "stream-"@;
        let q = kind + "-track-"@;
        assert((p + x).skip(p.len() as int) =~= x);
        assert((p + y).skip(p.len() as int) =~= y);
        assert((q + x).skip(q.len() as int) =~= x);
        assert((q + y).skip(q.len() as int) =~= y);
    }
}

} // verus!
