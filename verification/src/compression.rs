//! Compression and decompression streams: bytes go in on one side and come out on the other,
//! by the codecs of the `flate2` crate.
use crate::registry;
use crate::registry::{Registry, RegistryView};
use crate::text;
use flate2::write::{DeflateDecoder, DeflateEncoder, GzDecoder, GzEncoder, ZlibDecoder, ZlibEncoder};
use flate2::Compression;
use std::io::Write;
use vstd::prelude::*;
use vstd::string::*;

verus! {

/// A format of compressed bytes.
#[derive(Clone, Copy, PartialEq, Eq, Structural, Debug)]
pub enum Algo {
    Gzip,
    Deflate,
    DeflateRaw,
}

/// A codec of `flate2` that collects what it puts out in a `Vec<u8>`: one of these.
#[verifier::external_body]
pub struct Codec {
    gz_encode: Option<GzEncoder<Vec<u8>>>,
    zlib_encode: Option<ZlibEncoder<Vec<u8>>>,
    raw_encode: Option<DeflateEncoder<Vec<u8>>>,
    gz_decode: Option<GzDecoder<Vec<u8>>>,
    zlib_decode: Option<ZlibDecoder<Vec<u8>>>,
    raw_decode: Option<DeflateDecoder<Vec<u8>>>,
}

/// The format of a codec, and whether it decodes.
pub uninterp spec fn codec_kind(c: Codec) -> (Algo, bool);

/// What a codec was given, piece by piece.
pub uninterp spec fn codec_given(c: Codec) -> Seq<Seq<u8>>;

/// What a codec has put out and nobody has taken yet.
pub uninterp spec fn codec_collected(c: Codec) -> Seq<u8>;

/// What writing and flushing a piece puts out of a codec of a kind that was given pieces.
pub uninterp spec fn written(kind: (Algo, bool), given: Seq<Seq<u8>>, piece: Seq<u8>) -> Seq<u8>;

/// What finishing puts out of a codec of a kind that was given pieces.
pub uninterp spec fn finished(kind: (Algo, bool), given: Seq<Seq<u8>>) -> Seq<u8>;

/// `GzEncoder::new` of `flate2` makes an encoder for gzip that was given nothing.
#[verifier::external_body]
fn gz_encoder() -> (r: Codec)
    ensures
        codec_kind(r) == (Algo::Gzip, false),
        codec_given(r) == Seq::<Seq<u8>>::empty(),
        codec_collected(r) == Seq::<u8>::empty(),
{
    Codec {
        gz_encode: Some(GzEncoder::new(Vec::new(), Compression::default())),
        zlib_encode: None,
        raw_encode: None,
        gz_decode: None,
        zlib_decode: None,
        raw_decode: None,
    }
}

/// `ZlibEncoder::new` of `flate2` makes an encoder for deflate in its wrapping that was given
/// nothing.
#[verifier::external_body]
fn zlib_encoder() -> (r: Codec)
    ensures
        codec_kind(r) == (Algo::Deflate, false),
        codec_given(r) == Seq::<Seq<u8>>::empty(),
        codec_collected(r) == Seq::<u8>::empty(),
{
    Codec {
        gz_encode: None,
        zlib_encode: Some(ZlibEncoder::new(Vec::new(), Compression::default())),
        raw_encode: None,
        gz_decode: None,
        zlib_decode: None,
        raw_decode: None,
    }
}

/// `DeflateEncoder::new` of `flate2` makes an encoder for bare deflate that was given nothing.
#[verifier::external_body]
fn raw_encoder() -> (r: Codec)
    ensures
        codec_kind(r) == (Algo::DeflateRaw, false),
        codec_given(r) == Seq::<Seq<u8>>::empty(),
        codec_collected(r) == Seq::<u8>::empty(),
{
    Codec {
        gz_encode: None,
        zlib_encode: None,
        raw_encode: Some(DeflateEncoder::new(Vec::new(), Compression::default())),
        gz_decode: None,
        zlib_decode: None,
        raw_decode: None,
    }
}

/// `GzDecoder::new` of `flate2` makes a decoder for gzip that was given nothing.
#[verifier::external_body]
fn gz_decoder() -> (r: Codec)
    ensures
        codec_kind(r) == (Algo::Gzip, true),
        codec_given(r) == Seq::<Seq<u8>>::empty(),
        codec_collected(r) == Seq::<u8>::empty(),
{
    Codec {
        gz_encode: None,
        zlib_encode: None,
        raw_encode: None,
        gz_decode: Some(GzDecoder::new(Vec::new())),
        zlib_decode: None,
        raw_decode: None,
    }
}

/// `ZlibDecoder::new` of `flate2` makes a decoder for deflate in its wrapping that was given
/// nothing.
#[verifier::external_body]
fn zlib_decoder() -> (r: Codec)
    ensures
        codec_kind(r) == (Algo::Deflate, true),
        codec_given(r) == Seq::<Seq<u8>>::empty(),
        codec_collected(r) == Seq::<u8>::empty(),
{
    Codec {
        gz_encode: None,
        zlib_encode: None,
        raw_encode: None,
        gz_decode: None,
        zlib_decode: Some(ZlibDecoder::new(Vec::new())),
        raw_decode: None,
    }
}

/// `DeflateDecoder::new` of `flate2` makes a decoder for bare deflate that was given nothing.
#[verifier::external_body]
fn raw_decoder() -> (r: Codec)
    ensures
        codec_kind(r) == (Algo::DeflateRaw, true),
        codec_given(r) == Seq::<Seq<u8>>::empty(),
        codec_collected(r) == Seq::<u8>::empty(),
{
    Codec {
        gz_encode: None,
        zlib_encode: None,
        raw_encode: None,
        gz_decode: None,
        zlib_decode: None,
        raw_decode: Some(DeflateDecoder::new(Vec::new())),
    }
}

/// `write_all` and `flush` of the writers of `flate2` give the codec a piece: what it puts out
/// is added to what it has collected, and depends on its kind and on all it was given. A codec
/// that refuses a piece has been given it all the same.
#[verifier::external_body]
fn write_piece(c: &mut Codec, piece: &[u8])
    ensures
        codec_kind(*final(c)) == codec_kind(*old(c)),
        codec_given(*final(c)) == codec_given(*old(c)).push(piece@),
        codec_collected(*final(c)) == codec_collected(*old(c)) + written(
            codec_kind(*old(c)),
            codec_given(*old(c)),
            piece@,
        ),
{
    let w: &mut dyn Write = match c {
        Codec { gz_encode: Some(w), .. } => w,
        Codec { zlib_encode: Some(w), .. } => w,
        Codec { raw_encode: Some(w), .. } => w,
        Codec { gz_decode: Some(w), .. } => w,
        Codec { zlib_decode: Some(w), .. } => w,
        Codec { raw_decode: Some(w), .. } => w,
        _ => return,
    };
    let _ = w.write_all(piece);
    let _ = w.flush();
}

/// `get_mut` of the writers of `flate2` reaches the `Vec` that a codec collects in, from which
/// everything is taken.
#[verifier::external_body]
fn take_collected(c: &mut Codec) -> (r: Vec<u8>)
    ensures
        codec_kind(*final(c)) == codec_kind(*old(c)),
        codec_given(*final(c)) == codec_given(*old(c)),
        codec_collected(*final(c)) == Seq::<u8>::empty(),
        r@ == codec_collected(*old(c)),
{
    let v = match c {
        Codec { gz_encode: Some(w), .. } => w.get_mut(),
        Codec { zlib_encode: Some(w), .. } => w.get_mut(),
        Codec { raw_encode: Some(w), .. } => w.get_mut(),
        Codec { gz_decode: Some(w), .. } => w.get_mut(),
        Codec { zlib_decode: Some(w), .. } => w.get_mut(),
        Codec { raw_decode: Some(w), .. } => w.get_mut(),
        _ => return Vec::new(),
    };
    core::mem::take(v)
}

/// All pieces, one after the other.
pub open spec fn flat(pieces: Seq<Seq<u8>>) -> Seq<u8>
    decreases pieces.len(),
{
    if pieces.len() == 0 {
        Seq::empty()
    } else {
        flat(pieces.drop_last()) + pieces.last()
    }
}

/// What writing pieces puts out of a codec of a kind.
pub open spec fn written_all(kind: (Algo, bool), pieces: Seq<Seq<u8>>) -> Seq<u8>
    decreases pieces.len(),
{
    if pieces.len() == 0 {
        Seq::empty()
    } else {
        written_all(kind, pieces.drop_last()) + written(kind, pieces.drop_last(), pieces.last())
    }
}

/// All that a codec of a kind puts out for pieces, up to its end.
pub open spec fn stream_of(kind: (Algo, bool), pieces: Seq<Seq<u8>>) -> Seq<u8> {
    written_all(kind, pieces) + finished(kind, pieces)
}

/// `finish` of the writers of `flate2` ends a codec; of one that has collected nothing, it gives
/// what its end puts out, which is nothing where the end is refused. A decoder that was given, in any
/// pieces, all that an encoder of its format put out for some bytes has put out these bytes.
#[verifier::external_body]
fn finish(c: Codec) -> (r: Vec<u8>)
    ensures
        codec_collected(c).len() == 0 ==> r@ == finished(codec_kind(c), codec_given(c)),
        forall|source: Seq<Seq<u8>>|
            #![trigger stream_of((codec_kind(c).0, false), source)]
            codec_kind(c).1 && codec_collected(c).len() == 0 && flat(codec_given(c)) == stream_of(
                (codec_kind(c).0, false),
                source,
            ) ==> written_all(codec_kind(c), codec_given(c)) + r@ == flat(source),
{
    match c {
        Codec { gz_encode: Some(w), .. } => w.finish().unwrap_or_default(),
        Codec { zlib_encode: Some(w), .. } => w.finish().unwrap_or_default(),
        Codec { raw_encode: Some(w), .. } => w.finish().unwrap_or_default(),
        Codec { gz_decode: Some(w), .. } => w.finish().unwrap_or_default(),
        Codec { zlib_decode: Some(w), .. } => w.finish().unwrap_or_default(),
        Codec { raw_decode: Some(w), .. } => w.finish().unwrap_or_default(),
        _ => Vec::new(),
    }
}

/// The format with a name.
pub open spec fn algo_of(s: Seq<char>) -> Option<Algo> {
    if s == "gzip"@ {
        Some(Algo::Gzip)
    } else if s == "deflate"@ {
        Some(Algo::Deflate)
    } else if s == "deflate-raw"@ {
        Some(Algo::DeflateRaw)
    } else {
        None
    }
}

/// The format with a name.
pub fn parse_algo(s: &str) -> (r: Option<Algo>)
    ensures
        r == algo_of(s@),
{
    if text::same(s, "gzip") {
        Some(Algo::Gzip)
    } else if text::same(s, "deflate") {
        Some(Algo::Deflate)
    } else if text::same(s, "deflate-raw") {
        Some(Algo::DeflateRaw)
    } else {
        None
    }
}

/// A stream: its codec until it is finished, whether it is closed, what waits to be read and
/// who waits to read.
pub struct StreamState<R> {
    pub codec: Option<Codec>,
    pub closed: bool,
    pub output_queue: Vec<Vec<u8>>,
    pub readers: Vec<R>,
}

/// A codec by its kind and what it was given.
pub ghost struct CodecView {
    pub kind: (Algo, bool),
    pub given: Seq<Seq<u8>>,
    pub collected: Seq<u8>,
}

/// A stream over plain values.
pub ghost struct StreamView<R> {
    pub codec: Option<CodecView>,
    pub closed: bool,
    pub queue: Seq<Seq<u8>>,
    pub readers: Seq<R>,
}

/// The plain values of pieces.
pub open spec fn pieces_of(v: Seq<Vec<u8>>) -> Seq<Seq<u8>> {
    v.map_values(|p: Vec<u8>| p@)
}

/// The view of a codec.
pub open spec fn codec_view(c: Option<Codec>) -> Option<CodecView> {
    match c {
        Some(c) => Some(
            CodecView {
                kind: codec_kind(c),
                given: codec_given(c),
                collected: codec_collected(c),
            },
        ),
        None => None,
    }
}

impl<R> View for StreamState<R> {
    type V = StreamView<R>;

    open spec fn view(&self) -> StreamView<R> {
        StreamView {
            codec: codec_view(self.codec),
            closed: self.closed,
            queue: pieces_of(self.output_queue@),
            readers: self.readers@,
        }
    }
}

impl<R> StreamView<R> {
    /// What a codec puts out is taken from it at once.
    pub open spec fn wf(self) -> bool {
        self.codec matches Some(c) ==> c.collected.len() == 0
    }

    /// A stream with another piece to read, unless that is empty.
    pub open spec fn queued(self, piece: Seq<u8>) -> StreamView<R> {
        if piece.len() == 0 {
            self
        } else {
            StreamView { queue: self.queue.push(piece), ..self }
        }
    }

    /// A new stream.
    pub open spec fn fresh(kind: (Algo, bool)) -> StreamView<R> {
        StreamView {
            codec: Some(CodecView { kind, given: Seq::empty(), collected: Seq::empty() }),
            closed: false,
            queue: Seq::empty(),
            readers: Seq::empty(),
        }
    }

    /// A stream once a piece was written to it: nothing changes where it is closed or finished.
    pub open spec fn fed(self, piece: Seq<u8>) -> StreamView<R> {
        match self.codec {
            Some(c) => if self.closed {
                self
            } else {
                StreamView {
                    codec: Some(CodecView { given: c.given.push(piece), ..c }),
                    ..self
                }.queued(written(c.kind, c.given, piece))
            },
            None => self,
        }
    }

    /// A stream once its codec was finished, with what that put out.
    pub open spec fn ended(self) -> StreamView<R> {
        match self.codec {
            Some(c) => StreamView { codec: None, closed: true, ..self }.queued(
                finished(c.kind, c.given),
            ),
            None => StreamView { closed: true, ..self },
        }
    }
}

fn new_codec(algo: Algo, decode: bool) -> (r: Codec)
    ensures
        codec_kind(r) == (algo, decode),
        codec_given(r) == Seq::<Seq<u8>>::empty(),
        codec_collected(r) == Seq::<u8>::empty(),
{
    match algo {
        Algo::Gzip => if decode {
            gz_decoder()
        } else {
            gz_encoder()
        },
        Algo::Deflate => if decode {
            zlib_decoder()
        } else {
            zlib_encoder()
        },
        Algo::DeflateRaw => if decode {
            raw_decoder()
        } else {
            raw_encoder()
        },
    }
}

impl<R> StreamState<R> {
    /// A new stream.
    pub fn new(algo: Algo, decode: bool) -> (r: Self)
        ensures
            r@ == StreamView::<R>::fresh((algo, decode)),
            r@.wf(),
    {
        let r = StreamState {
            codec: Some(new_codec(algo, decode)),
            closed: false,
            output_queue: Vec::new(),
            readers: Vec::new(),
        };
        proof {
            assert(r@.queue =~= Seq::empty());
            assert(r@.readers =~= Seq::empty());
        }
        r
    }

    fn queue_piece(&mut self, piece: Vec<u8>)
        ensures
            final(self)@ == old(self)@.queued(piece@),
    {
        let ghost before = self.output_queue@;
        let ghost p = piece@;
        if piece.len() > 0 {
            self.output_queue.push(piece);
            proof {
                assert(pieces_of(self.output_queue@) =~= pieces_of(before).push(p));
            }
        }
    }

    /// Writes a piece to the stream.
    pub fn feed_codec(&mut self, piece: &Vec<u8>)
        requires
            old(self)@.wf(),
        ensures
            final(self)@ == old(self)@.fed(piece@),
            final(self)@.wf(),
    {
        if self.closed {
            return ;
        }
        let ghost before = self@;
        match &mut self.codec {
            Some(c) => {
                write_piece(c, piece);
                let out = take_collected(c);
                proof {
                    assert(out@ =~= written(before.codec->0.kind, before.codec->0.given, piece@));
                    assert(self@.codec->0.collected =~= before.codec->0.collected);
                }
                self.queue_piece(out);
            },
            None => {},
        }
    }

    /// Finishes the codec of the stream and closes it. A decoder that was given all that an
    /// encoder of its format put out for some bytes has then put out these bytes.
    pub fn finish_codec(&mut self)
        requires
            old(self)@.wf(),
        ensures
            final(self)@ == old(self)@.ended(),
            final(self)@.wf(),
            old(self)@.codec matches Some(c) ==> forall|source: Seq<Seq<u8>>|
                #![trigger stream_of((c.kind.0, false), source)]
                c.kind.1 && flat(c.given) == stream_of((c.kind.0, false), source) ==> stream_of(
                    c.kind,
                    c.given,
                ) == flat(source),
    {
        let mut codec: Option<Codec> = None;
        core::mem::swap(&mut codec, &mut self.codec);
        self.closed = true;
        match codec {
            Some(c) => {
                let out = finish(c);
                self.queue_piece(out);
            },
            None => {},
        }
    }

    /// Drops what waits to be read, and closes the stream.
    pub fn reader_cancel(&mut self)
        ensures
            final(self)@ == (StreamView {
                closed: true,
                queue: Seq::empty(),
                ..old(self)@
            }),
            drained(final(self)@).readers.len() == 0,
            forall|i: int|
                0 <= i < deliveries(final(self)@).len() ==> (#[trigger] deliveries(
                    final(self)@,
                )[i]).1 is None,
    {
        self.closed = true;
        self.output_queue.clear();
        proof {
            assert(self@.queue =~= Seq::empty());
        }
    }

    fn next_piece(&mut self) -> (r: Option<Vec<u8>>)
        ensures
            old(self)@.queue.len() == 0 ==> r is None && final(self)@ == old(self)@,
            old(self)@.queue.len() > 0 ==> (r matches Some(p) && p@ == old(self)@.queue[0])
                && final(self)@ == (StreamView { queue: old(self)@.queue.skip(1), ..old(self)@ }),
    {
        if self.output_queue.len() == 0 {
            return None;
        }
        let ghost before = self.output_queue@;
        let p = self.output_queue.remove(0);
        proof {
            assert(pieces_of(self.output_queue@) =~= pieces_of(before).skip(1));
        }
        Some(p)
    }
}

/// What a read comes to.
pub enum ReadStep {
    Chunk(Vec<u8>),
    Done,
    Wait,
}

impl<R> StreamState<R> {
    /// Reads the next piece; where there is none, the reader waits unless the stream is closed.
    pub fn reader_read(&mut self) -> (r: ReadStep)
        ensures
            if old(self)@.queue.len() > 0 {
                r matches ReadStep::Chunk(p) && p@ == old(self)@.queue[0] && final(self)@
                    == (StreamView { queue: old(self)@.queue.skip(1), ..old(self)@ })
            } else if old(self)@.closed {
                r is Done && final(self)@ == old(self)@
            } else {
                r is Wait && final(self)@ == old(self)@
            },
            r matches ReadStep::Chunk(p) ==> seq![p@] + final(self)@.queue == old(self)@.queue,
            !(r is Chunk) ==> old(self)@.queue.len() == 0,
    {
        match self.next_piece() {
            Some(p) => ReadStep::Chunk(p),
            None => if self.closed {
                ReadStep::Done
            } else {
                ReadStep::Wait
            },
        }
    }

    /// Lets a reader wait.
    pub fn park_reader(&mut self, reader: R)
        ensures
            final(self)@ == (StreamView { readers: old(self)@.readers.push(reader), ..old(self)@ }),
    {
        self.readers.push(reader);
    }
}

/// How many waiting readers a stream can serve.
pub open spec fn served<R>(s: StreamView<R>) -> int {
    if s.closed || s.readers.len() <= s.queue.len() {
        s.readers.len() as int
    } else {
        s.queue.len() as int
    }
}

/// How many pieces serving readers takes.
pub open spec fn pieces_taken<R>(s: StreamView<R>) -> int {
    if served(s) <= s.queue.len() {
        served(s)
    } else {
        s.queue.len() as int
    }
}

/// What waiting readers are handed: the pieces in order, and then the end.
pub open spec fn deliveries<R>(s: StreamView<R>) -> Seq<(R, Option<Seq<u8>>)> {
    Seq::new(
        served(s) as nat,
        |i: int|
            (
                s.readers[i],
                if i < s.queue.len() {
                    Some(s.queue[i])
                } else {
                    None
                },
            ),
    )
}

/// A stream once its waiting readers were served.
pub open spec fn drained<R>(s: StreamView<R>) -> StreamView<R> {
    StreamView {
        queue: s.queue.skip(pieces_taken(s)),
        readers: s.readers.skip(served(s)),
        ..s
    }
}

/// The plain value of a piece, where there is one.
pub open spec fn opt_piece(p: Option<Vec<u8>>) -> Option<Seq<u8>> {
    match p {
        Some(b) => Some(b@),
        None => None,
    }
}

/// The plain values of what readers are handed.
pub open spec fn handed<R>(v: Seq<(R, Option<Vec<u8>>)>) -> Seq<(R, Option<Seq<u8>>)> {
    v.map_values(|p: (R, Option<Vec<u8>>)| (p.0, opt_piece(p.1)))
}

impl<R> StreamState<R> {
    /// Serves the waiting readers: each is handed the next piece, or the end where there is
    /// none and the stream is closed.
    pub fn drain_to_readers(&mut self) -> (r: Vec<(R, Option<Vec<u8>>)>)
        ensures
            handed(r@) == deliveries(old(self)@),
            final(self)@ == drained(old(self)@),
    {
        let ghost before = self@;
        let mut out: Vec<(R, Option<Vec<u8>>)> = Vec::new();
        let ghost mut n: int = 0;
        proof {
            assert(handed(out@) =~= deliveries(before).take(0));
            assert(before.queue.skip(0) =~= before.queue);
            assert(before.readers.skip(0) =~= before.readers);
        }
        while self.readers.len() > 0 && (self.output_queue.len() > 0 || self.closed)
            invariant
                0 <= n <= served(before),
                n <= before.readers.len(),
                handed(out@) == deliveries(before).take(n),
                self@ == (StreamView {
                    queue: before.queue.skip(
                        if n <= before.queue.len() {
                            n
                        } else {
                            before.queue.len() as int
                        },
                    ),
                    readers: before.readers.skip(n),
                    ..before
                }),
            decreases before.readers.len() - n,
        {
            proof {
                assert(self@.queue.len() == self.output_queue@.len());
                assert(self@.readers.len() == before.readers.len() - n);
                assert(n != served(before));
            }
            let ghost prev = out@;
            let ghost mid = self@;
            let piece = self.next_piece();
            let reader = self.readers.remove(0);
            let ghost pv = opt_piece(piece);
            out.push((reader, piece));
            proof {
                assert(mid.readers[0] == before.readers[n]);
                assert(self@.readers =~= before.readers.skip(n + 1));
                if n < before.queue.len() {
                    assert(mid.queue[0] == before.queue[n]);
                    assert(self@.queue =~= before.queue.skip(n + 1));
                } else {
                    assert(self@.queue =~= before.queue.skip(before.queue.len() as int));
                }
                assert(deliveries(before)[n] == (reader, pv));
                assert(handed(out@) =~= handed(prev).push((reader, pv)));
                assert(deliveries(before).take(n + 1) =~= deliveries(before).take(n).push(
                    deliveries(before)[n],
                ));
                n = n + 1;
            }
        }
        proof {
            assert(self@.queue.len() == self.output_queue@.len());
            assert(n == served(before));
            assert(deliveries(before).take(n) =~= deliveries(before));
        }
        out
    }
}

/// Nothing that waits to be read is lost or changes its order: what readers are handed,
/// followed by what still waits, is what waited.
pub proof fn readers_get_everything<R>(s: StreamView<R>)
    ensures
        Seq::new(pieces_taken(s) as nat, |i: int| deliveries(s)[i].1->0) + drained(s).queue
            == s.queue,
        forall|i: int| 0 <= i < pieces_taken(s) ==> (#[trigger] deliveries(s)[i]).1 is Some,
        forall|i: int|
            pieces_taken(s) <= i < served(s) ==> s.closed && (#[trigger] deliveries(s)[i]).1
                is None,
{
    assert(Seq::new(pieces_taken(s) as nat, |i: int| deliveries(s)[i].1->0) + drained(s).queue
        =~= s.queue);
}

fn refusal(class: &str, name: &str) -> (r: String)
    ensures
        r@ == class@ + ": unsupported format '"@ + name@ + "'"@,
{
    let mut out = text::to_chars(class);
    text::push_text(&mut out, ": unsupported format '");
    text::push_text(&mut out, name);
    text::push_text(&mut out, "'");
    text::to_text(&out)
}

/// The class of the streams that decode or do not.
pub open spec fn class_of(decode: bool) -> Seq<char> {
    if decode {
        "DecompressionStream"@
    } else {
        "CompressionStream"@
    }
}

/// Makes a stream for the format with a name, and gives its number; refuses a name that is none.
pub fn stream_ctor<R>(
    streams: &mut Registry<StreamState<R>>,
    format: &str,
    decode: bool,
) -> (r: Result<u32, String>)
    ensures
        match algo_of(format@) {
            Some(algo) => r == Ok::<u32, String>(old(streams)@.next) && registry::views(
                final(streams)@,
            ) == registry::views(old(streams)@).added(StreamView::fresh((algo, decode))),
            None => final(streams)@ == old(streams)@ && (r matches Err(e) && e@ == class_of(decode)
                + ": unsupported format '"@ + format@ + "'"@),
        },
{
    broadcast use crate::registry::group_registry;

    match parse_algo(format) {
        Some(algo) => Ok(streams.insert_next(StreamState::new(algo, decode))),
        None => if decode {
            Err(refusal("DecompressionStream", format))
        } else {
            Err(refusal("CompressionStream", format))
        },
    }
}

/// Writing to an open stream adds what the codec puts out behind what waits to be read, and finishing
/// it adds the rest; once it is closed, writing changes nothing. Nothing empty waits to be read.
pub proof fn streams_queue_what_is_put_out<R>(s: StreamView<R>, piece: Seq<u8>, c: CodecView)
    requires
        s.codec == Some(c),
    ensures
        !s.closed ==> flat(s.fed(piece).queue) == flat(s.queue) + written(c.kind, c.given, piece),
        !s.closed ==> (s.fed(piece).codec matches Some(d) && d.kind == c.kind && d.given
            == c.given.push(piece)),
        !s.closed ==> !s.fed(piece).closed,
        s.closed ==> s.fed(piece) == s,
        flat(s.ended().queue) == flat(s.queue) + finished(c.kind, c.given),
        s.ended().closed,
        s.ended().codec is None,
        s.ended().fed(piece) == s.ended(),
        s.ended().ended() == s.ended(),
        s.fed(piece).readers == s.readers,
        s.ended().readers == s.readers,
        (forall|i: int| 0 <= i < s.queue.len() ==> (#[trigger] s.queue[i]).len() > 0) ==> forall|
            i: int,
        |
            0 <= i < s.fed(piece).queue.len() ==> (#[trigger] s.fed(piece).queue[i]).len() > 0,
{
    let x = written(c.kind, c.given, piece);
    let y = finished(c.kind, c.given);
    assert(s.queue.push(x).drop_last() =~= s.queue);
    assert(s.queue.push(y).drop_last() =~= s.queue);
    if x.len() == 0 {
        assert(flat(s.queue) + x =~= flat(s.queue));
    }
    if y.len() == 0 {
        assert(flat(s.queue) + y =~= flat(s.queue));
    }
}

/// Pieces are read in the order in which they were put out, and readers served in the order in which
/// they came: whoever is not served still waits, and nobody waits while there is something to read or
/// once the stream is closed.
pub proof fn readers_are_served_in_order<R>(s: StreamView<R>, i: int)
    requires
        0 <= i < deliveries(s).len(),
    ensures
        deliveries(s)[i].0 == s.readers[i],
        deliveries(s)[i].1 matches Some(p) ==> p == s.queue[i],
        Seq::new(deliveries(s).len(), |j: int| deliveries(s)[j].0) + drained(s).readers
            == s.readers,
        drained(s).queue.len() > 0 ==> drained(s).readers.len() == 0,
        s.closed ==> drained(s).readers.len() == 0,
        drained(s).closed == s.closed,
        drained(s).codec == s.codec,
{
    assert(Seq::new(deliveries(s).len(), |j: int| deliveries(s)[j].0) + drained(s).readers
        =~= s.readers);
}

/// A format is known by its name alone, and no two have the same.
pub proof fn formats_are_named(s: Seq<char>)
    ensures
        algo_of(s) == Some(Algo::Gzip) <==> s == "gzip"@,
        algo_of(s) == Some(Algo::Deflate) <==> s == "deflate"@,
        algo_of(s) == Some(Algo::DeflateRaw) <==> s == "deflate-raw"@,
        class_of(true) != class_of(false),
        text::begins(class_of(true), "Decom"@),
        text::begins(class_of(false), "Com"@),
{
    reveal_strlit("gzip");
    reveal_strlit("deflate");
    reveal_strlit("deflate-raw");
    reveal_strlit("CompressionStream");
    reveal_strlit("DecompressionStream");
    reveal_strlit("Decom");
    reveal_strlit("Com");
    assert("gzip"@.len() != "deflate"@.len());
    assert("gzip"@.len() != "deflate-raw"@.len());
    assert("deflate"@.len() != "deflate-raw"@.len());
    assert("CompressionStream"@[0] == 'C' && "DecompressionStream"@[0] == 'D');
    assert("DecompressionStream"@.take(5) =~= "Decom"@);
    assert("CompressionStream"@.take(3) =~= "Com"@);
}

/// What a codec puts out for pieces is what it put out for the first of them and then what it puts out
/// for the last; its end comes behind all of it.
pub proof fn pieces_are_put_out_in_order(kind: (Algo, bool), pieces: Seq<Seq<u8>>, p: Seq<u8>)
    ensures
        written_all(kind, pieces.push(p)) == written_all(kind, pieces) + written(kind, pieces, p),
        written_all(kind, Seq::empty()).len() == 0,
        stream_of(kind, pieces) == written_all(kind, pieces) + finished(kind, pieces),
        flat(pieces.push(p)) == flat(pieces) + p,
{
    assert(pieces.push(p).drop_last() =~= pieces);
}

} // verus!
