//! Canvases away from the screen, and bitmaps made of them and of encoded pictures.
//!
//! Both are kept under numbers. Together they may hold only so many bytes; when they hold more,
//! the oldest canvases go first, and after them the oldest bitmaps.
use crate::bytes;
use crate::color;
use crate::color::Color;
use crate::file;
use crate::file::{BlobEntry, BlobView};
use crate::pixels;
use crate::pixels::{OffscreenSurface, SurfaceView};
use crate::registry;
use crate::registry::{Registry, RegistryView};
use crate::text;
use vstd::prelude::*;

verus! {

broadcast use crate::registry::group_registry;

/// A decoded picture, straight, four bytes to a pixel.
pub struct BitmapEntry {
    pub width: u32,
    pub height: u32,
    pub rgba: Vec<u8>,
}

/// A decoded picture over plain values.
#[verifier::ext_equal]
pub ghost struct BitmapView {
    pub width: u32,
    pub height: u32,
    pub rgba: Seq<u8>,
}

impl View for BitmapEntry {
    type V = BitmapView;

    open spec fn view(&self) -> BitmapView {
        BitmapView { width: self.width, height: self.height, rgba: self.rgba@ }
    }
}

/// How many bytes canvases and bitmaps may hold together.
pub const OFFSCREEN_TOTAL_BYTE_CAP: usize = 134217728;

/// Values under numbers, the one that was changed last at the end.
pub struct Pool<V> {
    items: Vec<(u32, V)>,
}

/// The values of a pool over plain values.
pub open spec fn pool_view<V: View>(s: Seq<(u32, V)>) -> Seq<(u32, V::V)> {
    s.map_values(|e: (u32, V)| (e.0, e.1@))
}

impl<V: View> View for Pool<V> {
    type V = Seq<(u32, V::V)>;

    closed spec fn view(&self) -> Seq<(u32, V::V)> {
        pool_view(self.items@)
    }
}

/// The value under a number.
pub open spec fn lookup<X>(s: Seq<(u32, X)>, id: u32) -> Option<X>
    decreases s.len(),
{
    if s.len() == 0 {
        None
    } else if s.last().0 == id {
        Some(s.last().1)
    } else {
        lookup(s.drop_last(), id)
    }
}

/// Whether a value is under another number.
pub open spec fn is_other<X>(id: u32) -> spec_fn((u32, X)) -> bool {
    |e: (u32, X)| e.0 != id
}

/// The values under other numbers.
pub open spec fn without<X>(s: Seq<(u32, X)>, id: u32) -> Seq<(u32, X)> {
    s.filter(is_other(id))
}

/// The values with a new one under a number.
pub open spec fn with<X>(s: Seq<(u32, X)>, id: u32, x: X) -> Seq<(u32, X)> {
    without(s, id).push((id, x))
}

impl<V: View> Pool<V> {
    fn new() -> (r: Self)
        ensures
            r@ == Seq::<(u32, V::V)>::empty(),
    {
        let r = Pool { items: Vec::new() };
        proof {
            assert(r@ =~= Seq::empty());
        }
        r
    }

    fn get(&self, id: u32) -> (r: Option<&V>)
        ensures
            match lookup(self@, id) {
                Some(x) => r matches Some(v) && v@ == x,
                None => r is None,
            },
    {
        let mut i: usize = self.items.len();
        proof {
            assert(self@.take(i as int) =~= self@);
        }
        while i > 0
            invariant
                i <= self.items@.len(),
                self@ == pool_view(self.items@),
                lookup(self@, id) == lookup(self@.take(i as int), id),
            decreases i,
        {
            i = i - 1;
            proof {
                let t = self@.take(i + 1);
                assert(t.last() == self@[i as int]);
                assert(t.drop_last() =~= self@.take(i as int));
            }
            if self.items[i].0 == id {
                return Some(&self.items[i].1);
            }
        }
        None
    }

    /// Takes away what is under a number.
    fn take(&mut self, id: u32) -> (r: Option<V>)
        ensures
            final(self)@ == without(old(self)@, id),
            match lookup(old(self)@, id) {
                Some(x) => r matches Some(v) && v@ == x,
                None => r is None,
            },
    {
        let ghost start = self@;
        let mut found: Option<V> = None;
        let mut i: usize = 0;
        let ghost mut k: int = 0;
        proof {
            reveal(Seq::filter);
            assert(start.take(0) =~= Seq::empty());
            assert(without(start.take(0), id) =~= Seq::empty());
            assert(start.skip(0) =~= start);
            assert(self@ =~= without(start.take(0), id) + start.skip(0));
        }
        while i < self.items.len()
            invariant
                0 <= k <= start.len(),
                self@ == pool_view(self.items@),
                self@ == without(start.take(k), id) + start.skip(k),
                i == without(start.take(k), id).len(),
                match lookup(start.take(k), id) {
                    Some(x) => found matches Some(v) && v@ == x,
                    None => found is None,
                },
            decreases start.len() - k,
        {
            let ghost before = self@;
            proof {
                reveal(Seq::filter);
                assert(self@.len() == self.items@.len());
                assert(k < start.len());
                let t = start.take(k + 1);
                assert(t.drop_last() =~= start.take(k));
                assert(t.last() == start[k]);
                assert(before[i as int] == start.skip(k)[0]);
                assert(before[i as int] == start[k]);
                assert(start.skip(k) =~= seq![start[k]] + start.skip(k + 1));
            }
            if self.items[i].0 == id {
                let (_, v) = self.items.remove(i);
                found = Some(v);
                proof {
                    assert(self@ =~= before.remove(i as int));
                    assert(self@ =~= without(start.take(k + 1), id) + start.skip(k + 1));
                    k = k + 1;
                }
            } else {
                proof {
                    assert(self@ =~= without(start.take(k + 1), id) + start.skip(k + 1));
                    k = k + 1;
                }
                i = i + 1;
            }
        }
        proof {
            assert(self@.len() == self.items@.len());
            assert(k == start.len());
            assert(start.take(k) =~= start);
            assert(start.skip(k) =~= Seq::empty());
            assert(self@ =~= without(start, id));
        }
        found
    }

    /// Keeps a value under a number.
    fn put(&mut self, id: u32, v: V)
        ensures
            final(self)@ == with(old(self)@, id, v@),
    {
        let _ = self.take(id);
        let ghost before = self@;
        self.items.push((id, v));
        proof {
            assert(self@ =~= before.push((id, v@)));
        }
    }
}

/// Every canvas and bitmap, and in which order they came.
pub struct Images {
    canvases: Pool<OffscreenSurface>,
    canvas_order: Vec<u32>,
    bitmaps: Pool<BitmapEntry>,
    bitmap_order: Vec<u32>,
    next: u32,
}

/// Canvases and bitmaps over plain values.
#[verifier::ext_equal]
pub ghost struct ImagesView {
    pub canvases: Seq<(u32, SurfaceView)>,
    pub canvas_order: Seq<u32>,
    pub bitmaps: Seq<(u32, BitmapView)>,
    pub bitmap_order: Seq<u32>,
    pub next: u32,
}

impl View for Images {
    type V = ImagesView;

    closed spec fn view(&self) -> ImagesView {
        ImagesView {
            canvases: self.canvases@,
            canvas_order: self.canvas_order@,
            bitmaps: self.bitmaps@,
            bitmap_order: self.bitmap_order@,
            next: self.next,
        }
    }
}

/// The bytes that canvases hold.
pub open spec fn canvas_bytes(s: Seq<(u32, SurfaceView)>) -> int
    decreases s.len(),
{
    if s.len() == 0 {
        0
    } else {
        canvas_bytes(s.drop_last()) + pixels::byte_count(
            s.last().1.width as int,
            s.last().1.height as int,
        )
    }
}

/// The bytes that bitmaps hold.
pub open spec fn bitmap_bytes(s: Seq<(u32, BitmapView)>) -> int
    decreases s.len(),
{
    if s.len() == 0 {
        0
    } else {
        bitmap_bytes(s.drop_last()) + s.last().1.rgba.len()
    }
}

/// Whether every canvas has the bytes of its size.
pub open spec fn are_sound(s: Seq<(u32, SurfaceView)>) -> bool {
    forall|i: int| 0 <= i < s.len() ==> (#[trigger] s[i]).1.wf()
}

impl ImagesView {
    /// Whether every canvas has the bytes of its size.
    pub open spec fn wf(self) -> bool {
        are_sound(self.canvases)
    }

    /// The bytes that all of them hold.
    pub open spec fn total_offscreen_bytes(self) -> int {
        canvas_bytes(self.canvases) + bitmap_bytes(self.bitmaps)
    }

    /// What is left when the oldest go until the rest may stay.
    pub open spec fn evicted(self) -> ImagesView
        decreases self.canvas_order.len() + self.bitmap_order.len(),
    {
        if self.total_offscreen_bytes() <= OFFSCREEN_TOTAL_BYTE_CAP {
            self
        } else if self.canvas_order.len() > 0 {
            (ImagesView {
                canvases: without(self.canvases, self.canvas_order[0]),
                canvas_order: self.canvas_order.skip(1),
                ..self
            }).evicted()
        } else if self.bitmap_order.len() > 0 {
            (ImagesView {
                bitmaps: without(self.bitmaps, self.bitmap_order[0]),
                bitmap_order: self.bitmap_order.skip(1),
                ..self
            }).evicted()
        } else {
            self
        }
    }

    /// Once one more number was handed out.
    pub open spec fn numbered(self) -> ImagesView {
        ImagesView { next: registry::next_after(self.next), ..self }
    }

    /// Once a new canvas came.
    pub open spec fn with_new_canvas(self, s: SurfaceView) -> ImagesView {
        (ImagesView {
            canvases: with(self.canvases, self.next, s),
            canvas_order: self.canvas_order.push(self.next),
            ..self.numbered()
        }).evicted()
    }

    /// Once a new bitmap came.
    pub open spec fn with_new_bitmap(self, b: BitmapView) -> ImagesView {
        (ImagesView {
            bitmaps: with(self.bitmaps, self.next, b),
            bitmap_order: self.bitmap_order.push(self.next),
            ..self.numbered()
        }).evicted()
    }

    /// With a canvas changed.
    pub open spec fn with_canvas(self, id: u32, s: SurfaceView) -> ImagesView {
        ImagesView { canvases: with(self.canvases, id, s), ..self }
    }

    /// With a drawing put on a canvas, if there is one under the number.
    pub open spec fn painted(self, id: u32, f: pixels::Drawing) -> ImagesView {
        match lookup(self.canvases, id) {
            Some(s) => self.with_canvas(id, s.painted(f)),
            None => self,
        }
    }
}

proof fn lemma_without_sound(s: Seq<(u32, SurfaceView)>, id: u32)
    requires
        are_sound(s),
    ensures
        are_sound(without(s, id)),
    decreases s.len(),
{
    reveal(Seq::filter);
    if s.len() > 0 {
        assert forall|i: int| 0 <= i < s.drop_last().len() implies (
        #[trigger] s.drop_last()[i]).1.wf() by {
            assert(s.drop_last()[i] == s[i]);
        }
        lemma_without_sound(s.drop_last(), id);
        assert(s.last() == s[s.len() - 1]);
    }
}

proof fn lemma_nothing_to_take<X>(s: Seq<(u32, X)>, id: u32)
    requires
        lookup(s, id) is None,
    ensures
        without(s, id) == s,
    decreases s.len(),
{
    reveal(Seq::filter);
    if s.len() > 0 {
        lemma_nothing_to_take(s.drop_last(), id);
        assert(s.drop_last().push(s.last()) =~= s);
    } else {
        assert(without(s, id) =~= s);
    }
}

proof fn lemma_lookup_sound(s: Seq<(u32, SurfaceView)>, id: u32)
    requires
        are_sound(s),
    ensures
        lookup(s, id) matches Some(x) ==> x.wf(),
    decreases s.len(),
{
    if s.len() > 0 {
        assert(s.last() == s[s.len() - 1]);
        assert forall|i: int| 0 <= i < s.drop_last().len() implies (
        #[trigger] s.drop_last()[i]).1.wf() by {
            assert(s.drop_last()[i] == s[i]);
        }
        lemma_lookup_sound(s.drop_last(), id);
    }
}

impl Images {
    /// Nothing yet; the first number is one.
    pub fn new() -> (r: Images)
        ensures
            r@.wf(),
            r@ == (ImagesView {
                canvases: Seq::empty(),
                canvas_order: Seq::empty(),
                bitmaps: Seq::empty(),
                bitmap_order: Seq::empty(),
                next: 1,
            }),
    {
        let r = Images {
            canvases: Pool::new(),
            canvas_order: Vec::new(),
            bitmaps: Pool::new(),
            bitmap_order: Vec::new(),
            next: 1,
        };
        proof {
            assert(r@.canvas_order =~= Seq::empty());
            assert(r@.bitmap_order =~= Seq::empty());
        }
        r
    }

    fn sum_canvases(&self) -> (r: u128)
        requires
            self@.wf(),
        ensures
            r == canvas_bytes(self@.canvases),
    {
        let ghost all = self@.canvases;
        let mut total: u128 = 0;
        let mut i: usize = 0;
        let n: usize = self.canvases.items.len();
        while i < n
            invariant
                i <= n,
                n == self.canvases.items@.len(),
                all == self@.canvases,
                all == pool_view(self.canvases.items@),
                are_sound(all),
                total == canvas_bytes(all.take(i as int)),
                total <= i * 0xffff_ffff_ffff_ffff,
            decreases n - i,
        {
            proof {
                let t = all.take(i + 1);
                assert(t.drop_last() =~= all.take(i as int));
                assert(t.last() == all[i as int]);
                assert(all[i as int].1.wf());
            }
            let len: usize = self.canvases.items[i].1.pixmap.data().len();
            total = total + len as u128;
            i = i + 1;
        }
        proof {
            assert(all.take(all.len() as int) =~= all);
        }
        total
    }

    fn sum_bitmaps(&self) -> (r: u128)
        ensures
            r == bitmap_bytes(self@.bitmaps),
    {
        let ghost all = self@.bitmaps;
        let mut total: u128 = 0;
        let mut i: usize = 0;
        let n: usize = self.bitmaps.items.len();
        while i < n
            invariant
                i <= n,
                n == self.bitmaps.items@.len(),
                all == self@.bitmaps,
                all == pool_view(self.bitmaps.items@),
                total == bitmap_bytes(all.take(i as int)),
                total <= i * 0xffff_ffff_ffff_ffff,
            decreases n - i,
        {
            proof {
                let t = all.take(i + 1);
                assert(t.drop_last() =~= all.take(i as int));
                assert(t.last() == all[i as int]);
            }
            let len: usize = self.bitmaps.items[i].1.rgba.len();
            total = total + len as u128;
            i = i + 1;
        }
        proof {
            assert(all.take(all.len() as int) =~= all);
        }
        total
    }

    /// Whether canvases and bitmaps hold more than they may.
    fn exceeds_cap(&self) -> (r: bool)
        requires
            self@.wf(),
        ensures
            r == (self@.total_offscreen_bytes() > OFFSCREEN_TOTAL_BYTE_CAP),
    {
        let a: u128 = self.sum_canvases();
        let b: u128 = self.sum_bitmaps();
        let cap: u128 = OFFSCREEN_TOTAL_BYTE_CAP as u128;
        a > cap || b > cap || a + b > cap
    }

    /// Lets the oldest go until the rest may stay.
    pub fn evict_until_under_cap(&mut self)
        requires
            old(self)@.wf(),
        ensures
            final(self)@.wf(),
            final(self)@ == old(self)@.evicted(),
    {
        let ghost start = self@;
        while self.exceeds_cap()
            invariant_except_break
                self@.evicted() == start.evicted(),
            invariant
                self@.wf(),
            ensures
                self@ == start.evicted(),
            decreases self@.canvas_order.len() + self@.bitmap_order.len(),
        {
            let ghost before = self@;
            if self.canvas_order.len() > 0 {
                let id: u32 = self.canvas_order.remove(0);
                let _ = self.canvases.take(id);
                proof {
                    lemma_without_sound(before.canvases, id);
                    assert(self@.canvas_order =~= before.canvas_order.skip(1));
                }
            } else if self.bitmap_order.len() > 0 {
                let id: u32 = self.bitmap_order.remove(0);
                let _ = self.bitmaps.take(id);
                proof {
                    assert(self@.bitmap_order =~= before.bitmap_order.skip(1));
                }
            } else {
                break;
            }
        }
    }

    /// Takes the next number.
    fn next_id(&mut self) -> (r: u32)
        ensures
            r == old(self)@.next,
            final(self)@ == old(self)@.numbered(),
    {
        registry::next_id(&mut self.next)
    }

    /// Makes a canvas; a side that is zero counts as one. There is none where no buffer of this
    /// size can be had.
    pub fn offscreen_ctor(&mut self, width: u32, height: u32) -> (r: Result<u32, String>)
        requires
            old(self)@.wf(),
            pixels::is_allocatable(at_least_one(width), at_least_one(height)),
        ensures
            final(self)@.wf(),
            match r {
                Ok(id) => pixels::has_size(at_least_one(width), at_least_one(height)) && id
                    == old(self)@.next && final(self)@ == old(self)@.with_new_canvas(
                    SurfaceView::cleared(at_least_one(width), at_least_one(height)),
                ),
                Err(e) => !pixels::has_size(at_least_one(width), at_least_one(height)) && e@
                    == "OffscreenCanvas: pixmap alloc failed"@ && final(self)@
                    == old(self)@.numbered(),
            },
    {
        let w: u32 = if width == 0 {
            1
        } else {
            width
        };
        let h: u32 = if height == 0 {
            1
        } else {
            height
        };
        let id = self.next_id();
        match OffscreenSurface::new(w, h) {
            Some(s) => {
                let ghost before = self@;
                self.canvases.put(id, s);
                self.canvas_order.push(id);
                proof {
                    lemma_without_sound(before.canvases, id);
                }
                self.evict_until_under_cap();
                Ok(id)
            },
            None => Err(text::copy("OffscreenCanvas: pixmap alloc failed")),
        }
    }
}

/// Keeps a bitmap, and gives its number.
pub fn store_image_bitmap(images: &mut Images, width: u32, height: u32, rgba: Vec<u8>) -> (r: u32)
    requires
        old(images)@.wf(),
    ensures
        final(images)@.wf(),
        r == old(images)@.next,
        final(images)@ == old(images)@.with_new_bitmap((BitmapView { width, height, rgba: rgba@ })),
{
    let id = images.next_id();
    let ghost v = BitmapView { width, height, rgba: rgba@ };
    let b = BitmapEntry { width, height, rgba };
    proof {
        assert(b@ == v);
    }
    images.bitmaps.put(id, b);
    images.bitmap_order.push(id);
    images.evict_until_under_cap();
    id
}

/// A side, which is at least one.
pub open spec fn at_least_one(n: u32) -> u32 {
    if n == 0 {
        1
    } else {
        n
    }
}

/// Where the colours of a fill style are written one by one.
pub open spec fn written_parts(s: Seq<char>) -> Option<Seq<char>> {
    match color::bracketed(s, "rgba("@) {
        Some(inner) => Some(inner),
        None => color::bracketed(s, "rgb("@),
    }
}

/// The colour that a keyword names.
pub open spec fn keyword_color(s: Seq<char>) -> Option<Color> {
    if s == "black"@ {
        Some(Color::opaque(0, 0, 0))
    } else if s == "white"@ {
        Some(Color::opaque(255, 255, 255))
    } else if s == "red"@ {
        Some(Color::opaque(255, 0, 0))
    } else if s == "green"@ {
        Some(Color::opaque(0, 128, 0))
    } else if s == "blue"@ {
        Some(Color::opaque(0, 0, 255))
    } else if s == "transparent"@ {
        Some(Color { r: 0, g: 0, b: 0, a: 0 })
    } else {
        None
    }
}

/// The colour that three written numbers make, with an opacity that is full where none is read.
pub open spec fn parts_color(parts: Seq<Seq<char>>, opacity: Option<u8>) -> Option<Color> {
    if parts.len() < 3 {
        None
    } else {
        color::from_bytes(
            color::decimal_byte(parts[0]),
            color::decimal_byte(parts[1]),
            color::decimal_byte(parts[2]),
            if parts.len() > 3 && opacity is Some {
                opacity
            } else {
                Some(255)
            },
        )
    }
}

/// The colour that a fill style writes. The opacity is how its fourth number reads as a byte.
pub open spec fn fill_style(s: Seq<char>, opacity: Option<u8>) -> Option<Color> {
    let t = text::trimmed(s);
    match text::without_prefix(t, "#"@) {
        Some(rest) => color::hex_color(rest),
        None => match written_parts(t) {
            Some(inner) => parts_color(color::comma_parts(inner), opacity),
            None => keyword_color(t),
        },
    }
}

fn read_keyword(cs: &[char]) -> (r: Option<Color>)
    ensures
        r == keyword_color(cs@),
{
    let w = text::to_text(cs);
    if text::same(&w, "black") {
        Some(Color::rgb(0, 0, 0))
    } else if text::same(&w, "white") {
        Some(Color::rgb(255, 255, 255))
    } else if text::same(&w, "red") {
        Some(Color::rgb(255, 0, 0))
    } else if text::same(&w, "green") {
        Some(Color::rgb(0, 128, 0))
    } else if text::same(&w, "blue") {
        Some(Color::rgb(0, 0, 255))
    } else if text::same(&w, "transparent") {
        Some(Color { r: 0, g: 0, b: 0, a: 0 })
    } else {
        None
    }
}

fn strip_parts(cs: &[char]) -> (r: Option<Vec<char>>)
    ensures
        r is Some <==> written_parts(cs@) is Some,
        r matches Some(v) ==> written_parts(cs@) == Some(v@),
{
    match color::strip_brackets(cs, "rgba(") {
        Some(inner) => Some(inner),
        None => color::strip_brackets(cs, "rgb("),
    }
}

/// The text of the opacity that a fill style writes as its fourth number.
pub fn opacity_text(s: &str) -> (r: Option<String>)
    ensures
        text::opt_text(r) == match text::without_prefix(text::trimmed(s@), "#"@) {
            Some(_) => None,
            None => match written_parts(text::trimmed(s@)) {
                Some(inner) => if color::comma_parts(inner).len() > 3 {
                    Some(color::comma_parts(inner)[3])
                } else {
                    None
                },
                None => None,
            },
        },
{
    let cs = text::to_chars(s);
    let t = text::trim(&cs);
    if text::starts_with(&t, "#") {
        return None;
    }
    match strip_parts(&t) {
        Some(inner) => {
            let parts = color::split_commas(&inner);
            proof {
                assert(text::texts(parts@).len() == parts@.len());
            }
            if parts.len() > 3 {
                proof {
                    assert(text::texts(parts@)[3] == parts@[3]@);
                }
                Some(text::copy(&parts[3]))
            } else {
                None
            }
        },
        None => None,
    }
}

/// Reads a fill style, given how the number that it writes for the opacity reads as a byte.
pub fn parse_color(s: &str, opacity: Option<u8>) -> (r: Option<Color>)
    ensures
        r == fill_style(s@, opacity),
{
    let cs = text::to_chars(s);
    let t = text::trim(&cs);
    match text::strip_prefix(&t, "#") {
        Some(rest) => color::read_hex_color(&rest),
        None => match strip_parts(&t) {
            Some(inner) => {
                let parts = color::split_commas(&inner);
                proof {
                    assert(text::texts(parts@).len() == parts@.len());
                }
                if parts.len() < 3 {
                    return None;
                }
                proof {
                    assert(text::texts(parts@)[0] == parts@[0]@);
                    assert(text::texts(parts@)[1] == parts@[1]@);
                    assert(text::texts(parts@)[2] == parts@[2]@);
                }
                let a = if parts.len() > 3 && opacity.is_some() {
                    opacity
                } else {
                    Some(255)
                };
                color::assemble(
                    color::read_decimal_byte(&parts[0]),
                    color::read_decimal_byte(&parts[1]),
                    color::read_decimal_byte(&parts[2]),
                    a,
                )
            },
            None => read_keyword(&t),
        },
    }
}

/// The colour that a context fills with: its fill style, or black where that is no colour.
pub fn fill_color(s: &str, opacity: Option<u8>) -> (r: Color)
    ensures
        r == match fill_style(s@, opacity) {
            Some(c) => c,
            None => Color::opaque(0, 0, 0),
        },
{
    match parse_color(s, opacity) {
        Some(c) => c,
        None => Color::rgb(0, 0, 0),
    }
}

/// Whether a canvas has a context of this kind. Only a flat one is there.
pub fn offscreen_get_context(ty: &str) -> (r: bool)
    ensures
        r == (text::lower(ty@) == "2d"@),
{
    let t = text::lower_text(ty);
    text::same(&t, "2d")
}

/// The size that a canvas shows.
pub open spec fn size_shown(v: ImagesView, id: u32) -> (u32, u32) {
    match lookup(v.canvases, id) {
        Some(s) => (s.width, s.height),
        None => (1, 1),
    }
}

/// The size that a canvas shows; one by one where it is gone.
pub fn offscreen_size(images: &Images, id: u32) -> (r: (u32, u32))
    ensures
        r == size_shown(images@, id),
{
    match images.canvases.get(id) {
        Some(s) => (s.width, s.height),
        None => (1, 1),
    }
}

/// The size that a bitmap shows; nothing where it is gone.
pub fn image_bitmap_size(images: &Images, id: u32) -> (r: (u32, u32))
    ensures
        r == match lookup(images@.bitmaps, id) {
            Some(b) => (b.width, b.height),
            None => (0u32, 0u32),
        },
{
    match images.bitmaps.get(id) {
        Some(b) => (b.width, b.height),
        None => (0, 0),
    }
}

/// Fills a rectangle of a canvas.
pub fn off_ctx_fill_rect(
    images: &mut Images,
    id: u32,
    x: i32,
    y: i32,
    w: i32,
    h: i32,
    color: Color,
    opacity: u8,
)
    requires
        old(images)@.wf(),
    ensures
        final(images)@.wf(),
        final(images)@ == old(images)@.painted(
            id,
            pixels::flat(
                x as int,
                y as int,
                w as int,
                h as int,
                pixels::premultiplied(Color { a: opacity, ..color }),
            ),
        ),
{
    let ghost before = images@;
    proof {
        lemma_lookup_sound(before.canvases, id);
        lemma_without_sound(before.canvases, id);
    }
    match images.canvases.take(id) {
        Some(surface) => {
            let mut s = surface;
            pixels::fill_rect(&mut s, x, y, w, h, color, opacity);
            images.canvases.put(id, s);
            proof {
                lemma_put_back(before.canvases, id, s@);
            }
        },
        None => {
            proof {
                lemma_nothing_to_take(before.canvases, id);
            }
        },
    }
}

/// Makes a rectangle of a canvas transparent.
pub fn off_ctx_clear_rect(images: &mut Images, id: u32, x: i32, y: i32, w: i32, h: i32)
    requires
        old(images)@.wf(),
    ensures
        final(images)@.wf(),
        final(images)@ == old(images)@.painted(
            id,
            pixels::flat(x as int, y as int, w as int, h as int, Color { r: 0, g: 0, b: 0, a: 0 }),
        ),
{
    let none = Color { r: 0, g: 0, b: 0, a: 0 };
    proof {
        assert(pixels::premultiplied(none) == none);
    }
    off_ctx_fill_rect(images, id, x, y, w, h, none, 0);
}

/// Taking a value away and putting another one under its number is changing it.
proof fn lemma_put_back(s: Seq<(u32, SurfaceView)>, id: u32, x: SurfaceView)
    requires
        are_sound(s),
        x.wf(),
    ensures
        with(without(s, id), id, x) == with(s, id, x),
        are_sound(with(s, id, x)),
{
    lemma_without_sound(s, id);
    lemma_without_twice(s, id);
}

proof fn lemma_without_twice<X>(s: Seq<(u32, X)>, id: u32)
    ensures
        without(without(s, id), id) == without(s, id),
    decreases s.len(),
{
    reveal(Seq::filter);
    if s.len() > 0 {
        lemma_without_twice(s.drop_last(), id);
        let t = without(s.drop_last(), id);
        assert(t.push(s.last()).drop_last() =~= t);
    } else {
        assert(without(s, id) =~= s);
    }
}


/// What a picture is taken from.
#[derive(Clone, Copy, PartialEq, Eq, Structural, Debug)]
pub enum ImageSource {
    Bitmap(u32),
    Canvas(u32),
    Other,
}

/// The picture that a source has: a bitmap's, or that of a canvas with its bytes as they are.
pub open spec fn source_picture(v: ImagesView, source: ImageSource) -> Option<BitmapView> {
    match source {
        ImageSource::Bitmap(id) => lookup(v.bitmaps, id),
        ImageSource::Canvas(id) => match lookup(v.canvases, id) {
            Some(s) => Some(
                BitmapView {
                    width: s.width,
                    height: s.height,
                    rgba: s.data,
                },
            ),
            None => None,
        },
        ImageSource::Other => None,
    }
}

/// The picture that a source has.
pub fn source_image(images: &Images, source: ImageSource) -> (r: Option<BitmapEntry>)
    ensures
        match source_picture(images@, source) {
            Some(b) => r matches Some(v) && v@ == b,
            None => r is None,
        },
{
    match source {
        ImageSource::Bitmap(id) => match images.bitmaps.get(id) {
            Some(b) => Some(
                BitmapEntry { width: b.width, height: b.height, rgba: bytes::copy_bytes(&b.rgba) },
            ),
            None => None,
        },
        ImageSource::Canvas(id) => match images.canvases.get(id) {
            Some(s) => Some(
                BitmapEntry {
                    width: s.width,
                    height: s.height,
                    rgba: bytes::copy_bytes(s.pixmap.data()),
                },
            ),
            None => None,
        },
        ImageSource::Other => None,
    }
}

/// Once the given columns and rows of a source's picture were drawn on a canvas.
pub open spec fn with_image(
    v: ImagesView,
    id: u32,
    source: ImageSource,
    dx: int,
    dy: int,
    columns: Seq<u32>,
    rows: Seq<u32>,
) -> ImagesView {
    match source_picture(v, source) {
        Some(b) => if b.width == 0 || b.height == 0 {
            v
        } else {
            v.painted(id, pixels::sampled(b.rgba, b.width as int, dx, dy, columns, rows))
        },
        None => v,
    }
}

/// Draws the given columns and rows of a source's picture on a canvas.
pub fn off_ctx_draw_image(
    images: &mut Images,
    id: u32,
    source: ImageSource,
    dx: i32,
    dy: i32,
    columns: &[u32],
    rows: &[u32],
)
    requires
        old(images)@.wf(),
    ensures
        final(images)@.wf(),
        final(images)@ == with_image(
            old(images)@,
            id,
            source,
            dx as int,
            dy as int,
            columns@,
            rows@,
        ),
{
    let ghost before = images@;
    let b = match source_image(images, source) {
        Some(b) => b,
        None => return,
    };
    if b.width == 0 || b.height == 0 {
        return;
    }
    proof {
        lemma_lookup_sound(before.canvases, id);
        lemma_without_sound(before.canvases, id);
    }
    match images.canvases.take(id) {
        Some(surface) => {
            let mut s = surface;
            pixels::blit_scaled(&mut s, &b.rgba, b.width, b.height, dx, dy, columns, rows);
            images.canvases.put(id, s);
            proof {
                lemma_put_back(before.canvases, id, s@);
            }
        },
        None => {
            proof {
                lemma_nothing_to_take(before.canvases, id);
            }
        },
    }
}

/// A rectangle of straight pixels.
pub struct ImageData {
    pub width: u32,
    pub height: u32,
    pub data: Vec<u8>,
}

/// A length, which is not below zero.
pub open spec fn not_negative(n: i32) -> u32 {
    if n < 0 {
        0
    } else {
        n as u32
    }
}

/// Reads a rectangle of a canvas. There are no bytes where there is no canvas.
pub fn off_ctx_get_image_data(images: &Images, id: u32, x: i32, y: i32, w: i32, h: i32) -> (r:
    ImageData)
    requires
        images@.wf(),
    ensures
        r.width == not_negative(w),
        r.height == not_negative(h),
        r.data@ == match lookup(images@.canvases, id) {
            Some(s) => pixels::bytes_seen(s, x as int, y as int, w as int, h as int),
            None => Seq::empty(),
        },
{
    let data: Vec<u8> = match images.canvases.get(id) {
        Some(s) => {
            proof {
                lemma_lookup_sound(images@.canvases, id);
            }
            pixels::read_rect(s, x, y, w, h)
        },
        None => Vec::new(),
    };
    let width: u32 = if w < 0 {
        0
    } else {
        w as u32
    };
    let height: u32 = if h < 0 {
        0
    } else {
        h as u32
    };
    ImageData { width, height, data }
}

/// A length that is past the range of an `i32` counts as none.
pub open spec fn length_taken(n: u32) -> int {
    if n > i32::MAX {
        0
    } else {
        n as int
    }
}

/// Puts straight pixels on a canvas, the first of them at a column and a row.
pub fn off_ctx_put_image_data(
    images: &mut Images,
    id: u32,
    data: &[u8],
    width: u32,
    height: u32,
    dx: i32,
    dy: i32,
)
    requires
        old(images)@.wf(),
    ensures
        final(images)@.wf(),
        final(images)@ == old(images)@.painted(
            id,
            pixels::picture(
                data@,
                length_taken(width),
                length_taken(height),
                dx as int,
                dy as int,
            ),
        ),
{
    let ghost before = images@;
    let w: i32 = if width > 0x7fff_ffff {
        0
    } else {
        width as i32
    };
    let h: i32 = if height > 0x7fff_ffff {
        0
    } else {
        height as i32
    };
    proof {
        lemma_lookup_sound(before.canvases, id);
        lemma_without_sound(before.canvases, id);
    }
    match images.canvases.take(id) {
        Some(surface) => {
            let mut s = surface;
            pixels::blit_straight_rgba(&mut s, data, w, h, dx, dy);
            images.canvases.put(id, s);
            proof {
                lemma_put_back(before.canvases, id, s@);
            }
        },
        None => {
            proof {
                lemma_nothing_to_take(before.canvases, id);
            }
        },
    }
}

/// Once a canvas gave its picture to a bitmap and became transparent.
pub open spec fn transferred(v: ImagesView, id: u32) -> ImagesView {
    match lookup(v.canvases, id) {
        Some(s) => v.with_canvas(id, SurfaceView::cleared(s.width, s.height)).with_new_bitmap(
            (BitmapView {
                width: s.width,
                height: s.height,
                rgba: pixels::straight_bytes(s.data),
            }),
        ),
        None => v,
    }
}

/// Moves the picture of a canvas into a bitmap, whose number it gives.
pub fn offscreen_transfer_to_image_bitmap(images: &mut Images, id: u32) -> (r: Option<u32>)
    requires
        old(images)@.wf(),
    ensures
        final(images)@.wf(),
        final(images)@ == transferred(old(images)@, id),
        r == match lookup(old(images)@.canvases, id) {
            Some(_) => Some(old(images)@.next),
            None => None,
        },
{
    let ghost before = images@;
    proof {
        lemma_lookup_sound(before.canvases, id);
        lemma_without_sound(before.canvases, id);
    }
    match images.canvases.take(id) {
        Some(s) => {
            let width: u32 = s.width;
            let height: u32 = s.height;
            let rgba = pixels::unpremultiply_rgba(s.pixmap.data());
            let ghost picture = rgba@;
            match OffscreenSurface::new(width, height) {
                Some(empty) => {
                    images.canvases.put(id, empty);
                    proof {
                        lemma_put_back(before.canvases, id, empty@);
                    }
                },
                None => {},
            }
            Some(store_image_bitmap(images, width, height, rgba))
        },
        None => {
            proof {
                lemma_nothing_to_take(before.canvases, id);
            }
            None
        },
    }
}

/// The file that `png` makes of a picture, where it makes one.
pub uninterp spec fn png_file(width: u32, height: u32, rgba: Seq<u8>) -> Option<Seq<u8>>;

/// The bytes of a file, where there is one.
pub open spec fn opt_bytes(b: Option<Vec<u8>>) -> Option<Seq<u8>> {
    match b {
        Some(v) => Some(v@),
        None => None,
    }
}

/// Writes a picture of eight bits a part as a file: `png::Encoder::new`, `set_color` and
/// `set_depth`, then `write_header` and `write_image_data`. What comes out hangs on the picture
/// alone; a failure of either writing step gives nothing.
#[verifier::external_body]
fn encode_png(width: u32, height: u32, rgba: &[u8]) -> (r: Option<Vec<u8>>)
    requires
        pixels::byte_count(width as int, height as int) == rgba@.len(),
    ensures
        opt_bytes(r) == png_file(width, height, rgba@),
{
    let mut buf = Vec::new();
    let mut encoder = png::Encoder::new(&mut buf, width, height);
    encoder.set_color(png::ColorType::Rgba);
    encoder.set_depth(png::BitDepth::Eight);
    let mut writer = encoder.write_header().ok()?;
    writer.write_image_data(rgba).ok()?;
    drop(writer);
    Some(buf)
}

/// The bytes of the file that is made of a canvas: none where there is no canvas or no file.
pub open spec fn canvas_file(v: ImagesView, id: u32) -> Seq<u8> {
    match lookup(v.canvases, id) {
        Some(s) => match png_file(s.width, s.height, pixels::straight_bytes(s.data)) {
            Some(b) => b,
            None => Seq::empty(),
        },
        None => Seq::empty(),
    }
}

/// Makes a file of a canvas, and keeps it as a blob, whose number it gives.
pub fn offscreen_convert_to_blob(
    images: &Images,
    blobs: &mut Registry<BlobEntry>,
    id: u32,
) -> (r: u32)
    requires
        images@.wf(),
    ensures
        r == old(blobs)@.next,
        registry::views(final(blobs)@) == registry::views(old(blobs)@).added(
            (BlobView { bytes: canvas_file(images@, id), mime: "image/png"@ }),
        ),
{
    let content: Vec<u8> = match images.canvases.get(id) {
        Some(s) => {
            proof {
                lemma_lookup_sound(images@.canvases, id);
            }
            let rgba = pixels::unpremultiply_rgba(s.pixmap.data());
            match encode_png(s.width, s.height, &rgba) {
                Some(b) => b,
                None => Vec::new(),
            }
        },
        None => Vec::new(),
    };
    let mime = text::copy("image/png");
    file::store_blob(blobs, content, mime)
}

/// Whether a number is another one.
pub open spec fn is_not(id: u32) -> spec_fn(u32) -> bool {
    |x: u32| x != id
}

/// Lets a bitmap go.
pub fn image_bitmap_close(images: &mut Images, id: u32)
    requires
        old(images)@.wf(),
    ensures
        final(images)@.wf(),
        final(images)@ == (ImagesView {
            bitmaps: without(old(images)@.bitmaps, id),
            bitmap_order: old(images)@.bitmap_order.filter(is_not(id)),
            ..old(images)@
        }),
{
    let ghost before = images@;
    let _ = images.bitmaps.take(id);
    let mut kept: Vec<u32> = Vec::new();
    let mut i: usize = 0;
    let ghost order = images.bitmap_order@;
    proof {
        reveal(Seq::filter);
        assert(order.take(0) =~= Seq::empty());
        assert(order.take(0).filter(is_not(id)) =~= Seq::empty());
    }
    while i < images.bitmap_order.len()
        invariant
            i <= images.bitmap_order@.len(),
            order == images.bitmap_order@,
            kept@ == order.take(i as int).filter(is_not(id)),
            images@ == (ImagesView { bitmaps: without(before.bitmaps, id), ..before }),
        decreases images.bitmap_order@.len() - i,
    {
        proof {
            reveal(Seq::filter);
            let t = order.take(i + 1);
            assert(t.drop_last() =~= order.take(i as int));
            assert(t.last() == order[i as int]);
        }
        if images.bitmap_order[i] != id {
            kept.push(images.bitmap_order[i]);
        }
        i = i + 1;
    }
    proof {
        assert(order.take(order.len() as int) =~= order);
    }
    images.bitmap_order = kept;
}


/// What `image` makes of an encoded picture: its width, its height and its straight bytes, or what
/// it says is wrong.
pub uninterp spec fn decoded_picture(b: Seq<u8>) -> Result<(u32, u32, Seq<u8>), Seq<char>>;

/// A decoded picture over plain values.
pub open spec fn decoded_view(d: Result<(u32, u32, Vec<u8>), String>) -> Result<
    (u32, u32, Seq<u8>),
    Seq<char>,
> {
    match d {
        Ok((w, h, v)) => Ok((w, h, v@)),
        Err(e) => Err(e@),
    }
}

/// Decodes a picture: `image::guess_format` tells its format from the first bytes,
/// `image::load_from_memory_with_format` decodes it, and `to_rgba8` turns it into straight bytes.
/// None of them asks the hooks that a process can register, so what comes out hangs on the bytes
/// alone. That no decoder panics, whatever the bytes are, is believed and not shown.
#[verifier::external_body]
fn decode_picture(b: &[u8]) -> (r: Result<(u32, u32, Vec<u8>), String>)
    ensures
        decoded_view(r) == decoded_picture(b@),
{
    match image::guess_format(b) {
        Ok(f) => match image::load_from_memory_with_format(b, f) {
            Ok(img) => {
                let p = img.to_rgba8();
                let (w, h) = p.dimensions();
                Ok((w, h, p.into_raw()))
            },
            Err(e) => Err(e.to_string()),
        },
        Err(e) => Err(e.to_string()),
    }
}

/// A value that a bitmap is made of: the bitmap, the canvas or the blob that it stands for, the
/// straight pixels that it has, and the bytes that it has itself.
pub struct SourceValue {
    pub bitmap: Option<u32>,
    pub canvas: Option<u32>,
    pub blob: Option<u32>,
    pub pixels: Option<ImageData>,
    pub bytes: Vec<u8>,
}

/// Whether there are just so many bytes as the size asks for, and any at all.
pub open spec fn is_whole(width: u32, height: u32, rgba: Seq<u8>) -> bool {
    rgba.len() > 0 && rgba.len() == pixels::byte_count(width as int, height as int)
}

/// Numbers with a value behind them.
pub open spec fn found_at<X>(s: Seq<(u32, X)>, id: Option<u32>) -> Option<X> {
    match id {
        Some(id) => lookup(s, id),
        None => None,
    }
}

/// The encoded picture of a value: its blob's bytes, or its own.
pub open spec fn encoded_bytes(blobs: RegistryView<BlobView>, v: SourceValue) -> Seq<u8> {
    match v.blob {
        Some(_) => file::blob_bytes(blobs, v.blob),
        None => v.bytes@,
    }
}

/// Once a decoded picture was kept as a bitmap, and what the caller is told.
pub open spec fn placed(v: ImagesView, d: Result<(u32, u32, Seq<u8>), Seq<char>>) -> (
    ImagesView,
    Result<u32, Seq<char>>,
) {
    match d {
        Ok((width, height, rgba)) => (
            v.with_new_bitmap((BitmapView { width, height, rgba })),
            Ok(v.next),
        ),
        Err(e) => (v, Err("createImageBitmap decode: "@ + e)),
    }
}

/// Once a bitmap was made of pixels, and what the caller is told.
pub open spec fn pixels_placed(v: ImagesView, d: ImageData) -> (
    ImagesView,
    Result<u32, Seq<char>>,
) {
    if is_whole(d.width, d.height, d.data@) {
        placed(v, Ok((d.width, d.height, d.data@)))
    } else {
        (v, Err("createImageBitmap: unsupported source"@))
    }
}

/// Once a bitmap was made of a value, and what the caller is told.
pub open spec fn created(
    v: ImagesView,
    blobs: RegistryView<BlobView>,
    source: Option<SourceValue>,
) -> (ImagesView, Result<u32, Seq<char>>) {
    match source {
        None => (v, Err("createImageBitmap: missing source"@)),
        Some(s) => match found_at(v.bitmaps, s.bitmap) {
            Some(b) => (v.with_new_bitmap(b), Ok(v.next)),
            None => match found_at(v.canvases, s.canvas) {
                Some(c) => placed(v, Ok((c.width, c.height, pixels::straight_bytes(c.data)))),
                None => if s.blob is None && s.pixels is Some {
                    pixels_placed(v, s.pixels->0)
                } else if encoded_bytes(blobs, s).len() == 0 {
                    (v, Err("createImageBitmap: unsupported source"@))
                } else {
                    placed(v, decoded_picture(encoded_bytes(blobs, s)))
                },
            },
        },
    }
}

/// What the caller is told, over plain values.
pub open spec fn told(r: Result<u32, String>) -> Result<u32, Seq<char>> {
    match r {
        Ok(id) => Ok(id),
        Err(e) => Err(e@),
    }
}

/// Keeps a decoded picture as a bitmap, or tells what is wrong with it.
pub fn place_decoded(images: &mut Images, d: Result<(u32, u32, Vec<u8>), String>) -> (r: Result<
    u32,
    String,
>)
    requires
        old(images)@.wf(),
    ensures
        final(images)@.wf(),
        (final(images)@, told(r)) == placed(old(images)@, decoded_view(d)),
{
    match d {
        Ok((width, height, rgba)) => Ok(store_image_bitmap(images, width, height, rgba)),
        Err(e) => {
            let mut out: Vec<char> = Vec::new();
            text::push_text(&mut out, "createImageBitmap decode: ");
            text::push_text(&mut out, &e);
            proof {
                assert(out@ =~= "createImageBitmap decode: "@ + e@);
            }
            Err(text::to_text(&out))
        },
    }
}

fn find_bitmap(images: &Images, id: Option<u32>) -> (r: Option<BitmapEntry>)
    ensures
        match found_at(images@.bitmaps, id) {
            Some(b) => r matches Some(v) && v@ == b,
            None => r is None,
        },
{
    match id {
        Some(id) => source_image(images, ImageSource::Bitmap(id)),
        None => None,
    }
}

fn find_encoded(blobs: &Registry<BlobEntry>, source: &SourceValue) -> (r: Vec<u8>)
    ensures
        r@ == encoded_bytes(registry::views(blobs@), *source),
{
    match source.blob {
        Some(id) => match file::read_blob_bytes(blobs, id) {
            Some(b) => b,
            None => Vec::new(),
        },
        None => bytes::copy_bytes(&source.bytes),
    }
}

fn fills(width: u32, height: u32, length: usize) -> (r: bool)
    ensures
        r == (length > 0 && length == pixels::byte_count(width as int, height as int)),
{
    proof {
        assert(0 <= width * height <= 0xffff_ffff * 0xffff_ffff) by (nonlinear_arith)
            requires
                width <= 0xffff_ffff,
                height <= 0xffff_ffff,
        ;
    }
    length > 0 && length as u128 == width as u128 * height as u128 * 4
}

/// Makes a bitmap of a value: a copy of a bitmap, the picture of a canvas, one with given pixels,
/// or one that bytes encode.
pub fn create_image_bitmap(
    images: &mut Images,
    blobs: &Registry<BlobEntry>,
    source: &Option<SourceValue>,
) -> (r: Result<u32, String>)
    requires
        old(images)@.wf(),
    ensures
        final(images)@.wf(),
        (final(images)@, told(r)) == created(old(images)@, registry::views(blobs@), *source),
{
    let s = match source {
        Some(s) => s,
        None => return Err(text::copy("createImageBitmap: missing source")),
    };
    match find_bitmap(images, s.bitmap) {
        Some(b) => {
            return Ok(store_image_bitmap(images, b.width, b.height, b.rgba));
        },
        None => {},
    }
    if let Some(canvas) = s.canvas {
        if let Some(c) = images.canvases.get(canvas) {
            let (width, height) = (c.width, c.height);
            let rgba = pixels::unpremultiply_rgba(c.pixmap.data());
            return Ok(store_image_bitmap(images, width, height, rgba));
        }
    }
    if let (None, Some(d)) = (&s.blob, &s.pixels) {
        if !fills(d.width, d.height, d.data.len()) {
            return Err(text::copy("createImageBitmap: unsupported source"));
        }
        let rgba = bytes::copy_bytes(&d.data);
        return Ok(store_image_bitmap(images, d.width, d.height, rgba));
    }
    let encoded = find_encoded(blobs, s);
    if encoded.len() == 0 {
        return Err(text::copy("createImageBitmap: unsupported source"));
    }
    let d = decode_picture(&encoded);
    place_decoded(images, d)
}

/// When the oldest have gone, what is left is within the limit, or nothing is left of those that
/// can go.
pub proof fn eviction_meets_the_cap(v: ImagesView)
    ensures
        v.evicted().total_offscreen_bytes() <= OFFSCREEN_TOTAL_BYTE_CAP || (
        v.evicted().canvas_order.len() == 0 && v.evicted().bitmap_order.len() == 0),
    decreases v.canvas_order.len() + v.bitmap_order.len(),
{
    if v.total_offscreen_bytes() > OFFSCREEN_TOTAL_BYTE_CAP {
        if v.canvas_order.len() > 0 {
            eviction_meets_the_cap(
                ImagesView {
                    canvases: without(v.canvases, v.canvas_order[0]),
                    canvas_order: v.canvas_order.skip(1),
                    ..v
                },
            );
        } else if v.bitmap_order.len() > 0 {
            eviction_meets_the_cap(
                ImagesView {
                    bitmaps: without(v.bitmaps, v.bitmap_order[0]),
                    bitmap_order: v.bitmap_order.skip(1),
                    ..v
                },
            );
        }
    }
}

/// A bitmap that came while everything together is within the limit is there, as it was given.
pub proof fn stored_bitmap_is_there(v: ImagesView, b: BitmapView)
    requires
        (ImagesView { bitmaps: with(v.bitmaps, v.next, b), ..v }).total_offscreen_bytes()
            <= OFFSCREEN_TOTAL_BYTE_CAP,
    ensures
        lookup(v.with_new_bitmap(b).bitmaps, v.next) == Some(b),
{
}

/// A bitmap that was let go is not there any more, and every other one is as before.
pub proof fn closed_bitmap_is_gone(s: Seq<(u32, BitmapView)>, id: u32, other: u32)
    ensures
        lookup(without(s, id), other) == if other == id {
            None
        } else {
            lookup(s, other)
        },
    decreases s.len(),
{
    reveal(Seq::filter);
    if s.len() > 0 {
        closed_bitmap_is_gone(s.drop_last(), id, other);
        let t = without(s.drop_last(), id);
        assert(t.push(s.last()).drop_last() =~= t);
    }
}

/// What is put under a number is found there, what is taken away is not, and all other numbers keep
/// what they have.
pub proof fn kept_pictures_are_found<X>(s: Seq<(u32, X)>, id: u32, x: X, other: u32)
    ensures
        lookup(with(s, id, x), id) == Some(x),
        lookup(without(s, id), id) is None,
        other != id ==> lookup(with(s, id, x), other) == lookup(s, other),
        other != id ==> lookup(without(s, id), other) == lookup(s, other),
    decreases s.len(),
{
    reveal(Seq::filter);
    let w = without(s, id);
    assert(w.push((id, x)).drop_last() =~= w);
    if s.len() > 0 {
        let d = s.drop_last();
        kept_pictures_are_found(d, id, x, other);
        if s.last().0 != id {
            assert(w =~= without(d, id).push(s.last()));
            assert(w.drop_last() =~= without(d, id));
        } else {
            assert(w =~= without(d, id));
        }
    }
}

/// Nothing goes while everything is within the limit. What goes are the oldest, canvases before
/// bitmaps: those that stay are the newest, and no bitmap goes while a canvas can.
pub proof fn oldest_go_first(v: ImagesView)
    ensures
        v.total_offscreen_bytes() <= OFFSCREEN_TOTAL_BYTE_CAP ==> v.evicted() == v,
        v.evicted().canvas_order.len() <= v.canvas_order.len(),
        v.evicted().bitmap_order.len() <= v.bitmap_order.len(),
        v.evicted().canvas_order == v.canvas_order.skip(
            v.canvas_order.len() - v.evicted().canvas_order.len(),
        ),
        v.evicted().bitmap_order == v.bitmap_order.skip(
            v.bitmap_order.len() - v.evicted().bitmap_order.len(),
        ),
        v.evicted().canvas_order.len() > 0 ==> v.evicted().bitmaps == v.bitmaps
            && v.evicted().bitmap_order == v.bitmap_order,
        v.evicted().next == v.next,
    decreases v.canvas_order.len() + v.bitmap_order.len(),
{
    assert(v.canvas_order.skip(0) =~= v.canvas_order);
    assert(v.bitmap_order.skip(0) =~= v.bitmap_order);
    if v.total_offscreen_bytes() > OFFSCREEN_TOTAL_BYTE_CAP {
        if v.canvas_order.len() > 0 {
            let u = ImagesView {
                canvases: without(v.canvases, v.canvas_order[0]),
                canvas_order: v.canvas_order.skip(1),
                ..v
            };
            oldest_go_first(u);
            let n = u.canvas_order.len() - u.evicted().canvas_order.len();
            assert(u.canvas_order.skip(n) =~= v.canvas_order.skip(n + 1));
        } else if v.bitmap_order.len() > 0 {
            let u = ImagesView {
                bitmaps: without(v.bitmaps, v.bitmap_order[0]),
                bitmap_order: v.bitmap_order.skip(1),
                ..v
            };
            oldest_go_first(u);
            let n = u.bitmap_order.len() - u.evicted().bitmap_order.len();
            assert(u.bitmap_order.skip(n) =~= v.bitmap_order.skip(n + 1));
        }
    }
}

/// Only what was handed out and went is missing: a canvas that is not among the oldest that went is as
/// it was.
pub proof fn others_outlast_the_oldest(v: ImagesView, id: u32)
    ensures
        !v.canvas_order.contains(id) ==> lookup(v.evicted().canvases, id) == lookup(v.canvases, id),
        !v.bitmap_order.contains(id) ==> lookup(v.evicted().bitmaps, id) == lookup(v.bitmaps, id),
    decreases v.canvas_order.len() + v.bitmap_order.len(),
{
    if v.total_offscreen_bytes() > OFFSCREEN_TOTAL_BYTE_CAP {
        if v.canvas_order.len() > 0 {
            let first = v.canvas_order[0];
            let u = ImagesView {
                canvases: without(v.canvases, first),
                canvas_order: v.canvas_order.skip(1),
                ..v
            };
            others_outlast_the_oldest(u, id);
            assert(v.canvas_order.contains(first));
            if u.canvas_order.contains(id) {
                assert(v.canvas_order[u.canvas_order.index_of(id) + 1] == id);
            }
            if first != id {
                kept_pictures_are_found(v.canvases, first, SurfaceView::cleared(1, 1), id);
            }
        } else if v.bitmap_order.len() > 0 {
            let first = v.bitmap_order[0];
            let u = ImagesView {
                bitmaps: without(v.bitmaps, first),
                bitmap_order: v.bitmap_order.skip(1),
                ..v
            };
            others_outlast_the_oldest(u, id);
            assert(v.bitmap_order.contains(first));
            if u.bitmap_order.contains(id) {
                assert(v.bitmap_order[u.bitmap_order.index_of(id) + 1] == id);
            }
            if first != id {
                let b = BitmapView { width: 0, height: 0, rgba: Seq::empty() };
                kept_pictures_are_found(v.bitmaps, first, b, id);
            }
        }
    }
}

/// A canvas that came while everything together is within the limit is there, the newest of all.
pub proof fn new_canvas_is_there(v: ImagesView, s: SurfaceView)
    requires
        (ImagesView { canvases: with(v.canvases, v.next, s), ..v }).total_offscreen_bytes()
            <= OFFSCREEN_TOTAL_BYTE_CAP,
    ensures
        lookup(v.with_new_canvas(s).canvases, v.next) == Some(s),
        v.with_new_canvas(s).canvas_order == v.canvas_order.push(v.next),
        v.with_new_canvas(s).next == registry::next_after(v.next),
        v.with_new_canvas(s).bitmaps == v.bitmaps,
        size_shown(v.with_new_canvas(s), v.next) == (s.width, s.height),
{
    kept_pictures_are_found(v.canvases, v.next, s, v.next);
}

/// The bytes that are counted are those of all canvases and all bitmaps.
pub proof fn every_picture_counts(
    a: Seq<(u32, SurfaceView)>,
    s: SurfaceView,
    b: Seq<(u32, BitmapView)>,
    m: BitmapView,
    id: u32,
)
    ensures
        canvas_bytes(a.push((id, s))) == canvas_bytes(a) + 4 * (s.width * s.height),
        bitmap_bytes(b.push((id, m))) == bitmap_bytes(b) + m.rgba.len(),
        canvas_bytes(Seq::empty()) == 0,
        bitmap_bytes(Seq::empty()) == 0,
{
    assert(a.push((id, s)).drop_last() =~= a);
    assert(b.push((id, m)).drop_last() =~= b);
}

/// A drawing goes to the canvas with the number and to no other, and nowhere where there is none.
pub proof fn drawings_go_to_their_canvas(
    v: ImagesView,
    id: u32,
    s: SurfaceView,
    f: pixels::Drawing,
    other: u32,
)
    requires
        lookup(v.canvases, id) == Some(s),
    ensures
        lookup(v.painted(id, f).canvases, id) == Some(s.painted(f)),
        other != id ==> lookup(v.painted(id, f).canvases, other) == lookup(v.canvases, other),
        v.painted(id, f).bitmaps == v.bitmaps,
        v.painted(id, f).canvas_order == v.canvas_order,
        lookup(v.canvases, other) is None ==> v.painted(other, f) == v,
        size_shown(v, id) == (s.width, s.height),
        lookup(v.canvases, other) is None ==> size_shown(v, other) == (1u32, 1u32),
{
    kept_pictures_are_found(v.canvases, id, s.painted(f), other);
}

/// A source's picture is drawn where there is one with a size; anything else draws nothing.
pub proof fn sources_are_drawn(
    v: ImagesView,
    id: u32,
    from: u32,
    b: BitmapView,
    s: SurfaceView,
    dx: int,
    dy: int,
    columns: Seq<u32>,
    rows: Seq<u32>,
)
    ensures
        with_image(v, id, ImageSource::Other, dx, dy, columns, rows) == v,
        lookup(v.bitmaps, from) is None ==> with_image(
            v,
            id,
            ImageSource::Bitmap(from),
            dx,
            dy,
            columns,
            rows,
        ) == v,
        lookup(v.bitmaps, from) == Some(b) && b.width > 0 && b.height > 0 ==> with_image(
            v,
            id,
            ImageSource::Bitmap(from),
            dx,
            dy,
            columns,
            rows,
        ) == v.painted(id, pixels::sampled(b.rgba, b.width as int, dx, dy, columns, rows)),
        lookup(v.canvases, from) == Some(s) && s.width > 0 && s.height > 0 ==> with_image(
            v,
            id,
            ImageSource::Canvas(from),
            dx,
            dy,
            columns,
            rows,
        ) == v.painted(id, pixels::sampled(s.data, s.width as int, dx, dy, columns, rows)),
{
}

/// A canvas that gives its picture away is transparent afterwards, and the bitmap has its straight
/// pixels, as long as everything is within the limit.
pub proof fn transferred_pictures_move(v: ImagesView, id: u32, s: SurfaceView)
    requires
        lookup(v.canvases, id) == Some(s),
        ({
            let b = BitmapView {
                width: s.width,
                height: s.height,
                rgba: pixels::straight_bytes(s.data),
            };
            let u = v.with_canvas(id, SurfaceView::cleared(s.width, s.height));
            (ImagesView { bitmaps: with(u.bitmaps, u.next, b), ..u }).total_offscreen_bytes()
                <= OFFSCREEN_TOTAL_BYTE_CAP
        }),
    ensures
        lookup(transferred(v, id).canvases, id) == Some(SurfaceView::cleared(s.width, s.height)),
        lookup(transferred(v, id).bitmaps, v.next) matches Some(b) && b.width == s.width && b.height
            == s.height && b.rgba == pixels::straight_bytes(s.data),
{
    let u = v.with_canvas(id, SurfaceView::cleared(s.width, s.height));
    let b = BitmapView { width: s.width, height: s.height, rgba: pixels::straight_bytes(s.data) };
    kept_pictures_are_found(v.canvases, id, SurfaceView::cleared(s.width, s.height), id);
    stored_bitmap_is_there(u, b);
}

/// A bitmap is made of a bitmap before a canvas, of a canvas before pixels, and of pixels before what
/// has to be decoded. Pixels make one only where there are as many bytes as their size asks for. What
/// cannot be made leaves everything as it was.
pub proof fn bitmaps_are_made_of_their_source(
    v: ImagesView,
    blobs: RegistryView<BlobView>,
    s: SourceValue,
    b: BitmapView,
    c: SurfaceView,
)
    ensures
        created(v, blobs, None).0 == v && created(v, blobs, None).1 is Err,
        found_at(v.bitmaps, s.bitmap) == Some(b) ==> created(v, blobs, Some(s)) == (
            v.with_new_bitmap(b),
            Ok::<u32, Seq<char>>(v.next),
        ),
        found_at(v.bitmaps, s.bitmap) is None && found_at(v.canvases, s.canvas) == Some(c)
            ==> created(v, blobs, Some(s)) == (
            v.with_new_bitmap(
                BitmapView {
                    width: c.width,
                    height: c.height,
                    rgba: pixels::straight_bytes(c.data),
                },
            ),
            Ok::<u32, Seq<char>>(v.next),
        ),
        found_at(v.bitmaps, s.bitmap) is None && found_at(v.canvases, s.canvas) is None && s.blob
            is None ==> (s.pixels matches Some(d) ==> {
            let whole = d.data@.len() > 0 && d.data@.len() == 4 * (d.width * d.height);
            &&& whole ==> created(v, blobs, Some(s)) == (
                v.with_new_bitmap(
                    BitmapView { width: d.width, height: d.height, rgba: d.data@ },
                ),
                Ok::<u32, Seq<char>>(v.next),
            )
            &&& !whole ==> created(v, blobs, Some(s)).0 == v && created(v, blobs, Some(s)).1 is Err
        }),
        found_at(v.bitmaps, s.bitmap) is None && found_at(v.canvases, s.canvas) is None && s.blob
            is None && s.pixels is None && s.bytes@.len() == 0 ==> created(v, blobs, Some(s)).0 == v
            && created(v, blobs, Some(s)).1 is Err,
        created(v, blobs, Some(s)).1 is Err ==> created(v, blobs, Some(s)).0 == v,
{
}

/// A fill style is read as digits behind their sign, as decimal numbers between the brackets of either
/// form, or by name; three numbers are opaque, and a fourth gives the opacity where it can be read.
pub proof fn fill_styles_are_read(
    a: Seq<char>,
    parts: Seq<Seq<char>>,
    c: Color,
    opacity: Option<u8>,
    s: Seq<char>,
)
    requires
        a.len() > 0,
        text::trimmed(a) == a,
    ensures
        fill_style("#"@ + a, opacity) == color::hex_color(a),
        fill_style("rgb("@ + a.push(')'), opacity) == parts_color(color::comma_parts(a), opacity),
        fill_style("rgba("@ + a.push(')'), opacity) == parts_color(color::comma_parts(a), opacity),
        parts.len() < 3 ==> parts_color(parts, opacity) is None,
        parts.len() == 3 && color::decimal_byte(parts[0]) == Some(c.r) && color::decimal_byte(
            parts[1],
        ) == Some(c.g) && color::decimal_byte(parts[2]) == Some(c.b) ==> parts_color(parts, opacity)
            == Some(Color { r: c.r, g: c.g, b: c.b, a: 255 }),
        parts.len() == 4 && color::decimal_byte(parts[0]) == Some(c.r) && color::decimal_byte(
            parts[1],
        ) == Some(c.g) && color::decimal_byte(parts[2]) == Some(c.b) ==> parts_color(
            parts,
            Some(c.a),
        ) == Some(c) && parts_color(parts, None) == Some(Color { r: c.r, g: c.g, b: c.b, a: 255 }),
        keyword_color(s) == Some(c) && text::lower(s) == s ==> crate::canvas::named_color(s) == Some(
            c,
        ),
        s == "black"@ || s == "white"@ || s == "red"@ || s == "green"@ || s == "blue"@ || s
            == "transparent"@ <==> keyword_color(s) is Some,
{
    lemma_keywords_agree(s, c);
    reveal_strlit("rgb(");
    reveal_strlit("rgba(");
    reveal_strlit("#");
    let p = "rgb("@ + a.push(')');
    let q = "rgba("@ + a.push(')');
    let h = "#"@ + a;
    assert(p[0] == 'r' && q[0] == 'r' && h[0] == '#');
    assert(p.last() == ')' && q.last() == ')' && h.last() == a.last());
    text::spaces_are_not_seen(')');
    text::spaces_are_not_seen('r');
    text::spaces_are_not_seen('#');
    text::lemma_trim_ends(a, text::CharClass::Space);
    text::lemma_trimmed(p, text::CharClass::Space);
    text::lemma_trimmed(q, text::CharClass::Space);
    text::lemma_trimmed(h, text::CharClass::Space);
    text::beginnings_and_ends(h, "#"@, a);
    text::beginnings_and_ends(p, "#"@, a);
    text::beginnings_and_ends(q, "#"@, a);
    assert(p[3] == '(' && "rgba("@[3] == 'a');
    if text::begins(p, "#"@) {
        assert(p.take(1)[0] == p[0]);
    }
    if text::begins(q, "#"@) {
        assert(q.take(1)[0] == q[0]);
    }
    if text::begins(p, "rgba("@) {
        assert(p.take(5)[3] == p[3]);
    }
    color::lists_are_read(a, a, "rgb("@, 0);
    color::lists_are_read(a, a, "rgba("@, 0);
    color::lists_are_read(p, a, "rgba("@, 0);
}

proof fn lemma_keywords_agree(s: Seq<char>, c: Color)
    ensures
        keyword_color(s) == Some(c) && text::lower(s) == s ==> crate::canvas::named_color(s) == Some(
            c,
        ),
{
    reveal_strlit("black");
    reveal_strlit("white");
    reveal_strlit("red");
    reveal_strlit("green");
    reveal_strlit("blue");
    reveal_strlit("yellow");
    reveal_strlit("cyan");
    reveal_strlit("magenta");
    reveal_strlit("gray");
    reveal_strlit("grey");
    reveal_strlit("transparent");
    assert("gray"@.len() == 4 && "grey"@.len() == 4 && "blue"@.len() == 4 && "cyan"@.len() == 4);
    assert("black"@.len() == 5 && "white"@.len() == 5 && "green"@.len() == 5 && "red"@.len() == 3);
    assert("yellow"@.len() == 6 && "magenta"@.len() == 7 && "transparent"@.len() == 11);
    assert("black"@[0] == 'b' && "white"@[0] == 'w' && "green"@[0] == 'g' && "blue"@[0] == 'b'
        && "cyan"@[0] == 'c' && "gray"@[0] == 'g' && "grey"@[0] == 'g');
}

/// A length below zero counts as none, and so does one that is too long; a side is never none.
pub proof fn lengths_are_bounded(n: i32, m: u32)
    ensures
        n >= 0 ==> not_negative(n) == n,
        n <= 0 ==> not_negative(n) == 0,
        m <= i32::MAX ==> length_taken(m) == m,
        m > i32::MAX ==> length_taken(m) == 0,
        m > 0 ==> at_least_one(m) == m,
        at_least_one(0) == 1,
{
}

} // verus!
