//! The pixels of a surface that is drawn on away from the screen.
//!
//! A surface keeps its colours multiplied by their opacity, four bytes to a pixel, row by row.
//! Pictures that go in and come out are straight: their colours are not multiplied.
use crate::color::Color;
use tiny_skia::Pixmap;
use vstd::prelude::*;

verus! {

/// The pixel buffer of `tiny_skia`, which is opaque here but for the bytes that it holds.
#[verifier::external_type_specification]
#[verifier::external_body]
pub struct PixmapOutside(tiny_skia::Pixmap);

/// The bytes that a pixel buffer holds.
pub uninterp spec fn bytes_of(p: tiny_skia::Pixmap) -> Seq<u8>;

/// The number of bytes of a picture.
pub open spec fn byte_count(width: int, height: int) -> int {
    4 * (width * height)
}

/// Whether a pixel buffer of this size can be had.
pub open spec fn has_size(width: u32, height: u32) -> bool {
    0 < width && 0 < height && 4 * width <= i32::MAX && byte_count(
        width as int,
        height as int,
    ) <= usize::MAX
}

/// Whether a pixel buffer of this size, if it can be had, is within what can be allocated.
pub open spec fn is_allocatable(width: u32, height: u32) -> bool {
    has_size(width, height) ==> byte_count(width as int, height as int) <= isize::MAX
}

/// The bytes of a picture that is transparent all over.
pub open spec fn blank(width: u32, height: u32) -> Seq<u8> {
    Seq::new(byte_count(width as int, height as int) as nat, |i: int| 0u8)
}

/// `tiny_skia::Pixmap::new` gives a transparent buffer where neither side is zero, a row is within
/// the range of an `i32` and the whole is within that of a `usize`, and nothing otherwise. It
/// panics on sizes that no allocation can have.
pub assume_specification[ tiny_skia::Pixmap::new ](width: u32, height: u32) -> (r: Option<Pixmap>)
    requires
        is_allocatable(width, height),
    ensures
        r is Some <==> has_size(width, height),
        r is Some ==> bytes_of(r->0) == blank(width, height),
;

/// `tiny_skia::Pixmap::data` gives the bytes of the buffer.
pub assume_specification[ tiny_skia::Pixmap::data ](p: &Pixmap) -> (r: &[u8])
    ensures
        r@ == bytes_of(*p),
;

/// Writes one byte of a buffer through `tiny_skia::Pixmap::data_mut`, which lends all of its
/// bytes.
#[verifier::external_body]
fn set_byte(p: &mut Pixmap, at: usize, byte: u8)
    requires
        at < bytes_of(*old(p)).len(),
    ensures
        bytes_of(*final(p)) == bytes_of(*old(p)).update(at as int, byte),
{
    p.data_mut()[at] = byte;
}

/// A surface to draw on.
pub struct OffscreenSurface {
    pub width: u32,
    pub height: u32,
    pub pixmap: Pixmap,
}

/// The size of a surface, and its bytes.
#[verifier::ext_equal]
pub ghost struct SurfaceView {
    pub width: u32,
    pub height: u32,
    pub data: Seq<u8>,
}

impl View for OffscreenSurface {
    type V = SurfaceView;

    open spec fn view(&self) -> SurfaceView {
        SurfaceView { width: self.width, height: self.height, data: bytes_of(self.pixmap) }
    }
}

/// One of the four bytes of a pixel.
pub open spec fn channel(c: Color, k: int) -> u8 {
    if k == 0 {
        c.r
    } else if k == 1 {
        c.g
    } else if k == 2 {
        c.b
    } else {
        c.a
    }
}

/// A pixel of a picture.
pub open spec fn cell(d: Seq<u8>, p: int) -> Color {
    Color { r: d[4 * p], g: d[4 * p + 1], b: d[4 * p + 2], a: d[4 * p + 3] }
}

/// What is to be drawn: the colour for a column and a row, where there is one.
pub type Drawing = spec_fn(int, int) -> Option<Color>;

impl SurfaceView {
    /// Whether the bytes are those of a buffer of this size.
    pub open spec fn wf(self) -> bool {
        &&& has_size(self.width, self.height)
        &&& is_allocatable(self.width, self.height)
        &&& self.data.len() == byte_count(self.width as int, self.height as int)
    }

    /// A surface that is transparent all over.
    pub open spec fn cleared(width: u32, height: u32) -> SurfaceView {
        SurfaceView { width, height, data: blank(width, height) }
    }

    /// The surface with a drawing put on it.
    pub open spec fn drawn(self, f: Drawing) -> SurfaceView {
        SurfaceView {
            data: Seq::new(
                self.data.len(),
                |k: int|
                    match f((k / 4) % self.width as int, (k / 4) / self.width as int) {
                        Some(c) => channel(c, k % 4),
                        None => self.data[k],
                    },
            ),
            ..self
        }
    }

    /// The surface with a drawing put on it, if its rows can be told by an `i32`; a higher one
    /// takes no drawing.
    pub open spec fn painted(self, f: Drawing) -> SurfaceView {
        if self.height <= i32::MAX {
            self.drawn(f)
        } else {
            self
        }
    }
}

/// A colour with its parts multiplied by its opacity.
pub open spec fn premultiplied(c: Color) -> Color {
    Color {
        r: (c.r * c.a / 255) as u8,
        g: (c.g * c.a / 255) as u8,
        b: (c.b * c.a / 255) as u8,
        a: c.a,
    }
}

/// A part of a colour divided by the opacity, to the nearest, and cut to a byte.
pub open spec fn divided(v: u8, a: u8) -> u8 {
    (((v * 255 + a as int / 2) / a as int) % 256) as u8
}

/// A colour whose parts were multiplied by its opacity, with them as they were.
pub open spec fn straightened(c: Color) -> Color {
    if c.a == 0 {
        Color { r: 0, g: 0, b: 0, a: 0 }
    } else {
        Color { r: divided(c.r, c.a), g: divided(c.g, c.a), b: divided(c.b, c.a), a: c.a }
    }
}

/// Multiplies the parts of a colour by its opacity.
pub fn premultiply(c: Color) -> (r: Color)
    ensures
        r == premultiplied(c),
{
    Color { r: scale(c.r, c.a), g: scale(c.g, c.a), b: scale(c.b, c.a), a: c.a }
}

fn scale(v: u8, a: u8) -> (r: u8)
    ensures
        r == (v * a / 255) as u8,
{
    proof {
        assert(0 <= v * a <= 255 * 255) by (nonlinear_arith)
            requires
                v <= 255,
                a <= 255,
        ;
    }
    ((v as u32 * a as u32) / 255) as u8
}

fn unscale(v: u8, a: u8) -> (r: u8)
    requires
        a > 0,
    ensures
        r == divided(v, a),
{
    let n: u32 = v as u32 * 255 + a as u32 / 2;
    ((n / a as u32) % 256) as u8
}

/// Divides the parts of a colour by its opacity.
pub fn straighten(c: Color) -> (r: Color)
    ensures
        r == straightened(c),
{
    if c.a == 0 {
        Color { r: 0, g: 0, b: 0, a: 0 }
    } else {
        Color { r: unscale(c.r, c.a), g: unscale(c.g, c.a), b: unscale(c.b, c.a), a: c.a }
    }
}

/// An opaque colour goes in and comes out as it is.
pub proof fn opaque_colours_come_back(c: Color)
    requires
        c.a == 255,
    ensures
        straightened(premultiplied(c)) == c,
{
    lemma_opaque_part(c.r);
    lemma_opaque_part(c.g);
    lemma_opaque_part(c.b);
}

proof fn lemma_opaque_part(v: u8)
    ensures
        divided((v * 255 / 255) as u8, 255) == v,
{
    assert((v * 255 / 255) as u8 == v);
    assert((v * 255 + 127) / 255 == v as int);
}

/// The bytes of a straight picture, of the pixels of one with multiplied colours that are whole.
pub open spec fn straight_bytes(d: Seq<u8>) -> Seq<u8> {
    Seq::new(4 * (d.len() / 4), |k: int| channel(straightened(cell(d, k / 4)), k % 4))
}

/// The pixel that starts at a place of some bytes.
fn read_cell(d: &[u8], p: usize) -> (r: Color)
    requires
        4 * p + 3 < d@.len(),
    ensures
        r == cell(d@, p as int),
{
    let n: usize = d.len();
    let at: usize = 4 * p;
    Color { r: d[at], g: d[at + 1], b: d[at + 2], a: d[at + 3] }
}

fn push_color(out: &mut Vec<u8>, c: Color)
    ensures
        final(out)@ == old(out)@ + seq![c.r, c.g, c.b, c.a],
{
    out.push(c.r);
    out.push(c.g);
    out.push(c.b);
    out.push(c.a);
}

/// Divides the colours of a picture by their opacity.
pub fn unpremultiply_rgba(src: &[u8]) -> (r: Vec<u8>)
    ensures
        r@ == straight_bytes(src@),
{
    let n: usize = src.len() / 4;
    let mut out: Vec<u8> = Vec::new();
    let mut p: usize = 0;
    while p < n
        invariant
            p <= n,
            n == src@.len() / 4,
            src@.len() <= usize::MAX,
            out@.len() == 4 * p,
            forall|k: int|
                0 <= k < 4 * p ==> out@[k] == #[trigger] straight_bytes(src@)[k],
        decreases n - p,
    {
        let ghost before = out@;
        push_color(&mut out, straighten(read_cell(src, p)));
        proof {
            assert forall|k: int| 0 <= k < 4 * (p + 1) implies out@[k] == #[trigger] straight_bytes(
                src@,
            )[k] by {
                if k < 4 * p {
                    assert(out@[k] == before[k]);
                } else {
                    assert(k / 4 == p);
                }
            }
        }
        p = p + 1;
    }
    proof {
        assert(out@ =~= straight_bytes(src@));
    }
    out
}

/// A column and a row tell one pixel from all others.
proof fn lemma_place(width: int, col: int, row: int, p: int)
    requires
        0 <= col < width,
        0 <= row,
        0 <= p,
    ensures
        p == row * width + col <==> p % width == col && p / width == row,
{
    if p == row * width + col {
        vstd::arithmetic::div_mod::lemma_fundamental_div_mod_converse(p, width, row, col);
    } else if p % width == col && p / width == row {
        vstd::arithmetic::div_mod::lemma_fundamental_div_mod(p, width);
        assert(width * row == row * width) by (nonlinear_arith);
    }
}

proof fn lemma_within(width: int, height: int, col: int, row: int)
    requires
        0 <= col < width,
        0 <= row < height,
    ensures
        0 <= row * width + col < width * height,
{
    assert(0 <= row * width + col < width * height) by (nonlinear_arith)
        requires
            0 <= col < width,
            0 <= row < height,
    ;
}

/// The drawing of one pixel.
pub open spec fn one_cell(col: int, row: int, c: Color) -> Drawing {
    |x: int, y: int|
        if x == col && y == row {
            Some(c)
        } else {
            None
        }
}

/// The part of a drawing that comes before a pixel, row by row.
spec fn before_cell(f: Drawing, row: int, col: int) -> Drawing {
    |x: int, y: int|
        if y < row || (y == row && x < col) {
            f(x, y)
        } else {
            None
        }
}

/// Whether a drawing has nothing outside a rectangle.
spec fn is_inside(f: Drawing, x0: int, y0: int, x1: int, y1: int) -> bool {
    forall|x: int, y: int|
        !(x0 <= x < x1 && y0 <= y < y1) ==> #[trigger] f(x, y) is None
}

proof fn lemma_next_cell(s: SurfaceView, f: Drawing, row: int, col: int)
    ensures
        s.drawn(before_cell(f, row, col + 1)) == match f(col, row) {
            Some(c) => s.drawn(before_cell(f, row, col)).drawn(one_cell(col, row, c)),
            None => s.drawn(before_cell(f, row, col)),
        },
{
    let a = s.drawn(before_cell(f, row, col + 1));
    match f(col, row) {
        Some(c) => {
            assert(a.data =~= s.drawn(before_cell(f, row, col)).drawn(one_cell(col, row, c)).data);
        },
        None => {
            assert(a.data =~= s.drawn(before_cell(f, row, col)).data);
        },
    }
}

proof fn lemma_next_row(s: SurfaceView, f: Drawing, row: int, x0: int, x1: int, y0: int, y1: int)
    requires
        is_inside(f, x0, y0, x1, y1),
        x0 <= x1,
    ensures
        s.drawn(before_cell(f, row, x1)) == s.drawn(before_cell(f, row + 1, x0)),
{
    assert(s.drawn(before_cell(f, row, x1)).data =~= s.drawn(before_cell(f, row + 1, x0)).data);
}

proof fn lemma_all_rows(s: SurfaceView, f: Drawing, x0: int, x1: int, y0: int, y1: int)
    requires
        is_inside(f, x0, y0, x1, y1),
    ensures
        s.drawn(before_cell(f, y0, x0)) == s,
        s.drawn(before_cell(f, y1, x0)) == s.drawn(f),
        x0 >= x1 || y0 >= y1 ==> s.drawn(f) == s,
{
    assert(s.drawn(before_cell(f, y0, x0)).data =~= s.data);
    assert(s.drawn(before_cell(f, y1, x0)).data =~= s.drawn(f).data);
    if x0 >= x1 || y0 >= y1 {
        assert(s.drawn(f).data =~= s.data);
    }
}

/// What a rectangle is filled with.
pub enum Brush<'a> {
    /// One colour, multiplied by its opacity.
    Flat(Color),
    /// A straight picture with its first pixel at a column and a row.
    Picture { src: &'a [u8], width: u32, dx: i32, dy: i32 },
    /// A straight picture of which the columns and the rows that are given are taken.
    Sampled { src: &'a [u8], width: u32, dx: i32, dy: i32, columns: &'a [u32], rows: &'a [u32] },
}

/// The pixel of a straight picture, multiplied by its opacity, if the picture reaches so far.
pub open spec fn source_cell(d: Seq<u8>, p: int) -> Option<Color> {
    if 0 <= p && 4 * p + 4 <= d.len() {
        Some(premultiplied(cell(d, p)))
    } else {
        None
    }
}

impl<'a> Brush<'a> {
    /// The colour that comes to a column and a row.
    pub open spec fn color_at(self, x: int, y: int) -> Option<Color> {
        match self {
            Brush::Flat(c) => Some(c),
            Brush::Picture { src, width, dx, dy } => source_cell(
                src@,
                (y - dy) * width + (x - dx),
            ),
            Brush::Sampled { src, width, dx, dy, columns, rows } => source_cell(
                src@,
                rows@[y - dy] * width + columns@[x - dx],
            ),
        }
    }

    /// Whether the brush has something to say of a rectangle.
    spec fn covers(self, x0: int, y0: int, x1: int, y1: int) -> bool {
        match self {
            Brush::Flat(_) => true,
            Brush::Picture { src, width, dx, dy } => dx <= x0 && x1 <= dx + width && dy <= y0 && y1
                <= i32::MAX,
            Brush::Sampled { src, width, dx, dy, columns, rows } => dx <= x0 && x1 <= dx
                + columns@.len() && dy <= y0 && y1 <= dy + rows@.len(),
        }
    }

    fn at(&self, x: i64, y: i64) -> (r: Option<Color>)
        requires
            0 <= x <= i32::MAX,
            0 <= y <= i32::MAX,
            self.covers(x as int, y as int, x + 1, y + 1),
        ensures
            r == self.color_at(x as int, y as int),
    {
        match self {
            Brush::Flat(c) => Some(*c),
            Brush::Picture { src, width, dx, dy } => {
                let row: u128 = (y - *dy as i64) as u128;
                let col: u128 = (x - *dx as i64) as u128;
                pick(src, *width, col, row)
            },
            Brush::Sampled { src, width, dx, dy, columns, rows } => {
                let row: usize = (y - *dy as i64) as usize;
                let col: usize = (x - *dx as i64) as usize;
                pick(src, *width, columns[col] as u128, rows[row] as u128)
            },
        }
    }
}

/// The pixel of a straight picture, multiplied by its opacity.
fn pick(src: &[u8], width: u32, col: u128, row: u128) -> (r: Option<Color>)
    requires
        col <= 0x1_0000_0000,
        row <= 0x1_0000_0000,
    ensures
        r == source_cell(src@, row * width + col),
{
    proof {
        assert(0 <= row * width <= 0x1_0000_0000 * 0x1_0000_0000) by (nonlinear_arith)
            requires
                0 <= row <= 0x1_0000_0000,
                0 <= width <= 0x1_0000_0000,
        ;
    }
    let p: u128 = row * width as u128 + col;
    let n: usize = src.len();
    if 4 * p + 4 <= n as u128 {
        Some(premultiply(read_cell(src, p as usize)))
    } else {
        None
    }
}

/// The drawing of a rectangle with a brush.
spec fn brushed(b: Brush<'_>, x0: int, y0: int, x1: int, y1: int) -> Drawing {
    |x: int, y: int|
        if x0 <= x < x1 && y0 <= y < y1 {
            b.color_at(x, y)
        } else {
            None
        }
}

impl OffscreenSurface {
    /// A transparent surface, where one of this size can be had.
    pub fn new(width: u32, height: u32) -> (r: Option<OffscreenSurface>)
        requires
            is_allocatable(width, height),
        ensures
            r is Some <==> has_size(width, height),
            r is Some ==> r->0@ == SurfaceView::cleared(width, height) && r->0@.wf(),
    {
        match Pixmap::new(width, height) {
            Some(pixmap) => {
                proof {
                    lemma_count(width, height);
                }
                Some(OffscreenSurface { width, height, pixmap })
            },
            None => None,
        }
    }

    /// Gives one pixel a colour.
    fn set_cell(&mut self, col: usize, row: usize, c: Color)
        requires
            old(self)@.wf(),
            col < old(self).width,
            row < old(self).height,
        ensures
            final(self)@ == old(self)@.drawn(one_cell(col as int, row as int, c)),
    {
        let ghost start = self@;
        let ghost w = self.width as int;
        proof {
            lemma_within(w, self.height as int, col as int, row as int);
            assert(0 <= row * w) by (nonlinear_arith)
                requires
                    0 <= row,
                    0 <= w,
            ;
        }
        let p: usize = row * self.width as usize + col;
        let at: usize = 4 * p;
        set_byte(&mut self.pixmap, at, c.r);
        set_byte(&mut self.pixmap, at + 1, c.g);
        set_byte(&mut self.pixmap, at + 2, c.b);
        set_byte(&mut self.pixmap, at + 3, c.a);
        proof {
            let f = one_cell(col as int, row as int, c);
            assert forall|k: int| 0 <= k < start.data.len() implies self@.data[k] == #[trigger] start.drawn(
                f,
            ).data[k] by {
                lemma_place(w, col as int, row as int, k / 4);
                assert(k == 4 * (k / 4) + k % 4);
            }
            assert(self@.data =~= start.drawn(f).data);
        }
    }

    /// Fills a rectangle of the surface.
    fn sweep(&mut self, b: &Brush<'_>, x0: i64, y0: i64, x1: i64, y1: i64)
        requires
            old(self)@.wf(),
            0 <= x0 <= x1 <= old(self).width,
            0 <= y0 <= y1 <= old(self).height,
            y1 <= i32::MAX,
            b.covers(x0 as int, y0 as int, x1 as int, y1 as int),
        ensures
            final(self)@ == old(self)@.drawn(
                brushed(*b, x0 as int, y0 as int, x1 as int, y1 as int),
            ),
    {
        let ghost start = self@;
        let ghost f = brushed(*b, x0 as int, y0 as int, x1 as int, y1 as int);
        proof {
            lemma_all_rows(start, f, x0 as int, x1 as int, y0 as int, y1 as int);
        }
        let mut y: i64 = y0;
        while y < y1
            invariant
                start.wf(),
                f == brushed(*b, x0 as int, y0 as int, x1 as int, y1 as int),
                is_inside(f, x0 as int, y0 as int, x1 as int, y1 as int),
                0 <= x0 <= x1 <= start.width,
                0 <= y0 <= y <= y1 <= start.height,
                y1 <= i32::MAX,
                b.covers(x0 as int, y0 as int, x1 as int, y1 as int),
                self@ == start.drawn(before_cell(f, y as int, x0 as int)),
            decreases y1 - y,
        {
            let mut x: i64 = x0;
            while x < x1
                invariant
                    start.wf(),
                    f == brushed(*b, x0 as int, y0 as int, x1 as int, y1 as int),
                    0 <= x0 <= x <= x1 <= start.width,
                    0 <= y0 <= y < y1 <= start.height,
                    y1 <= i32::MAX,
                    b.covers(x0 as int, y0 as int, x1 as int, y1 as int),
                    self@ == start.drawn(before_cell(f, y as int, x as int)),
                decreases x1 - x,
            {
                proof {
                    lemma_next_cell(start, f, y as int, x as int);
                    assert(f(x as int, y as int) == b.color_at(x as int, y as int));
                }
                match b.at(x, y) {
                    Some(c) => {
                        self.set_cell(x as usize, y as usize, c);
                    },
                    None => {},
                }
                x = x + 1;
            }
            proof {
                lemma_next_row(start, f, y as int, x0 as int, x1 as int, y0 as int, y1 as int);
            }
            y = y + 1;
        }
    }
}

/// A drawing matters only where the surface is.
proof fn lemma_same_drawing(s: SurfaceView, f: Drawing, g: Drawing)
    requires
        s.wf(),
        forall|x: int, y: int|
            0 <= x < s.width && 0 <= y < s.height ==> #[trigger] f(x, y) == g(x, y),
    ensures
        s.drawn(f) == s.drawn(g),
{
    let w = s.width as int;
    let h = s.height as int;
    assert forall|k: int| 0 <= k < s.data.len() implies #[trigger] s.drawn(f).data[k] == s.drawn(
        g,
    ).data[k] by {
        vstd::arithmetic::div_mod::lemma_multiply_divide_lt(k / 4, w, h);
        vstd::arithmetic::div_mod::lemma_fundamental_div_mod(k / 4, w);
        vstd::arithmetic::div_mod::lemma_div_pos_is_pos(k / 4, w);
        assert(f((k / 4) % w, (k / 4) / w) == g((k / 4) % w, (k / 4) / w));
    }
    assert(s.drawn(f).data =~= s.drawn(g).data);
}

/// The drawing of a rectangle in one colour.
pub open spec fn flat(x: int, y: int, w: int, h: int, c: Color) -> Drawing {
    |col: int, row: int|
        if x <= col < x + w && y <= row < y + h {
            Some(c)
        } else {
            None
        }
}

/// The drawing of a straight picture with its first pixel at a column and a row.
pub open spec fn picture(src: Seq<u8>, w: int, h: int, dx: int, dy: int) -> Drawing {
    |col: int, row: int|
        if dx <= col < dx + w && dy <= row < dy + h {
            source_cell(src, (row - dy) * w + (col - dx))
        } else {
            None
        }
}

/// The drawing of a straight picture as wide as the columns of it that are taken, and as high as
/// the rows.
pub open spec fn sampled(
    src: Seq<u8>,
    width: int,
    dx: int,
    dy: int,
    columns: Seq<u32>,
    rows: Seq<u32>,
) -> Drawing {
    |col: int, row: int|
        if dx <= col < dx + columns.len() && dy <= row < dy + rows.len() {
            source_cell(src, rows[row - dy] * width + columns[col - dx])
        } else {
            None
        }
}

spec fn larger(a: int, b: int) -> int {
    if a > b {
        a
    } else {
        b
    }
}

spec fn smaller(a: int, b: int) -> int {
    if a < b {
        a
    } else {
        b
    }
}

/// The part of a side that is on a surface: from where, and up to where.
fn clipped(from: i32, length: u64, limit: u32) -> (r: (i64, i64))
    ensures
        0 <= r.0 <= r.1 <= limit,
        r.0 < r.1 ==> r.0 == larger(from as int, 0) && r.1 == smaller(from + length, limit as int),
        r.0 == r.1 ==> larger(from as int, 0) >= smaller(from + length, limit as int),
{
    let start: i128 = if from < 0 {
        0
    } else {
        from as i128
    };
    let stop: i128 = from as i128 + length as i128;
    let end: i128 = if stop < limit as i128 {
        stop
    } else {
        limit as i128
    };
    if start < end {
        (start as i64, end as i64)
    } else {
        (0, 0)
    }
}

/// Fills a rectangle with a colour of an opacity. What lies outside the surface is left out.
pub fn fill_rect(
    surface: &mut OffscreenSurface,
    x: i32,
    y: i32,
    w: i32,
    h: i32,
    color: Color,
    opacity: u8,
)
    requires
        old(surface)@.wf(),
    ensures
        final(surface)@ == old(surface)@.painted(
            flat(
                x as int,
                y as int,
                w as int,
                h as int,
                premultiplied(Color { a: opacity, ..color }),
            ),
        ),
{
    let ghost start = surface@;
    let c = premultiply(Color { a: opacity, ..color });
    let ghost f = flat(x as int, y as int, w as int, h as int, c);
    if surface.height > 0x7fff_ffff {
        return;
    }
    if w <= 0 || h <= 0 {
        proof {
            lemma_all_rows(start, f, x as int, x + w, y as int, y + h);
        }
        return;
    }
    let (x0, x1) = clipped(x, w as u64, surface.width);
    let (y0, y1) = clipped(y, h as u64, surface.height);
    let b = Brush::Flat(c);
    surface.sweep(&b, x0, y0, x1, y1);
    proof {
        lemma_same_drawing(start, brushed(b, x0 as int, y0 as int, x1 as int, y1 as int), f);
    }
}

/// Draws a straight picture. What lies outside the surface, or past the end of the picture's
/// bytes, is left out.
pub fn blit_straight_rgba(
    surface: &mut OffscreenSurface,
    src: &[u8],
    sw: i32,
    sh: i32,
    dx: i32,
    dy: i32,
)
    requires
        old(surface)@.wf(),
    ensures
        final(surface)@ == old(surface)@.painted(
            picture(src@, sw as int, sh as int, dx as int, dy as int),
        ),
{
    let ghost start = surface@;
    let ghost f = picture(src@, sw as int, sh as int, dx as int, dy as int);
    if surface.height > 0x7fff_ffff {
        return;
    }
    if sw <= 0 || sh <= 0 {
        proof {
            lemma_all_rows(start, f, dx as int, dx + sw, dy as int, dy + sh);
        }
        return;
    }
    let (x0, x1) = clipped(dx, sw as u64, surface.width);
    let (y0, y1) = clipped(dy, sh as u64, surface.height);
    if x0 < x1 && y0 < y1 {
        let b = Brush::Picture { src, width: sw as u32, dx, dy };
        surface.sweep(&b, x0, y0, x1, y1);
        proof {
            lemma_same_drawing(start, brushed(b, x0 as int, y0 as int, x1 as int, y1 as int), f);
        }
    } else {
        proof {
            let none = |x: int, y: int| None::<Color>;
            lemma_all_rows(start, none, 0, 0, 0, 0);
            lemma_same_drawing(start, none, f);
        }
    }
}

/// Draws a straight picture of which the given columns and rows are taken. What lies outside the
/// surface, or past the end of the picture's bytes, is left out.
pub fn blit_scaled(
    surface: &mut OffscreenSurface,
    src: &[u8],
    sw: u32,
    sh: u32,
    dx: i32,
    dy: i32,
    columns: &[u32],
    rows: &[u32],
)
    requires
        old(surface)@.wf(),
    ensures
        final(surface)@ == if sw == 0 || sh == 0 {
            old(surface)@
        } else {
            old(surface)@.painted(sampled(src@, sw as int, dx as int, dy as int, columns@, rows@))
        },
{
    let ghost start = surface@;
    let ghost f = sampled(src@, sw as int, dx as int, dy as int, columns@, rows@);
    if sw == 0 || sh == 0 || surface.height > 0x7fff_ffff {
        return;
    }
    let wide: usize = columns.len();
    let high: usize = rows.len();
    let (x0, x1) = clipped(dx, wide as u64, surface.width);
    let (y0, y1) = clipped(dy, high as u64, surface.height);
    if x0 < x1 && y0 < y1 {
        let b = Brush::Sampled { src, width: sw, dx, dy, columns, rows };
        surface.sweep(&b, x0, y0, x1, y1);
        proof {
            lemma_same_drawing(start, brushed(b, x0 as int, y0 as int, x1 as int, y1 as int), f);
        }
    } else {
        proof {
            let none = |x: int, y: int| None::<Color>;
            lemma_all_rows(start, none, 0, 0, 0, 0);
            lemma_same_drawing(start, none, f);
        }
    }
}

/// The straight colour at a column and a row, which is transparent outside the surface.
pub open spec fn color_seen(s: SurfaceView, x: int, y: int) -> Color {
    if 0 <= x < s.width && 0 <= y < s.height && s.height <= i32::MAX {
        straightened(cell(s.data, y * s.width + x))
    } else {
        Color { r: 0, g: 0, b: 0, a: 0 }
    }
}

/// The straight bytes of a rectangle of a surface.
pub open spec fn bytes_seen(s: SurfaceView, x: int, y: int, w: int, h: int) -> Seq<u8> {
    if w <= 0 || h <= 0 {
        seq![]
    } else {
        Seq::new(
            byte_count(w, h) as nat,
            |k: int| channel(color_seen(s, x + (k / 4) % w, y + (k / 4) / w), k % 4),
        )
    }
}

fn read_color(s: &OffscreenSurface, x: i64, y: i64) -> (r: Color)
    requires
        s@.wf(),
    ensures
        r == color_seen(s@, x as int, y as int),
{
    if x < 0 || y < 0 || x >= s.width as i64 || y >= s.height as i64 || s.height > 0x7fff_ffff {
        return Color { r: 0, g: 0, b: 0, a: 0 };
    }
    proof {
        lemma_within(s.width as int, s.height as int, x as int, y as int);
        assert(0 <= y * s.width) by (nonlinear_arith)
            requires
                0 <= y,
                0 <= s.width,
        ;
    }
    let p: usize = y as usize * s.width as usize + x as usize;
    straighten(read_cell(s.pixmap.data(), p))
}

/// The straight bytes of a rectangle of a surface.
pub fn read_rect(s: &OffscreenSurface, x: i32, y: i32, w: i32, h: i32) -> (r: Vec<u8>)
    requires
        s@.wf(),
    ensures
        r@ == bytes_seen(s@, x as int, y as int, w as int, h as int),
{
    let mut out: Vec<u8> = Vec::new();
    if w <= 0 || h <= 0 {
        return out;
    }
    let ghost all = bytes_seen(s@, x as int, y as int, w as int, h as int);
    let mut j: i32 = 0;
    while j < h
        invariant
            s@.wf(),
            w > 0,
            h > 0,
            0 <= j <= h,
            all == bytes_seen(s@, x as int, y as int, w as int, h as int),
            out@.len() == 4 * (j * w),
            forall|k: int| 0 <= k < 4 * (j * w) ==> out@[k] == #[trigger] all[k],
        decreases h - j,
    {
        let mut i: i32 = 0;
        proof {
            lemma_within(w as int, h as int, 0, j as int);
        }
        while i < w
            invariant
                s@.wf(),
                w > 0,
                h > 0,
                0 <= j < h,
                0 <= i <= w,
                all == bytes_seen(s@, x as int, y as int, w as int, h as int),
                0 <= j * w < w * h,
                out@.len() == 4 * (j * w + i),
                forall|k: int| 0 <= k < 4 * (j * w + i) ==> out@[k] == #[trigger] all[k],
            decreases w - i,
        {
            let c = read_color(s, x as i64 + i as i64, y as i64 + j as i64);
            let ghost before = out@;
            push_color(&mut out, c);
            proof {
                lemma_within(w as int, h as int, i as int, j as int);
                let p = j * w + i;
                lemma_place(w as int, i as int, j as int, p);
                assert forall|k: int| 0 <= k < 4 * (p + 1) implies out@[k] == #[trigger] all[k] by {
                    if k < 4 * p {
                        assert(out@[k] == before[k]);
                    } else {
                        assert(k / 4 == p);
                        assert(all[k] == channel(c, k % 4));
                    }
                }
            }
            i = i + 1;
        }
        proof {
            assert((j + 1) * w == j * w + w) by (nonlinear_arith);
        }
        j = j + 1;
    }
    proof {
        assert(h * w == w * h) by (nonlinear_arith);
        assert(out@ =~= all);
    }
    out
}

/// What is seen at a place of a surface after a drawing is what was drawn there, and where nothing
/// was drawn it is what was seen before.
pub proof fn drawing_is_seen(s: SurfaceView, f: Drawing, x: int, y: int)
    requires
        s.wf(),
        s.height <= i32::MAX,
        0 <= x < s.width,
        0 <= y < s.height,
    ensures
        color_seen(s.painted(f), x, y) == match f(x, y) {
            Some(c) => straightened(c),
            None => color_seen(s, x, y),
        },
{
    let w = s.width as int;
    let p = y * w + x;
    lemma_within(w, s.height as int, x, y);
    lemma_place(w, x, y, p);
    let d = s.drawn(f).data;
    assert((4 * p) / 4 == p && (4 * p + 1) / 4 == p && (4 * p + 2) / 4 == p && (4 * p + 3) / 4 == p);
    assert(cell(d, p) == match f(x, y) {
        Some(c) => c,
        None => cell(s.data, p),
    });
}

/// An opaque picture that is put on a surface, wholly within it, is read back as it was.
pub proof fn opaque_picture_is_read_back(s: SurfaceView, src: Seq<u8>, w: int, h: int, x: int, y: int)
    requires
        s.wf(),
        s.height <= i32::MAX,
        0 <= x,
        0 <= y,
        0 < w,
        0 < h,
        x + w <= s.width,
        y + h <= s.height,
        src.len() == byte_count(w, h),
        forall|p: int| 0 <= p < w * h ==> (#[trigger] cell(src, p)).a == 255,
    ensures
        bytes_seen(s.painted(picture(src, w, h, x, y)), x, y, w, h) == src,
{
    let f = picture(src, w, h, x, y);
    let t = s.painted(f);
    let r = bytes_seen(t, x, y, w, h);
    lemma_within(w, h, 0, 0);
    assert forall|k: int| 0 <= k < src.len() implies #[trigger] r[k] == src[k] by {
        let p = k / 4;
        let col = p % w;
        let row = p / w;
        vstd::arithmetic::div_mod::lemma_multiply_divide_lt(p, w, h);
        vstd::arithmetic::div_mod::lemma_fundamental_div_mod(p, w);
        vstd::arithmetic::div_mod::lemma_div_pos_is_pos(p, w);
        lemma_place(w, col, row, p);
        drawing_is_seen(s, f, x + col, y + row);
        assert(cell(src, p).a == 255);
        opaque_colours_come_back(cell(src, p));
        assert(k == 4 * p + k % 4);
    }
    assert(r =~= src);
}

proof fn lemma_count(width: u32, height: u32)
    ensures
        byte_count(width as int, height as int) >= 0,
        blank(width, height).len() == byte_count(width as int, height as int),
{
    assert(width * height >= 0) by (nonlinear_arith);
}

/// A colour's parts are multiplied by its opacity, as a share of the highest byte, and cut to the whole
/// number below; none is then more than the opacity, and the opacity stays.
pub proof fn colours_are_multiplied(c: Color)
    ensures
        premultiplied(c).a == c.a,
        255 * premultiplied(c).r <= c.r * c.a < 255 * premultiplied(c).r + 255,
        255 * premultiplied(c).g <= c.g * c.a < 255 * premultiplied(c).g + 255,
        255 * premultiplied(c).b <= c.b * c.a < 255 * premultiplied(c).b + 255,
        premultiplied(c).r <= c.a && premultiplied(c).g <= c.a && premultiplied(c).b <= c.a,
{
    assert(c.r * c.a <= 255 * c.a) by (nonlinear_arith)
        requires
            c.r <= 255,
    ;
    assert(c.g * c.a <= 255 * c.a) by (nonlinear_arith)
        requires
            c.g <= 255,
    ;
    assert(c.b * c.a <= 255 * c.a) by (nonlinear_arith)
        requires
            c.b <= 255,
    ;
    assert(c.r * c.a >= 0 && c.g * c.a >= 0 && c.b * c.a >= 0) by (nonlinear_arith);
}

/// Dividing a part that is no more than the opacity by it gives the nearest byte; what has no opacity
/// has no colour.
pub proof fn colours_are_divided(v: u8, a: u8, c: Color)
    requires
        0 < a,
        v <= a,
    ensures
        divided(v, a) * a <= v * 255 + a as int / 2 < divided(v, a) * a + a,
        c.a == 0 ==> straightened(c) == (Color { r: 0, g: 0, b: 0, a: 0 }),
        straightened(c).a == c.a,
        c.a == a && c.r == v ==> straightened(c).r == divided(v, a),
        c.a == a && c.g == v ==> straightened(c).g == divided(v, a),
        c.a == a && c.b == v ==> straightened(c).b == divided(v, a),
{
    let n = v * 255 + a as int / 2;
    let q = n / a as int;
    vstd::arithmetic::div_mod::lemma_fundamental_div_mod(n, a as int);
    vstd::arithmetic::div_mod::lemma_div_pos_is_pos(n, a as int);
    assert(q < 256) by (nonlinear_arith)
        requires
            n == a * q + n % (a as int),
            0 <= n % (a as int),
            n < 256 * a,
            0 < a,
    ;
    assert(q * a == a * q) by (nonlinear_arith);
    assert(0 <= n % (a as int) && n % (a as int) < a);
}

/// A filled rectangle shows its colour all over and leaves everything around it as it was.
pub proof fn filled_rectangles_are_seen(
    s: SurfaceView,
    x: int,
    y: int,
    w: int,
    h: int,
    c: Color,
    col: int,
    row: int,
)
    requires
        s.wf(),
        s.height <= i32::MAX,
        0 <= col < s.width,
        0 <= row < s.height,
    ensures
        x <= col < x + w && y <= row < y + h ==> color_seen(
            s.painted(flat(x, y, w, h, c)),
            col,
            row,
        ) == straightened(c),
        !(x <= col < x + w && y <= row < y + h) ==> color_seen(
            s.painted(flat(x, y, w, h, c)),
            col,
            row,
        ) == color_seen(s, col, row),
        s.painted(flat(x, y, w, h, c)).width == s.width,
        s.painted(flat(x, y, w, h, c)).height == s.height,
{
    drawing_is_seen(s, flat(x, y, w, h, c), col, row);
}

/// A picture all of whose columns and rows are taken, each once and in order, is drawn as it is; its
/// pixels come to the columns and rows behind the place it is drawn at.
pub proof fn pictures_are_drawn_whole(
    src: Seq<u8>,
    w: int,
    h: int,
    dx: int,
    dy: int,
    columns: Seq<u32>,
    rows: Seq<u32>,
    x: int,
    y: int,
)
    requires
        columns.len() == w,
        rows.len() == h,
        forall|i: int| 0 <= i < w ==> #[trigger] columns[i] == i,
        forall|i: int| 0 <= i < h ==> #[trigger] rows[i] == i,
    ensures
        sampled(src, w, dx, dy, columns, rows)(x, y) == picture(src, w, h, dx, dy)(x, y),
        dx <= x < dx + w && dy <= y < dy + h ==> picture(src, w, h, dx, dy)(x, y) == source_cell(
            src,
            (y - dy) * w + (x - dx),
        ),
        !(dx <= x < dx + w && dy <= y < dy + h) ==> picture(src, w, h, dx, dy)(x, y) is None,
{
    if dx <= x < dx + w && dy <= y < dy + h {
        assert(rows[y - dy] == y - dy);
        assert(columns[x - dx] == x - dx);
    }
}

/// A picture gives the pixels that it has bytes for, multiplied by their opacity, and no others.
pub proof fn pictures_give_their_pixels(d: Seq<u8>, p: int)
    requires
        0 <= p,
    ensures
        source_cell(d, p) is Some <==> 4 * (p + 1) <= d.len(),
        4 * (p + 1) <= d.len() ==> source_cell(d, p) == Some(
            premultiplied(
                Color { r: d[4 * p], g: d[4 * p + 1], b: d[4 * p + 2], a: d[4 * p + 3] },
            ),
        ),
        4 * (p + 1) <= d.len() ==> cell(straight_bytes(d), p) == straightened(cell(d, p)),
        straight_bytes(d).len() <= d.len(),
        d.len() % 4 == 0 ==> straight_bytes(d).len() == d.len(),
{
    if 4 * (p + 1) <= d.len() {
        assert((4 * p) / 4 == p && (4 * p + 1) / 4 == p && (4 * p + 2) / 4 == p && (4 * p + 3) / 4
            == p);
        assert((4 * p) % 4 == 0 && (4 * p + 1) % 4 == 1 && (4 * p + 2) % 4 == 2 && (4 * p + 3) % 4
            == 3);
    }
}

/// The bytes of a rectangle of a surface are its pixels row by row, those outside the surface
/// transparent; a cleared surface is transparent all over.
pub proof fn rectangles_are_read_row_by_row(
    s: SurfaceView,
    x: int,
    y: int,
    w: int,
    h: int,
    col: int,
    row: int,
)
    requires
        0 <= col < w,
        0 <= row < h,
    ensures
        bytes_seen(s, x, y, w, h).len() == byte_count(w, h),
        cell(bytes_seen(s, x, y, w, h), row * w + col) == color_seen(s, x + col, y + row),
        !(0 <= x < s.width && 0 <= y < s.height) ==> color_seen(s, x, y) == (Color {
            r: 0,
            g: 0,
            b: 0,
            a: 0,
        }),
        has_size(s.width, s.height) ==> color_seen(SurfaceView::cleared(s.width, s.height), x, y)
            == (Color { r: 0, g: 0, b: 0, a: 0 }),
{
    let p = row * w + col;
    lemma_within(w, h, col, row);
    lemma_place(w, col, row, p);
    assert((4 * p) / 4 == p && (4 * p + 1) / 4 == p && (4 * p + 2) / 4 == p && (4 * p + 3) / 4
        == p);
    assert((4 * p) % 4 == 0 && (4 * p + 1) % 4 == 1 && (4 * p + 2) % 4 == 2 && (4 * p + 3) % 4
        == 3);
    if has_size(s.width, s.height) && 0 <= x < s.width && 0 <= y < s.height {
        lemma_within(s.width as int, s.height as int, x, y);
    }
}

/// A buffer has at least one pixel, and no row or buffer of more bytes than can be counted.
pub proof fn buffers_have_their_limits(w: u32, h: u32)
    ensures
        has_size(w, h) ==> w > 0 && h > 0,
        has_size(w, h) ==> 4 * w <= i32::MAX,
        0 < w <= 0x1fff_ffff && 0 < h && 4 * (w * h) <= usize::MAX ==> has_size(w, h),
        byte_count(w as int, h as int) == 4 * (w * h),
        is_allocatable(w, h) <==> !has_size(w, h) || 4 * (w * h) <= isize::MAX,
        has_size(w, h) ==> blank(w, h).len() == 4 * (w * h),
{
    assert(w * h >= 0) by (nonlinear_arith);
}

} // verus!
