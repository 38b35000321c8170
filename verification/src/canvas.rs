//! The colours of a canvas, and which context a canvas gives.
use crate::color;
use crate::color::{Color, Reading};
use crate::dom;
use crate::number;
use crate::pairs;
use crate::pixels;
use crate::pixels::OffscreenSurface;
use crate::text;
use crate::text::CharClass;
use crate::tree;
use crate::tree::{Dom, KindView, NodeId, NodeKind, NodeView};
use vstd::prelude::*;

verus! {

/// What stands behind `rgba(` or `rgb(`, without the closing brackets at the end.
pub open spec fn rgb_args(s: Seq<char>) -> Option<Seq<char>> {
    let inner = match text::without_prefix(s, "rgba("@) {
        Some(rest) => Some(rest),
        None => text::without_prefix(s, "rgb("@),
    };
    match inner {
        Some(rest) => Some(text::chop_class(rest, CharClass::Is(')'))),
        None => None,
    }
}

/// The colour that a keyword names.
pub open spec fn named_color(s: Seq<char>) -> Option<Color> {
    let w = text::lower(s);
    if w == "black"@ {
        Some(Color::opaque(0, 0, 0))
    } else if w == "white"@ {
        Some(Color::opaque(255, 255, 255))
    } else if w == "red"@ {
        Some(Color::opaque(255, 0, 0))
    } else if w == "green"@ {
        Some(Color::opaque(0, 128, 0))
    } else if w == "blue"@ {
        Some(Color::opaque(0, 0, 255))
    } else if w == "yellow"@ {
        Some(Color::opaque(255, 255, 0))
    } else if w == "cyan"@ {
        Some(Color::opaque(0, 255, 255))
    } else if w == "magenta"@ {
        Some(Color::opaque(255, 0, 255))
    } else if w == "gray"@ || w == "grey"@ {
        Some(Color::opaque(128, 128, 128))
    } else if w == "transparent"@ {
        Some(Color { r: 0, g: 0, b: 0, a: 0 })
    } else {
        None
    }
}

/// The colour that components with these readings make: three numbers, and a fourth for the
/// opacity where it is written.
pub open spec fn color_of_args(n: nat, v: Seq<Option<Reading>>) -> Option<Color> {
    if n < 3 {
        None
    } else {
        match (color::reading_at(v, 0), color::reading_at(v, 1), color::reading_at(v, 2)) {
            (Some(r), Some(g), Some(b)) => if n >= 4 {
                match color::reading_at(v, 3) {
                    Some(a) => Some(Color { r: r.byte, g: g.byte, b: b.byte, a: a.unit }),
                    None => None,
                }
            } else {
                Some(Color::opaque(r.byte, g.byte, b.byte))
            },
            _ => None,
        }
    }
}

/// The colour that a style text writes, given how its components read as numbers.
pub open spec fn style_color(s: Seq<char>, v: Seq<Option<Reading>>) -> Option<Color> {
    let t = text::trimmed(s);
    match text::without_prefix(t, "#"@) {
        Some(rest) => color::hex_color(rest),
        None => match rgb_args(t) {
            Some(args) => color_of_args(color::comma_parts(args).len(), v),
            None => named_color(t),
        },
    }
}

fn strip_rgb(cs: &[char]) -> (r: Option<Vec<char>>)
    ensures
        r is Some <==> rgb_args(cs@) is Some,
        r matches Some(v) ==> rgb_args(cs@) == Some(v@),
{
    let inner = match text::strip_prefix(cs, "rgba(") {
        Some(rest) => Some(rest),
        None => text::strip_prefix(cs, "rgb("),
    };
    match inner {
        Some(rest) => Some(text::chop_back(&rest, CharClass::Is(')'))),
        None => None,
    }
}

/// The components of an `rgb` or `rgba` text; none for any other text.
pub fn color_components(s: &str) -> (r: Vec<String>)
    ensures
        text::texts(r@) == match text::without_prefix(text::trimmed(s@), "#"@) {
            Some(_) => Seq::empty(),
            None => match rgb_args(text::trimmed(s@)) {
                Some(args) => color::comma_parts(args),
                None => Seq::empty(),
            },
        },
{
    let none: Vec<String> = Vec::new();
    proof {
        assert(text::texts(none@) =~= Seq::empty());
    }
    let cs = text::to_chars(s);
    let t = text::trim(&cs);
    if text::starts_with(&t, "#") {
        return none;
    }
    match strip_rgb(&t) {
        Some(args) => color::split_commas(&args),
        None => none,
    }
}

fn parse_named(cs: &[char]) -> (r: Option<Color>)
    ensures
        r == named_color(cs@),
{
    let low = text::to_lower(cs);
    let w = text::to_text(&low);
    if text::same(&w, "black") {
        Some(Color::rgb(0, 0, 0))
    } else if text::same(&w, "white") {
        Some(Color::rgb(255, 255, 255))
    } else if text::same(&w, "red") {
        Some(Color::rgb(255, 0, 0))
    } else if text::same(&w, "green") {
        Some(Color::rgb(0, 128, 0))
    } else if text::same(&w, "blue") {
        Some(Color::rgb(0, 0, 255))
    } else if text::same(&w, "yellow") {
        Some(Color::rgb(255, 255, 0))
    } else if text::same(&w, "cyan") {
        Some(Color::rgb(0, 255, 255))
    } else if text::same(&w, "magenta") {
        Some(Color::rgb(255, 0, 255))
    } else if text::same(&w, "gray") || text::same(&w, "grey") {
        Some(Color::rgb(128, 128, 128))
    } else if text::same(&w, "transparent") {
        Some(Color { r: 0, g: 0, b: 0, a: 0 })
    } else {
        None
    }
}

fn parse_rgb_args(n: usize, v: &Vec<Option<Reading>>) -> (r: Option<Color>)
    ensures
        r == color_of_args(n as nat, v@),
{
    if n < 3 {
        return None;
    }
    match (color::get_reading(v, 0), color::get_reading(v, 1), color::get_reading(v, 2)) {
        (Some(r), Some(g), Some(b)) => {
            if n >= 4 {
                match color::get_reading(v, 3) {
                    Some(a) => Some(Color { r: r.byte, g: g.byte, b: b.byte, a: a.unit }),
                    None => None,
                }
            } else {
                Some(Color::rgb(r.byte, g.byte, b.byte))
            }
        },
        _ => None,
    }
}

/// Reads a style text as a colour, given how its components read as numbers.
pub fn parse_color(s: &str, readings: &Vec<Option<Reading>>) -> (r: Option<Color>)
    ensures
        r == style_color(s@, readings@),
{
    let cs = text::to_chars(s);
    let t = text::trim(&cs);
    match text::strip_prefix(&t, "#") {
        Some(rest) => color::read_hex_color(&rest),
        None => match strip_rgb(&t) {
            Some(args) => {
                let parts = color::split_commas(&args);
                proof {
                    assert(text::texts(parts@).len() == parts@.len());
                }
                parse_rgb_args(parts.len(), readings)
            },
            None => parse_named(&t),
        },
    }
}

/// What `getContext` leads to.
#[derive(Clone, Copy, PartialEq, Eq, Structural, Debug)]
pub enum CanvasContext {
    Nothing,
    WebGl,
    WebGpu,
    Flat { width: u32, height: u32 },
}

/// The number that an attribute writes, or another where it writes none.
pub open spec fn dimension(attrs: Seq<(Seq<char>, Seq<char>)>, k: Seq<char>, other: u32) -> u32 {
    match pairs::value_of(attrs, k) {
        Some(v) => match number::unsigned_value(v, 10, u32::MAX as nat) {
            Some(n) => n as u32,
            None => other,
        },
        None => other,
    }
}

/// What `getContext` leads to: nothing for what is no canvas, else by the name of the context.
pub open spec fn context_for(kind: KindView, ty: Seq<char>) -> CanvasContext {
    match kind {
        KindView::Element { tag, attrs } => if tag != "canvas"@ {
            CanvasContext::Nothing
        } else if ty == "webgl"@ || ty == "webgl2"@ || ty == "experimental-webgl"@ {
            CanvasContext::WebGl
        } else if ty == "webgpu"@ {
            CanvasContext::WebGpu
        } else if ty == "2d"@ {
            CanvasContext::Flat {
                width: dimension(attrs, "width"@, 300),
                height: dimension(attrs, "height"@, 150),
            }
        } else {
            CanvasContext::Nothing
        },
        _ => CanvasContext::Nothing,
    }
}

fn read_dimension(dom: &Dom, id: NodeId, k: &str, other: u32) -> (r: u32)
    requires
        tree::has(dom@, id),
    ensures
        r == dimension(tree::attrs_of(dom@[id.at()].kind), k@, other),
{
    match dom::read_exact_attr(dom, id, k) {
        Some(v) => {
            let cs = text::to_chars(&v);
            match number::read_unsigned(&cs, 10, u32::MAX as u64) {
                Some(n) => n as u32,
                None => other,
            }
        },
        None => other,
    }
}

/// What an element's `getContext` leads to.
pub fn element_get_context(dom: &Dom, id: NodeId, ty: &str) -> (r: CanvasContext)
    requires
        tree::has(dom@, id),
    ensures
        r == context_for(dom@[id.at()].kind, ty@),
{
    let is_canvas = match &dom.node(id).kind {
        NodeKind::Element { tag, attrs } => text::same(tag, "canvas"),
        _ => false,
    };
    if !is_canvas {
        return CanvasContext::Nothing;
    }
    if text::same(ty, "webgl") || text::same(ty, "webgl2") || text::same(
        ty,
        "experimental-webgl",
    ) {
        CanvasContext::WebGl
    } else if text::same(ty, "webgpu") {
        CanvasContext::WebGpu
    } else if text::same(ty, "2d") {
        let width = read_dimension(dom, id, "width", 300);
        let height = read_dimension(dom, id, "height", 150);
        CanvasContext::Flat { width, height }
    } else {
        CanvasContext::Nothing
    }
}

/// Keeps a drawing state on the stack.
pub fn ctx_save<S>(stack: &mut Vec<S>, state: S)
    ensures
        final(stack)@ == old(stack)@.push(state),
{
    stack.push(state);
}

/// Takes the drawing state that was kept last from the stack, where there is one.
pub fn ctx_restore<S>(stack: &mut Vec<S>) -> (r: Option<S>)
    ensures
        old(stack)@.len() == 0 ==> r is None && final(stack)@ == old(stack)@,
        old(stack)@.len() > 0 ==> r == Some(old(stack)@.last()) && final(stack)@
            == old(stack)@.drop_last(),
{
    stack.pop()
}

/// A canvas surface is at least one pixel wide and high.
pub fn surface_size(width: u32, height: u32) -> (r: (u32, u32))
    ensures
        r.0 == (if width == 0 {
            1
        } else {
            width
        }),
        r.1 == (if height == 0 {
            1
        } else {
            height
        }),
{
    let w: u32 = if width == 0 {
        1
    } else {
        width
    };
    let h: u32 = if height == 0 {
        1
    } else {
        height
    };
    (w, h)
}

/// A column or a row; the first in place of one before it.
pub open spec fn on_surface(x: i32) -> int {
    if x < 0 {
        0
    } else {
        x as int
    }
}

/// Makes a rectangle of a canvas transparent, from one column and row up to another. What lies
/// outside the canvas is left out.
pub fn ctx_clear_rect(surface: &mut OffscreenSurface, x0: i32, y0: i32, x1: i32, y1: i32)
    requires
        old(surface)@.wf(),
    ensures
        final(surface)@ == old(surface)@.painted(
            pixels::flat(
                on_surface(x0),
                on_surface(y0),
                on_surface(x1) - on_surface(x0),
                on_surface(y1) - on_surface(y0),
                Color { r: 0, g: 0, b: 0, a: 0 },
            ),
        ),
{
    let none = Color { r: 0, g: 0, b: 0, a: 0 };
    let x: i32 = not_before(x0);
    let y: i32 = not_before(y0);
    let w: i32 = not_before(x1) - x;
    let h: i32 = not_before(y1) - y;
    proof {
        assert(pixels::premultiplied(none) == none);
    }
    pixels::fill_rect(surface, x, y, w, h, none, 0);
}

fn not_before(x: i32) -> (r: i32)
    ensures
        r == on_surface(x),
{
    if x < 0 {
        0
    } else {
        x
    }
}

/// A colour is read from between the brackets of either form, as hexadecimal digits behind their sign,
/// or by its name; white space around it does not count.
pub proof fn colours_are_read(a: Seq<char>, v: Seq<Option<Reading>>)
    requires
        a.len() > 0,
        a.last() != ')',
        text::trimmed(a) == a,
    ensures
        rgb_args("rgb("@ + a.push(')')) == Some(a),
        rgb_args("rgba("@ + a.push(')')) == Some(a),
        style_color("#"@ + a, v) == color::hex_color(a),
        style_color("rgb("@ + a.push(')'), v) == color_of_args(color::comma_parts(a).len(), v),
        style_color("rgba("@ + a.push(')'), v) == color_of_args(color::comma_parts(a).len(), v),
        !text::begins(a, "#"@) && !text::begins(a, "rgb("@) && !text::begins(a, "rgba("@)
            ==> style_color(a, v) == named_color(a),
        !text::begins(a, "rgb("@) && !text::begins(a, "rgba("@) ==> rgb_args(a) is None,
{
    reveal_strlit("rgb(");
    reveal_strlit("rgba(");
    reveal_strlit("#");
    let b = a.push(')');
    let k = CharClass::Is(')');
    let p = "rgb("@ + b;
    let q = "rgba("@ + b;
    let h = "#"@ + a;
    text::beginnings_and_ends(p, "rgb("@, b);
    text::beginnings_and_ends(q, "rgba("@, b);
    text::beginnings_and_ends(p, "rgba("@, b);
    text::beginnings_and_ends(h, "#"@, a);
    text::beginnings_and_ends(p, "#"@, a);
    text::beginnings_and_ends(q, "#"@, a);
    text::beginnings_and_ends(a, "rgb("@, a);
    text::beginnings_and_ends(a, "rgba("@, a);
    text::beginnings_and_ends(a, "#"@, a);
    assert(p[3] == '(' && q[3] == 'a');
    assert("rgba("@[3] == 'a');
    if text::begins(p, "rgba("@) {
        assert(p.take(5)[3] == p[3]);
    }
    if text::begins(p, "#"@) {
        assert(p.take(1)[0] == p[0]);
    }
    if text::begins(q, "#"@) {
        assert(q.take(1)[0] == q[0]);
    }
    assert(b.drop_last() =~= a);
    assert(k.has_char(')'));
    assert(!k.has_char(a.last()));
    reveal_with_fuel(text::chop_class, 3);
    assert(text::chop_class(b, k) =~= a);
    text::spaces_are_not_seen(')');
    text::spaces_are_not_seen('r');
    text::spaces_are_not_seen('#');
    text::lemma_trim_ends(a, CharClass::Space);
    assert(p[0] == 'r' && q[0] == 'r' && h[0] == '#');
    assert(p.last() == ')' && q.last() == ')' && h.last() == a.last());
    text::lemma_trimmed(p, CharClass::Space);
    text::lemma_trimmed(q, CharClass::Space);
    text::lemma_trimmed(h, CharClass::Space);
}

/// Three numbers make an opaque colour and a fourth its opacity; with fewer, or one that is no number,
/// there is none.
pub proof fn components_make_a_colour(r: Reading, g: Reading, b: Reading, a: Reading, n: nat)
    ensures
        color_of_args(3, seq![Some(r), Some(g), Some(b)]) == Some(
            Color { r: r.byte, g: g.byte, b: b.byte, a: 255 },
        ),
        color_of_args(4, seq![Some(r), Some(g), Some(b), Some(a)]) == Some(
            Color { r: r.byte, g: g.byte, b: b.byte, a: a.unit },
        ),
        n < 3 ==> color_of_args(n, seq![Some(r), Some(g), Some(b), Some(a)]) is None,
        color_of_args(3, seq![None, Some(g), Some(b)]) is None,
        color_of_args(3, seq![Some(r), None, Some(b)]) is None,
        color_of_args(3, seq![Some(r), Some(g), None]) is None,
        color_of_args(4, seq![Some(r), Some(g), Some(b), None]) is None,
{
}

/// Names of colours count in letters of either case; the ones that a worklet knows are known here too,
/// as the same colours.
pub proof fn names_of_colours_agree(s: Seq<char>, c: Color)
    ensures
        crate::paint_worklet::keyword_color(s) == Some(c) ==> named_color(s) == Some(c),
        named_color(text::lower(s)) == named_color(s),
        text::lower(s) == "gray"@ || text::lower(s) == "grey"@ ==> named_color(s) == Some(
            Color { r: 128, g: 128, b: 128, a: 255 },
        ),
        named_color(s) is Some && crate::paint_worklet::keyword_color(s) is None ==> text::lower(s)
            == "gray"@ || text::lower(s) == "grey"@,
{
    let l = text::lower(s);
    assert forall|i: int| 0 <= i < s.len() implies text::lower(l)[i] == l[i] by {
        text::letters_change_case(s[i], s, i);
        text::letters_change_case(l[i], l, i);
    }
    assert(text::lower(l) =~= l);
    reveal_strlit("black");
    reveal_strlit("white");
    reveal_strlit("red");
    reveal_strlit("green");
    reveal_strlit("blue");
    reveal_strlit("yellow");
    reveal_strlit("cyan");
    reveal_strlit("magenta");
    reveal_strlit("gray");
    reveal_strlit("grey");
    reveal_strlit("transparent");
    assert("gray"@.len() == 4 && "grey"@.len() == 4 && "blue"@.len() == 4 && "cyan"@.len() == 4);
    assert("black"@.len() == 5 && "white"@.len() == 5 && "green"@.len() == 5 && "red"@.len() == 3);
    assert("yellow"@.len() == 6 && "magenta"@.len() == 7 && "transparent"@.len() == 11);
    assert("black"@[0] == 'b' && "white"@[0] == 'w' && "green"@[0] == 'g' && "blue"@[0] == 'b'
        && "cyan"@[0] == 'c' && "gray"@[0] == 'g' && "grey"@[0] == 'g');
}

/// A canvas has the size that its attributes write, and one of its own for each side that they do not.
pub proof fn canvases_have_their_size(
    attrs: Seq<(Seq<char>, Seq<char>)>,
    k: Seq<char>,
    v: Seq<char>,
    n: u32,
    other: u32,
)
    ensures
        pairs::value_of(attrs, k) == Some(number::decimal(n as nat)) ==> dimension(attrs, k, other)
            == n,
        pairs::value_of(attrs, k) is None ==> dimension(attrs, k, other) == other,
        pairs::value_of(attrs, k) == Some(v) && number::unsigned_value(v, 10, u32::MAX as nat)
            is None ==> dimension(attrs, k, other) == other,
        context_for(KindView::Element { tag: "canvas"@, attrs }, "2d"@) == (CanvasContext::Flat {
            width: dimension(attrs, "width"@, 300),
            height: dimension(attrs, "height"@, 150),
        }),
{
    number::number_text_round_trip(n as nat, 10, u32::MAX as nat);
    reveal_strlit("2d");
    reveal_strlit("webgl");
    reveal_strlit("webgl2");
    reveal_strlit("experimental-webgl");
    reveal_strlit("webgpu");
    assert("2d"@.len() == 2 && "webgl"@.len() == 5 && "webgl2"@.len() == 6 && "webgpu"@.len() == 6);
    assert("experimental-webgl"@.len() == 18);
}

/// Only a canvas has contexts, and each by its names alone.
pub proof fn contexts_are_named(
    tag: Seq<char>,
    attrs: Seq<(Seq<char>, Seq<char>)>,
    ty: Seq<char>,
)
    ensures
        tag != "canvas"@ ==> context_for(KindView::Element { tag, attrs }, ty)
            == CanvasContext::Nothing,
        context_for(KindView::Document, ty) == CanvasContext::Nothing,
        context_for(KindView::Element { tag: "canvas"@, attrs }, ty) == CanvasContext::WebGl <==> ty
            == "webgl"@ || ty == "webgl2"@ || ty == "experimental-webgl"@,
        context_for(KindView::Element { tag: "canvas"@, attrs }, ty) is Flat ==> ty == "2d"@,
        context_for(KindView::Element { tag: "canvas"@, attrs }, ty) == CanvasContext::WebGpu ==> ty
            == "webgpu"@,
{
}

} // verus!
