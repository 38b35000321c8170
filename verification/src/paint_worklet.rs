//! Paint worklets: which are registered, what they drew for which element, and the colours
//! that they draw with.
use crate::color;
use crate::color::{Color, Reading};
use crate::pairs;
use crate::text;
use crate::tree::NodeId;
use std::collections::HashMap;
use vstd::prelude::*;

verus! {

broadcast use vstd::std_specs::hash::group_hash_axioms;

/// A registered worklet: the class that its name stands for.
pub struct PaintWorkletDef<C> {
    pub class: C,
}

/// The worklets of a document, under their names; what was drawn for each element; and what
/// the worklet that runs has drawn so far.
pub struct PaintWorklets<C, D> {
    worklets: Vec<(String, PaintWorkletDef<C>)>,
    commands: HashMap<u32, Vec<D>>,
    recorder: Option<Vec<D>>,
}

/// The same over plain values.
pub ghost struct PaintView<C, D> {
    pub worklets: Seq<(Seq<char>, C)>,
    pub commands: Map<u32, Seq<D>>,
    pub recorder: Option<Seq<D>>,
}

impl<C, D> View for PaintWorklets<C, D> {
    type V = PaintView<C, D>;

    closed spec fn view(&self) -> PaintView<C, D> {
        PaintView {
            worklets: defs_view(self.worklets@),
            commands: self.commands@.map_values(|v: Vec<D>| v@),
            recorder: match self.recorder {
                Some(v) => Some(v@),
                None => None,
            },
        }
    }
}

/// The plain values of the worklets.
pub open spec fn defs_view<C>(v: Seq<(String, PaintWorkletDef<C>)>) -> Seq<(Seq<char>, C)> {
    v.map_values(|p: (String, PaintWorkletDef<C>)| (p.0@, p.1.class))
}

/// Whether an entry has the name.
pub open spec fn called<C>(name: Seq<char>) -> spec_fn((Seq<char>, C)) -> bool {
    |p: (Seq<char>, C)| p.0 == name
}

/// The class under a name.
pub open spec fn class_of<C>(v: Seq<(Seq<char>, C)>, name: Seq<char>) -> Option<C> {
    let i = pairs::position(v, called::<C>(name));
    if i < v.len() {
        Some(v[i].1)
    } else {
        None
    }
}

/// The worklets with a class under a name, in place of the one that was there.
pub open spec fn with_class<C>(v: Seq<(Seq<char>, C)>, name: Seq<char>, class: C) -> Seq<
    (Seq<char>, C),
> {
    let i = pairs::position(v, called::<C>(name));
    if i < v.len() {
        v.update(i, (v[i].0, class))
    } else {
        v.push((name, class))
    }
}

impl<C, D> PaintWorklets<C, D> {
    /// No worklets, and nothing drawn.
    pub fn new() -> (r: Self)
        ensures
            r@ == (PaintView::<C, D> {
                worklets: Seq::empty(),
                commands: Map::empty(),
                recorder: None,
            }),
    {
        let r = PaintWorklets { worklets: Vec::new(), commands: HashMap::new(), recorder: None };
        proof {
            assert(r@.worklets =~= Seq::empty());
            assert(r@.commands =~= Map::empty());
        }
        r
    }

    fn position_of(&self, name: &str) -> (r: usize)
        ensures
            r == pairs::position(self@.worklets, called::<C>(name@)),
            r <= self.worklets@.len(),
    {
        let ghost v = self@.worklets;
        let mut i: usize = 0;
        while i < self.worklets.len()
            invariant
                i <= self.worklets@.len(),
                v == defs_view(self.worklets@),
                forall|j: int| 0 <= j < i ==> !called::<C>(name@)(#[trigger] v[j]),
            decreases self.worklets@.len() - i,
        {
            if text::same(&self.worklets[i].0, name) {
                proof {
                    pairs::lemma_position(v, called::<C>(name@), i as int);
                }
                return i;
            }
            i = i + 1;
        }
        proof {
            pairs::lemma_position(v, called::<C>(name@), i as int);
        }
        i
    }
}

/// What was drawn for an element.
pub fn commands_for<C, D>(state: &PaintWorklets<C, D>, node: NodeId) -> (r: Option<&Vec<D>>)
    ensures
        r is Some <==> state@.commands.dom().contains(node.raw),
        r matches Some(v) ==> v@ == state@.commands[node.raw],
{
    state.commands.get(&node.raw)
}

/// Drops all worklets and all that was drawn.
pub fn clear_all<C, D>(state: &mut PaintWorklets<C, D>)
    ensures
        final(state)@ == (PaintView::<C, D> {
            worklets: Seq::empty(),
            commands: Map::empty(),
            recorder: old(state)@.recorder,
        }),
{
    state.worklets.clear();
    state.commands.clear();
    proof {
        assert(state@.worklets =~= Seq::empty());
        assert(state@.commands =~= Map::empty());
    }
}

/// Drops all that was drawn.
pub fn clear_commands<C, D>(state: &mut PaintWorklets<C, D>)
    ensures
        final(state)@ == (PaintView::<C, D> { commands: Map::empty(), ..old(state)@ }),
{
    state.commands.clear();
    proof {
        assert(state@.commands =~= Map::empty());
    }
}

/// Sets what is drawn for an element.
pub fn seed_commands_for<C, D>(state: &mut PaintWorklets<C, D>, node: NodeId, cmds: Vec<D>)
    ensures
        final(state)@ == (PaintView::<C, D> {
            commands: old(state)@.commands.insert(node.raw, cmds@),
            ..old(state)@
        }),
{
    let ghost before = state@;
    state.commands.insert(node.raw, cmds);
    proof {
        assert(state@.commands =~= before.commands.insert(node.raw, cmds@));
    }
}

/// Registers a worklet under a name.
pub fn register_paint<C, D>(state: &mut PaintWorklets<C, D>, name: &str, class: C)
    ensures
        final(state)@ == (PaintView::<C, D> {
            worklets: with_class(old(state)@.worklets, name@, class),
            ..old(state)@
        }),
{
    let ghost before = state@;
    let i = state.position_of(name);
    if i < state.worklets.len() {
        let key = text::copy(&state.worklets[i].0);
        state.worklets[i] = (key, PaintWorkletDef { class });
    } else {
        state.worklets.push((text::copy(name), PaintWorkletDef { class }));
    }
    proof {
        assert(state@.worklets =~= with_class(before.worklets, name@, class));
    }
}

/// The worklet that is registered under a name.
pub fn lookup<'a, C, D>(state: &'a PaintWorklets<C, D>, name: &str) -> (r: Option<
    &'a PaintWorkletDef<C>,
>)
    ensures
        class_of(state@.worklets, name@) == match r {
            Some(d) => Some(d.class),
            None => None,
        },
{
    let i = state.position_of(name);
    if i < state.worklets.len() {
        Some(&state.worklets[i].1)
    } else {
        None
    }
}

/// Begins to record what a worklet draws, where one is registered under the name; tells
/// whether there is one.
pub fn begin_recording<C, D>(state: &mut PaintWorklets<C, D>, name: &str) -> (r: bool)
    ensures
        r == (class_of(old(state)@.worklets, name@) is Some),
        final(state)@ == (PaintView::<C, D> {
            recorder: if r {
                Some(Seq::empty())
            } else {
                old(state)@.recorder
            },
            ..old(state)@
        }),
{
    if lookup(state, name).is_none() {
        return false;
    }
    state.recorder = Some(Vec::new());
    proof {
        assert(state@.recorder == Some(Seq::<D>::empty()));
    }
    true
}

/// Adds what a worklet drew to the record, while one is kept.
pub fn record_command<C, D>(state: &mut PaintWorklets<C, D>, cmd: D)
    ensures
        final(state)@ == (PaintView::<C, D> {
            recorder: match old(state)@.recorder {
                Some(v) => Some(v.push(cmd)),
                None => None,
            },
            ..old(state)@
        }),
{
    let mut taken: Option<Vec<D>> = None;
    core::mem::swap(&mut taken, &mut state.recorder);
    match taken {
        Some(mut v) => {
            v.push(cmd);
            state.recorder = Some(v);
        },
        None => {},
    }
}

/// Ends the record. What a worklet drew counts for the element only where it ran to its end;
/// otherwise it is dropped.
pub fn end_recording<C, D>(state: &mut PaintWorklets<C, D>, node: NodeId, ran: bool)
    ensures
        final(state)@ == (PaintView::<C, D> {
            recorder: None,
            commands: if ran {
                old(state)@.commands.insert(
                    node.raw,
                    match old(state)@.recorder {
                        Some(v) => v,
                        None => Seq::empty(),
                    },
                )
            } else {
                old(state)@.commands
            },
            ..old(state)@
        }),
        ran ==> (old(state)@.recorder matches Some(v) ==> final(state)@.commands[node.raw] == v),
        forall|x: u32|
            x != node.raw && old(state)@.commands.dom().contains(x)
                ==> #[trigger] final(state)@.commands[x] == old(state)@.commands[x],
{
    let ghost before = state@;
    let mut taken: Option<Vec<D>> = None;
    core::mem::swap(&mut taken, &mut state.recorder);
    if ran {
        let cmds = match taken {
            Some(v) => v,
            None => Vec::new(),
        };
        let ghost cv = cmds@;
        state.commands.insert(node.raw, cmds);
        proof {
            assert(state@.commands =~= before.commands.insert(node.raw, cv));
        }
    }
}

/// A worklet that was registered is found under its name, and those under other names stay.
pub proof fn registered_is_found<C>(v: Seq<(Seq<char>, C)>, name: Seq<char>, class: C, q: Seq<char>)
    ensures
        class_of(with_class(v, name, class), name) == Some(class),
        q != name ==> class_of(with_class(v, name, class), q) == class_of(v, q),
{
    let w = with_class(v, name, class);
    let p = called::<C>(name);
    pairs::lemma_position_holds(v, p);
    let i = pairs::position(v, p);
    assert forall|j: int| 0 <= j < i implies !p(#[trigger] w[j]) by {
        assert(w[j] == v[j]);
    }
    pairs::lemma_position(w, p, i);
    if q != name {
        let o = called::<C>(q);
        pairs::lemma_position_holds(v, o);
        let m = pairs::position(v, o);
        assert forall|j: int| 0 <= j < m implies !o(#[trigger] w[j]) by {
            assert(!o(v[j]));
        }
        if m < v.len() {
            assert(w[m].0 == v[m].0);
            assert(m != i);
            pairs::lemma_position(w, o, m);
        } else if i < v.len() {
            pairs::lemma_position(w, o, m);
        } else {
            assert(!o(w[m]));
            pairs::lemma_position(w, o, m + 1);
        }
    }
}

/// The digit of a hexadecimal text, where it is one.
pub open spec fn hex_digit(c: char) -> Option<u8> {
    color::hex_byte(seq![c])
}

/// The byte that a digit stands for when it is written once for two.
pub open spec fn widened(d: u8) -> u8 {
    (d * 16 + d) as u8
}

/// The colour that six or three hexadecimal digits write.
pub open spec fn short_hex_color(s: Seq<char>) -> Option<Color> {
    let t = text::trimmed(s);
    if t.len() == 6 {
        color::from_bytes(
            color::hex_at(t, 0),
            color::hex_at(t, 2),
            color::hex_at(t, 4),
            Some(255),
        )
    } else if t.len() == 3 {
        match (hex_digit(t[0]), hex_digit(t[1]), hex_digit(t[2])) {
            (Some(r), Some(g), Some(b)) => Some(
                Color::opaque(widened(r), widened(g), widened(b)),
            ),
            _ => None,
        }
    } else {
        None
    }
}

fn read_digit(c: char) -> (r: Option<u8>)
    ensures
        r == hex_digit(c),
        r matches Some(d) ==> d < 16,
{
    let mut one: Vec<char> = Vec::new();
    one.push(c);
    proof {
        assert(one@ =~= seq![c]);
        lemma_one_digit(c);
    }
    color::read_hex_byte(&one)
}

proof fn lemma_one_digit(c: char)
    ensures
        hex_digit(c) matches Some(d) ==> d < 16,
{
    let s = seq![c];
    let d = crate::number::unsigned_digits(s);
    if c == '+' {
        assert(d =~= Seq::empty());
    } else {
        assert(d == s);
        assert(s.drop_last() =~= Seq::empty());
        assert(crate::number::digits_value(s.drop_last(), 16) == Some(0nat));
        assert(s.last() == c);
        assert(0nat * 16 == 0);
    }
}

/// Reads the colour that six or three hexadecimal digits write.
pub fn parse_hex_color(s: &str) -> (r: Option<Color>)
    ensures
        r == short_hex_color(s@),
{
    let cs = text::to_chars(s);
    let t = text::trim(&cs);
    if t.len() == 6 {
        return color::assemble(
            color::read_hex_at(&t, 0),
            color::read_hex_at(&t, 2),
            color::read_hex_at(&t, 4),
            Some(255),
        );
    }
    if t.len() == 3 {
        return match (read_digit(t[0]), read_digit(t[1]), read_digit(t[2])) {
            (Some(r), Some(g), Some(b)) => Some(Color::rgb(r * 16 + r, g * 16 + g, b * 16 + b)),
            _ => None,
        };
    }
    None
}

/// The readings of the components that are numbers, the others passed over.
pub open spec fn numbers_of(v: Seq<Option<Reading>>, n: int) -> Seq<Reading>
    decreases n,
{
    if n <= 0 {
        Seq::empty()
    } else {
        match color::reading_at(v, n - 1) {
            Some(r) => numbers_of(v, n - 1).push(r),
            None => numbers_of(v, n - 1),
        }
    }
}

/// The colour that a keyword names.
pub open spec fn keyword_color(s: Seq<char>) -> Option<Color> {
    let w = text::lower(s);
    if w == "red"@ {
        Some(Color::opaque(255, 0, 0))
    } else if w == "green"@ {
        Some(Color::opaque(0, 128, 0))
    } else if w == "blue"@ {
        Some(Color::opaque(0, 0, 255))
    } else if w == "black"@ {
        Some(Color::opaque(0, 0, 0))
    } else if w == "white"@ {
        Some(Color::opaque(255, 255, 255))
    } else if w == "yellow"@ {
        Some(Color::opaque(255, 255, 0))
    } else if w == "magenta"@ {
        Some(Color::opaque(255, 0, 255))
    } else if w == "cyan"@ {
        Some(Color::opaque(0, 255, 255))
    } else if w == "transparent"@ {
        Some(Color { r: 0, g: 0, b: 0, a: 0 })
    } else {
        None
    }
}

/// What stands between the brackets of an `rgb` or `rgba` text.
pub open spec fn rgb_inner(t: Seq<char>) -> Option<Seq<char>> {
    match color::bracketed(t, "rgb("@) {
        Some(inner) => Some(inner),
        None => color::bracketed(t, "rgba("@),
    }
}

/// The colour of an `rgb` text with three numbers, or of an `rgba` text with four.
pub open spec fn rgb_color(t: Seq<char>, v: Seq<Option<Reading>>) -> Option<Color> {
    match rgb_inner(t) {
        None => None,
        Some(inner) => {
            let p = numbers_of(v, color::comma_parts(inner).len() as int);
            if color::bracketed(t, "rgb("@) is Some {
                if p.len() == 3 {
                    Some(Color::opaque(p[0].byte, p[1].byte, p[2].byte))
                } else {
                    None
                }
            } else if p.len() == 4 {
                Some(Color { r: p[0].byte, g: p[1].byte, b: p[2].byte, a: p[3].unit })
            } else {
                None
            }
        },
    }
}

/// The colour that a text writes, given how its components read as numbers.
pub open spec fn css_color(s: Seq<char>, v: Seq<Option<Reading>>) -> Option<Color> {
    let t = text::trimmed(s);
    match text::without_prefix(t, "#"@) {
        Some(rest) => short_hex_color(rest),
        None => match rgb_color(t, v) {
            Some(c) => Some(c),
            None => keyword_color(t),
        },
    }
}

fn strip_rgb(t: &[char]) -> (r: Option<Vec<char>>)
    ensures
        r is Some <==> rgb_inner(t@) is Some,
        r matches Some(v) ==> rgb_inner(t@) == Some(v@),
{
    match color::strip_brackets(t, "rgb(") {
        Some(inner) => Some(inner),
        None => color::strip_brackets(t, "rgba("),
    }
}

/// The components of an `rgb` or `rgba` text; none for any other text.
pub fn color_components(s: &str) -> (r: Vec<String>)
    ensures
        text::texts(r@) == match rgb_inner(text::trimmed(s@)) {
            Some(inner) => color::comma_parts(inner),
            None => Seq::empty(),
        },
{
    let cs = text::to_chars(s);
    let t = text::trim(&cs);
    match strip_rgb(&t) {
        Some(inner) => color::split_commas(&inner),
        None => {
            let none: Vec<String> = Vec::new();
            proof {
                assert(text::texts(none@) =~= Seq::empty());
            }
            none
        },
    }
}

fn read_numbers(v: &Vec<Option<Reading>>, n: usize) -> (r: Vec<Reading>)
    ensures
        r@ == numbers_of(v@, n as int),
{
    let mut out: Vec<Reading> = Vec::new();
    let mut i: usize = 0;
    while i < n
        invariant
            i <= n,
            out@ == numbers_of(v@, i as int),
        decreases n - i,
    {
        match color::get_reading(v, i) {
            Some(x) => {
                out.push(x);
            },
            None => {},
        }
        i = i + 1;
    }
    out
}

fn read_rgb(t: &[char], v: &Vec<Option<Reading>>) -> (r: Option<Color>)
    ensures
        r == rgb_color(t@, v@),
{
    match strip_rgb(t) {
        None => None,
        Some(inner) => {
            let parts = color::split_commas(&inner);
            proof {
                assert(text::texts(parts@).len() == parts@.len());
            }
            let p = read_numbers(v, parts.len());
            if color::strip_brackets(t, "rgb(").is_some() {
                if p.len() == 3 {
                    Some(Color::rgb(p[0].byte, p[1].byte, p[2].byte))
                } else {
                    None
                }
            } else if p.len() == 4 {
                Some(Color { r: p[0].byte, g: p[1].byte, b: p[2].byte, a: p[3].unit })
            } else {
                None
            }
        },
    }
}

fn read_keyword(t: &[char]) -> (r: Option<Color>)
    ensures
        r == keyword_color(t@),
{
    let low = text::to_lower(t);
    let w = text::to_text(&low);
    if text::same(&w, "red") {
        Some(Color::rgb(255, 0, 0))
    } else if text::same(&w, "green") {
        Some(Color::rgb(0, 128, 0))
    } else if text::same(&w, "blue") {
        Some(Color::rgb(0, 0, 255))
    } else if text::same(&w, "black") {
        Some(Color::rgb(0, 0, 0))
    } else if text::same(&w, "white") {
        Some(Color::rgb(255, 255, 255))
    } else if text::same(&w, "yellow") {
        Some(Color::rgb(255, 255, 0))
    } else if text::same(&w, "magenta") {
        Some(Color::rgb(255, 0, 255))
    } else if text::same(&w, "cyan") {
        Some(Color::rgb(0, 255, 255))
    } else if text::same(&w, "transparent") {
        Some(Color { r: 0, g: 0, b: 0, a: 0 })
    } else {
        None
    }
}

/// Reads a text as a colour, given how its components read as numbers.
pub fn parse_css_color(s: &str, readings: &Vec<Option<Reading>>) -> (r: Option<Color>)
    ensures
        r == css_color(s@, readings@),
{
    let cs = text::to_chars(s);
    let t = text::trim(&cs);
    match text::strip_prefix(&t, "#") {
        Some(rest) => {
            let h = text::to_text(&rest);
            parse_hex_color(&h)
        },
        None => match read_rgb(&t, readings) {
            Some(c) => Some(c),
            None => read_keyword(&t),
        },
    }
}

/// Six and three digits write the same colours here as in any style.
pub proof fn short_colours_agree(s: Seq<char>)
    requires
        text::trimmed(s) == s,
        s.len() == 3 || s.len() == 6,
    ensures
        short_hex_color(s) == color::hex_color(s),
{
    if s.len() == 3 {
        lemma_doubled(s[0]);
        lemma_doubled(s[1]);
        lemma_doubled(s[2]);
    }
}

proof fn lemma_doubled(c: char)
    ensures
        color::hex_twice(c) == (match hex_digit(c) {
            Some(d) => Some(widened(d)),
            None => None,
        }),
{
    let e = Seq::<char>::empty();
    crate::number::digits_count_by_their_places(e, c, 16);
    crate::number::digits_count_by_their_places(e.push(c), c, 16);
    assert(e.push(c) =~= seq![c]);
    assert(e.push(c).push(c) =~= seq![c, c]);
    assert(seq!['+'].skip(1) =~= e);
    assert(seq!['+', '+'].skip(1) =~= seq!['+']);
    crate::number::digits_count_by_their_places(e, '+', 16);
    assert(e.push('+') =~= seq!['+']);
}

/// The numbers of a list of components are those that read as one, in order.
pub proof fn numbers_are_passed_on(v: Seq<Option<Reading>>, n: int, r: Reading)
    requires
        0 < n <= v.len(),
    ensures
        v[n - 1] == Some(r) ==> numbers_of(v, n) == numbers_of(v, n - 1).push(r),
        v[n - 1] is None ==> numbers_of(v, n) == numbers_of(v, n - 1),
        numbers_of(v, 0).len() == 0,
        (forall|i: int| 0 <= i < n ==> (#[trigger] v[i]) is Some) ==> numbers_of(v, n).len() == n
            && forall|i: int| 0 <= i < n ==> #[trigger] numbers_of(v, n)[i] == v[i]->0,
    decreases n,
{
    if forall|i: int| 0 <= i < n ==> (#[trigger] v[i]) is Some {
        assert(v[n - 1] is Some);
        if n > 1 {
            numbers_are_passed_on(v, n - 1, r);
        } else {
            assert(numbers_of(v, 0).len() == 0);
        }
    }
}

/// A colour is written with three numbers between the brackets of the one form, or with four between
/// those of the other; digits count behind their sign.
pub proof fn written_colours_are_read(
    a: Seq<char>,
    v: Seq<Option<Reading>>,
    r: Reading,
    g: Reading,
    b: Reading,
    o: Reading,
)
    requires
        a.len() > 0,
        text::trimmed(a) == a,
    ensures
        css_color("#"@ + a, v) == short_hex_color(a),
        color::comma_parts(a).len() == 3 ==> css_color(
            "rgb("@ + a.push(')'),
            seq![Some(r), Some(g), Some(b)],
        ) == Some(Color { r: r.byte, g: g.byte, b: b.byte, a: 255 }),
        color::comma_parts(a).len() == 4 ==> css_color(
            "rgba("@ + a.push(')'),
            seq![Some(r), Some(g), Some(b), Some(o)],
        ) == Some(Color { r: r.byte, g: g.byte, b: b.byte, a: o.unit }),
{
    reveal_strlit("rgb(");
    reveal_strlit("rgba(");
    reveal_strlit("#");
    let p = "rgb("@ + a.push(')');
    let q = "rgba("@ + a.push(')');
    let h = "#"@ + a;
    assert(p[0] == 'r' && q[0] == 'r' && h[0] == '#');
    assert(p.last() == ')' && q.last() == ')' && h.last() == a.last());
    text::spaces_are_not_seen(')');
    text::spaces_are_not_seen('r');
    text::spaces_are_not_seen('#');
    text::lemma_trim_ends(a, text::CharClass::Space);
    text::lemma_trimmed(p, text::CharClass::Space);
    text::lemma_trimmed(q, text::CharClass::Space);
    text::lemma_trimmed(h, text::CharClass::Space);
    text::beginnings_and_ends(h, "#"@, a);
    text::beginnings_and_ends(p, "#"@, a);
    text::beginnings_and_ends(q, "#"@, a);
    text::beginnings_and_ends(q, "rgb("@, a);
    if text::begins(p, "#"@) {
        assert(p.take(1)[0] == p[0]);
    }
    if text::begins(q, "#"@) {
        assert(q.take(1)[0] == q[0]);
    }
    if text::begins(q, "rgb("@) {
        assert(q.take(4)[3] == q[3]);
    }
    color::lists_are_read(a, a, "rgb("@, 0);
    color::lists_are_read(a, a, "rgba("@, 0);
    color::lists_are_read(q, a, "rgb("@, 0);
    let three = seq![Some(r), Some(g), Some(b)];
    let four = seq![Some(r), Some(g), Some(b), Some(o)];
    numbers_are_passed_on(three, 3, r);
    numbers_are_passed_on(four, 4, r);
    assert(numbers_of(three, 3)[0] == r && numbers_of(three, 3)[1] == g && numbers_of(three, 3)[2]
        == b);
    assert(numbers_of(four, 4)[0] == r && numbers_of(four, 4)[1] == g && numbers_of(four, 4)[2] == b
        && numbers_of(four, 4)[3] == o);
}

} // verus!
