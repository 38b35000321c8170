//! Selectors: reading them and matching nodes of a document against them.
use crate::pairs;
use crate::text;
use crate::text::CharClass;
use crate::tree;
use crate::tree::{Dom, KindView, NodeId, NodeKind, NodeView};
use vstd::prelude::*;

verus! {

/// One condition on an element.
pub enum Simple {
    Any,
    Tag(String),
    Class(String),
    Id(String),
}

/// One condition on an element, over plain characters.
pub enum SimpleView {
    Any,
    Tag(Seq<char>),
    Class(Seq<char>),
    Id(Seq<char>),
}

impl View for Simple {
    type V = SimpleView;

    open spec fn view(&self) -> SimpleView {
        match self {
            Simple::Any => SimpleView::Any,
            Simple::Tag(s) => SimpleView::Tag(s@),
            Simple::Class(s) => SimpleView::Class(s@),
            Simple::Id(s) => SimpleView::Id(s@),
        }
    }
}

/// How an element stands to the one that the step before it asks for.
#[derive(Clone, Copy, PartialEq, Eq, Structural, Debug)]
pub enum Combinator {
    Descendant,
    Child,
    NextSibling,
    LaterSibling,
}

/// Conditions on one element, and how it stands to the one before.
pub struct Step {
    pub combinator: Combinator,
    pub compound: Vec<Simple>,
}

/// Conditions on one element, over plain values.
pub struct StepView {
    pub combinator: Combinator,
    pub compound: Seq<SimpleView>,
}

/// The plain values of a list of conditions.
pub open spec fn simples_view(v: Seq<Simple>) -> Seq<SimpleView> {
    v.map_values(|s: Simple| s@)
}

impl View for Step {
    type V = StepView;

    open spec fn view(&self) -> StepView {
        StepView { combinator: self.combinator, compound: simples_view(self.compound@) }
    }
}

/// A selector: its steps, the last of which is about the element itself.
pub struct Selector {
    pub steps: Vec<Step>,
}

impl View for Selector {
    type V = Seq<StepView>;

    open spec fn view(&self) -> Seq<StepView> {
        self.steps@.map_values(|s: Step| s@)
    }
}

/// The plain values of a list of selectors.
pub open spec fn selectors_view(v: Seq<Selector>) -> Seq<Seq<StepView>> {
    v.map_values(|s: Selector| s@)
}

/// Whether a character may stand in a name.
pub open spec fn name_char(c: char) -> bool {
    ||| 'a' <= c <= 'z'
    ||| 'A' <= c <= 'Z'
    ||| '0' <= c <= '9'
    ||| c == '-'
    ||| c == '_'
    ||| c as u32 >= 0x80
}

/// Whether a text is a name.
pub open spec fn is_name(s: Seq<char>) -> bool {
    s.len() > 0 && forall|i: int| 0 <= i < s.len() ==> name_char(#[trigger] s[i])
}

/// The condition that a mark and what follows it ask for. What stands before the first mark is
/// a tag, or asks for nothing.
pub open spec fn simple_of(mark: char, name: Seq<char>) -> Option<SimpleView> {
    if mark == '.' {
        if is_name(name) {
            Some(SimpleView::Class(name))
        } else {
            None
        }
    } else if mark == '#' {
        if is_name(name) {
            Some(SimpleView::Id(name))
        } else {
            None
        }
    } else if name.len() == 0 || name == seq!['*'] {
        Some(SimpleView::Any)
    } else if is_name(name) {
        Some(SimpleView::Tag(text::lower(name)))
    } else {
        None
    }
}

/// A word cut before each dot and hash, each piece with its mark.
pub open spec fn segments(w: Seq<char>) -> Seq<(char, Seq<char>)>
    decreases w.len(),
{
    if w.len() == 0 {
        seq![(' ', Seq::<char>::empty())]
    } else {
        let before = segments(w.drop_last());
        let c = w.last();
        if c == '.' || c == '#' {
            before.push((c, Seq::empty()))
        } else {
            before.update(before.len() - 1, (before.last().0, before.last().1.push(c)))
        }
    }
}

/// The conditions of a list of pieces, or `None` where one of them asks for none.
pub open spec fn simples_of(v: Seq<(char, Seq<char>)>) -> Option<Seq<SimpleView>>
    decreases v.len(),
{
    if v.len() == 0 {
        Some(Seq::empty())
    } else {
        match (simples_of(v.drop_last()), simple_of(v.last().0, v.last().1)) {
            (Some(a), Some(b)) => Some(a.push(b)),
            _ => None,
        }
    }
}

/// The combinator that a word writes.
pub open spec fn combinator_of(w: Seq<char>) -> Option<Combinator> {
    if w == seq!['>'] {
        Some(Combinator::Child)
    } else if w == seq!['+'] {
        Some(Combinator::NextSibling)
    } else if w == seq!['~'] {
        Some(Combinator::LaterSibling)
    } else {
        None
    }
}

/// The steps that a list of words writes, and the combinator that waits for its step.
pub open spec fn steps_of(words: Seq<Seq<char>>) -> Option<(Seq<StepView>, Option<Combinator>)>
    decreases words.len(),
{
    if words.len() == 0 {
        Some((Seq::empty(), None))
    } else {
        match steps_of(words.drop_last()) {
            None => None,
            Some((steps, waiting)) => match combinator_of(words.last()) {
                Some(c) => if steps.len() == 0 || waiting is Some {
                    None
                } else {
                    Some((steps, Some(c)))
                },
                None => match simples_of(segments(words.last())) {
                    None => None,
                    Some(compound) => {
                        let combinator = match waiting {
                            Some(c) => c,
                            None => Combinator::Descendant,
                        };
                        Some((steps.push(StepView { combinator, compound }), None))
                    },
                },
            },
        }
    }
}

/// A text with white space around each combinator character.
pub open spec fn spaced(s: Seq<char>) -> Seq<char>
    decreases s.len(),
{
    if s.len() == 0 {
        Seq::empty()
    } else {
        let c = s.last();
        if c == '>' || c == '+' || c == '~' {
            spaced(s.drop_last()) + seq![' ', c, ' ']
        } else {
            spaced(s.drop_last()).push(c)
        }
    }
}

/// The selector that a text writes.
pub open spec fn selector_of(s: Seq<char>) -> Option<Seq<StepView>> {
    match steps_of(text::words(spaced(s), CharClass::Space)) {
        Some((steps, None)) => if steps.len() > 0 {
            Some(steps)
        } else {
            None
        },
        _ => None,
    }
}

/// The selectors that a list of texts writes, or `None` where one of them writes none.
pub open spec fn selectors_of(v: Seq<Seq<char>>) -> Option<Seq<Seq<StepView>>>
    decreases v.len(),
{
    if v.len() == 0 {
        Some(Seq::empty())
    } else {
        match (selectors_of(v.drop_last()), selector_of(v.last())) {
            (Some(a), Some(b)) => Some(a.push(b)),
            _ => None,
        }
    }
}

/// The selectors that a text writes, with commas between them.
pub open spec fn selector_list_of(s: Seq<char>) -> Option<Seq<Seq<StepView>>> {
    selectors_of(text::pieces(s, CharClass::Is(',')))
}

fn read_name(cs: &[char]) -> (r: bool)
    ensures
        r == is_name(cs@),
{
    if cs.len() == 0 {
        return false;
    }
    let mut i: usize = 0;
    while i < cs.len()
        invariant
            i <= cs@.len(),
            forall|j: int| 0 <= j < i ==> name_char(#[trigger] cs@[j]),
        decreases cs@.len() - i,
    {
        let c = cs[i];
        let ok = ('a' <= c && c <= 'z') || ('A' <= c && c <= 'Z') || ('0' <= c && c <= '9') || c
            == '-' || c == '_' || c as u32 >= 0x80;
        if !ok {
            return false;
        }
        i = i + 1;
    }
    true
}

fn read_simple(mark: char, name: &[char]) -> (r: Option<Simple>)
    ensures
        r matches Some(s) ==> simple_of(mark, name@) == Some(s@),
        r is None ==> simple_of(mark, name@) is None,
{
    if mark == '.' {
        if read_name(name) {
            Some(Simple::Class(text::to_text(name)))
        } else {
            None
        }
    } else if mark == '#' {
        if read_name(name) {
            Some(Simple::Id(text::to_text(name)))
        } else {
            None
        }
    } else {
        let star = name.len() == 1 && name[0] == '*';
        proof {
            if star {
                assert(name@ =~= seq!['*']);
            }
        }
        if name.len() == 0 || star {
            Some(Simple::Any)
        } else if read_name(name) {
            let low = text::to_lower(name);
            Some(Simple::Tag(text::to_text(&low)))
        } else {
            None
        }
    }
}

/// The plain values of a list of pieces.
spec fn segs_view(v: Seq<(char, Vec<char>)>) -> Seq<(char, Seq<char>)> {
    v.map_values(|p: (char, Vec<char>)| (p.0, p.1@))
}

fn read_segments(w: &[char]) -> (r: Vec<(char, Vec<char>)>)
    ensures
        segs_view(r@) == segments(w@),
{
    let mut out: Vec<(char, Vec<char>)> = Vec::new();
    let mut mark: char = ' ';
    let mut cur: Vec<char> = Vec::new();
    let mut i: usize = 0;
    proof {
        assert(w@.take(0) =~= Seq::<char>::empty());
        assert(segs_view(out@).push((mark, cur@)) =~= segments(w@.take(0)));
    }
    while i < w.len()
        invariant
            i <= w@.len(),
            segs_view(out@).push((mark, cur@)) == segments(w@.take(i as int)),
        decreases w@.len() - i,
    {
        let c = w[i];
        let ghost before = segs_view(out@).push((mark, cur@));
        proof {
            assert(w@.take(i + 1).drop_last() =~= w@.take(i as int));
            assert(w@.take(i + 1).last() == c);
        }
        if c == '.' || c == '#' {
            out.push((mark, cur));
            mark = c;
            cur = Vec::new();
            proof {
                assert(segs_view(out@).push((mark, cur@)) =~= before.push((c, Seq::empty())));
            }
        } else {
            cur.push(c);
            proof {
                assert(segs_view(out@).push((mark, cur@)) =~= before.update(
                    before.len() - 1,
                    (before.last().0, before.last().1.push(c)),
                ));
            }
        }
        i = i + 1;
    }
    let ghost done = out@;
    let ghost last = (mark, cur@);
    out.push((mark, cur));
    proof {
        assert(segs_view(out@) =~= segs_view(done).push(last));
        assert(w@.take(w@.len() as int) =~= w@);
    }
    out
}

fn read_compound(w: &[char]) -> (r: Option<Vec<Simple>>)
    ensures
        r matches Some(v) ==> simples_of(segments(w@)) == Some(simples_view(v@)),
        r is None ==> simples_of(segments(w@)) is None,
{
    let segs = read_segments(w);
    let ghost sv = segs_view(segs@);
    let mut out: Vec<Simple> = Vec::new();
    let mut i: usize = 0;
    proof {
        assert(simples_view(out@) =~= Seq::empty());
    }
    while i < segs.len()
        invariant
            i <= segs@.len(),
            sv == segs_view(segs@),
            sv == segments(w@),
            simples_of(sv.take(i as int)) == Some(simples_view(out@)),
        decreases segs@.len() - i,
    {
        proof {
            assert(sv.take(i + 1).drop_last() =~= sv.take(i as int));
            assert(sv.take(i + 1).last() == sv[i as int]);
        }
        match read_simple(segs[i].0, &segs[i].1) {
            None => {
                proof {
                    lemma_simples_stop(sv, i + 1);
                }
                return None;
            },
            Some(s) => {
                let ghost prev = out@;
                let ghost one = s@;
                out.push(s);
                proof {
                    assert(simples_view(out@) =~= simples_view(prev).push(one));
                }
            },
        }
        i = i + 1;
    }
    proof {
        assert(sv.take(sv.len() as int) =~= sv);
    }
    Some(out)
}

/// Where a beginning of the pieces has no conditions, neither has the whole.
proof fn lemma_simples_stop(v: Seq<(char, Seq<char>)>, n: int)
    requires
        0 <= n <= v.len(),
        simples_of(v.take(n)) is None,
    ensures
        simples_of(v) is None,
    decreases v.len(),
{
    if n < v.len() {
        assert(v.drop_last().take(n) =~= v.take(n));
        lemma_simples_stop(v.drop_last(), n);
    } else {
        assert(v.take(n) =~= v);
    }
}

/// Where a beginning of the words writes no steps, neither does the whole.
proof fn lemma_steps_stop(v: Seq<Seq<char>>, n: int)
    requires
        0 <= n <= v.len(),
        steps_of(v.take(n)) is None,
    ensures
        steps_of(v) is None,
    decreases v.len(),
{
    if n < v.len() {
        assert(v.drop_last().take(n) =~= v.take(n));
        lemma_steps_stop(v.drop_last(), n);
    } else {
        assert(v.take(n) =~= v);
    }
}

/// Where a beginning of the texts writes no selectors, neither does the whole.
proof fn lemma_selectors_stop(v: Seq<Seq<char>>, n: int)
    requires
        0 <= n <= v.len(),
        selectors_of(v.take(n)) is None,
    ensures
        selectors_of(v) is None,
    decreases v.len(),
{
    if n < v.len() {
        assert(v.drop_last().take(n) =~= v.take(n));
        lemma_selectors_stop(v.drop_last(), n);
    } else {
        assert(v.take(n) =~= v);
    }
}

fn read_combinator(w: &[char]) -> (r: Option<Combinator>)
    ensures
        r == combinator_of(w@),
{
    if w.len() == 1 {
        proof {
            assert(w@ =~= seq![w@[0]]);
        }
        if w[0] == '>' {
            return Some(Combinator::Child);
        }
        if w[0] == '+' {
            return Some(Combinator::NextSibling);
        }
        if w[0] == '~' {
            return Some(Combinator::LaterSibling);
        }
        proof {
            assert(seq!['>'][0] == '>' && seq!['+'][0] == '+' && seq!['~'][0] == '~');
        }
        None
    } else {
        None
    }
}

fn add_spaces(cs: &[char]) -> (r: Vec<char>)
    ensures
        r@ == spaced(cs@),
{
    let mut out: Vec<char> = Vec::new();
    let mut i: usize = 0;
    proof {
        assert(cs@.take(0) =~= Seq::<char>::empty());
    }
    while i < cs.len()
        invariant
            i <= cs@.len(),
            out@ == spaced(cs@.take(i as int)),
        decreases cs@.len() - i,
    {
        let c = cs[i];
        let ghost before = out@;
        proof {
            assert(cs@.take(i + 1).drop_last() =~= cs@.take(i as int));
            assert(cs@.take(i + 1).last() == c);
        }
        if c == '>' || c == '+' || c == '~' {
            out.push(' ');
            out.push(c);
            out.push(' ');
            proof {
                assert(out@ =~= before + seq![' ', c, ' ']);
            }
        } else {
            out.push(c);
        }
        i = i + 1;
    }
    proof {
        assert(cs@.take(cs@.len() as int) =~= cs@);
    }
    out
}

fn read_selector(cs: &[char]) -> (r: Option<Selector>)
    ensures
        r matches Some(s) ==> selector_of(cs@) == Some(s@),
        r is None ==> selector_of(cs@) is None,
{
    let wide = add_spaces(cs);
    let words = text::split_words(&wide, CharClass::Space);
    let ghost wv = text::pieces_view(words@);
    let mut sel = Selector { steps: Vec::new() };
    let mut waiting: Option<Combinator> = None;
    let mut i: usize = 0;
    proof {
        assert(sel@ =~= Seq::empty());
    }
    while i < words.len()
        invariant
            i <= words@.len(),
            wv == text::pieces_view(words@),
            wv == text::words(spaced(cs@), CharClass::Space),
            steps_of(wv.take(i as int)) == Some((sel@, waiting)),
        decreases words@.len() - i,
    {
        proof {
            assert(wv.take(i + 1).drop_last() =~= wv.take(i as int));
            assert(wv.take(i + 1).last() == words@[i as int]@);
        }
        match read_combinator(&words[i]) {
            Some(c) => {
                if sel.steps.len() == 0 || waiting.is_some() {
                    proof {
                        lemma_steps_stop(wv, i + 1);
                    }
                    return None;
                }
                waiting = Some(c);
            },
            None => {
                match read_compound(&words[i]) {
                    None => {
                        proof {
                            lemma_steps_stop(wv, i + 1);
                        }
                        return None;
                    },
                    Some(compound) => {
                        let combinator = match waiting {
                            Some(c) => c,
                            None => Combinator::Descendant,
                        };
                        let ghost prev = sel@;
                        let step = Step { combinator, compound };
                        let ghost sv = step@;
                        sel.steps.push(step);
                        waiting = None;
                        proof {
                            assert(sel@ =~= prev.push(sv));
                        }
                    },
                }
            },
        }
        i = i + 1;
    }
    proof {
        assert(wv.take(wv.len() as int) =~= wv);
    }
    if waiting.is_some() || sel.steps.len() == 0 {
        None
    } else {
        Some(sel)
    }
}

/// Reads a list of selectors with commas between them; `None` where one of them is malformed.
pub fn parse_selector_list_str(s: &str) -> (r: Option<Vec<Selector>>)
    ensures
        r matches Some(v) ==> selector_list_of(s@) == Some(selectors_view(v@)),
        r is None ==> selector_list_of(s@) is None,
{
    let cs = text::to_chars(s);
    let parts = text::split(&cs, CharClass::Is(','));
    let ghost pv = text::pieces_view(parts@);
    let mut out: Vec<Selector> = Vec::new();
    let mut i: usize = 0;
    proof {
        assert(selectors_view(out@) =~= Seq::empty());
    }
    while i < parts.len()
        invariant
            i <= parts@.len(),
            pv == text::pieces_view(parts@),
            pv == text::pieces(s@, CharClass::Is(',')),
            selectors_of(pv.take(i as int)) == Some(selectors_view(out@)),
        decreases parts@.len() - i,
    {
        proof {
            assert(pv.take(i + 1).drop_last() =~= pv.take(i as int));
            assert(pv.take(i + 1).last() == parts@[i as int]@);
        }
        match read_selector(&parts[i]) {
            None => {
                proof {
                    lemma_selectors_stop(pv, i + 1);
                }
                return None;
            },
            Some(sel) => {
                let ghost prev = out@;
                let ghost one = sel@;
                out.push(sel);
                proof {
                    assert(selectors_view(out@) =~= selectors_view(prev).push(one));
                }
            },
        }
        i = i + 1;
    }
    proof {
        assert(pv.take(pv.len() as int) =~= pv);
    }
    Some(out)
}

/// The classes of a node: the words of its `class` attribute.
pub open spec fn classes_of(kind: KindView) -> Seq<Seq<char>> {
    match pairs::value_of(tree::attrs_of(kind), "class"@) {
        Some(v) => text::words(v, CharClass::AsciiSpace),
        None => Seq::empty(),
    }
}

/// Whether an element meets a condition.
pub open spec fn meets(kind: KindView, s: SimpleView) -> bool {
    kind matches KindView::Element { tag, attrs } && match s {
        SimpleView::Any => true,
        SimpleView::Tag(name) => tag == name,
        SimpleView::Class(name) => classes_of(kind).contains(name),
        SimpleView::Id(name) => pairs::value_of(attrs, "id"@) == Some(name),
    }
}

/// Whether an element meets all conditions of a list.
pub open spec fn meets_all(kind: KindView, v: Seq<SimpleView>) -> bool {
    kind is Element && forall|i: int| 0 <= i < v.len() ==> meets(kind, #[trigger] v[i])
}

/// The children of a node's parent that come before the node, and are elements.
pub open spec fn elders(t: Seq<NodeView>, id: NodeId) -> Seq<NodeId> {
    match t[id.at()].parent {
        None => Seq::empty(),
        Some(p) => elements(
            t,
            t[p.at()].children.take(t[p.at()].children.index_of(id)),
        ),
    }
}

/// The elements of a list of nodes.
pub open spec fn elements(t: Seq<NodeView>, v: Seq<NodeId>) -> Seq<NodeId>
    decreases v.len(),
{
    if v.len() == 0 {
        Seq::empty()
    } else if t[v.last().at()].kind is Element {
        elements(t, v.drop_last()).push(v.last())
    } else {
        elements(t, v.drop_last())
    }
}

/// Whether a node is what the first steps of a selector ask for.
pub open spec fn matches_steps(t: Seq<NodeView>, steps: Seq<StepView>, n: int, id: NodeId) -> bool
    decreases n,
{
    if n <= 0 {
        true
    } else {
        &&& meets_all(t[id.at()].kind, steps[n - 1].compound)
        &&& n > 1 ==> match steps[n - 1].combinator {
            Combinator::Descendant => exists|a: NodeId|
                tree::has(t, a) && a != id && #[trigger] tree::within(t, a, id) && matches_steps(
                    t,
                    steps,
                    n - 1,
                    a,
                ),
            Combinator::Child => t[id.at()].parent is Some && matches_steps(
                t,
                steps,
                n - 1,
                t[id.at()].parent->0,
            ),
            Combinator::NextSibling => elders(t, id).len() > 0 && matches_steps(
                t,
                steps,
                n - 1,
                elders(t, id).last(),
            ),
            Combinator::LaterSibling => exists|k: int|
                0 <= k < elders(t, id).len() && matches_steps(
                    t,
                    steps,
                    n - 1,
                    #[trigger] elders(t, id)[k],
                ),
        }
    }
}

/// Whether a node is what a selector asks for.
pub open spec fn matches_selector(t: Seq<NodeView>, steps: Seq<StepView>, id: NodeId) -> bool {
    matches_steps(t, steps, steps.len() as int, id)
}

/// Whether a node is what one of several selectors asks for.
pub open spec fn matches_any(t: Seq<NodeView>, v: Seq<Seq<StepView>>, id: NodeId) -> bool {
    exists|i: int| 0 <= i < v.len() && matches_selector(t, #[trigger] v[i], id)
}

/// The classes of a node.
pub fn class_words(kind: &NodeKind) -> (r: Vec<String>)
    ensures
        text::texts(r@) == classes_of(kind@),
{
    let mut out: Vec<String> = Vec::new();
    proof {
        assert(text::texts(out@) =~= Seq::empty());
    }
    match kind {
        NodeKind::Element { tag, attrs } => {
            match pairs::get(attrs, "class") {
                None => out,
                Some(v) => {
                    let cs = text::to_chars(&v);
                    let ws = text::split_words(&cs, CharClass::AsciiSpace);
                    let ghost wv = text::pieces_view(ws@);
                    let mut i: usize = 0;
                    while i < ws.len()
                        invariant
                            i <= ws@.len(),
                            wv == text::pieces_view(ws@),
                            text::texts(out@) == wv.take(i as int),
                        decreases ws@.len() - i,
                    {
                        let ghost prev = out@;
                        let w = text::to_text(&ws[i]);
                        out.push(w);
                        proof {
                            assert(text::texts(out@) =~= text::texts(prev).push(wv[i as int]));
                            assert(wv.take(i + 1) =~= wv.take(i as int).push(wv[i as int]));
                        }
                        i = i + 1;
                    }
                    proof {
                        assert(wv.take(wv.len() as int) =~= wv);
                    }
                    out
                },
            }
        },
        _ => {
            proof {
                lemma_no_attrs();
            }
            out
        },
    }
}

proof fn lemma_no_attrs()
    ensures
        pairs::value_of(Seq::empty(), "class"@) is None,
{
    assert(pairs::position(Seq::<(Seq<char>, Seq<char>)>::empty(), pairs::named("class"@)) == 0);
}

/// Whether a list of strings has a string.
pub fn has_text(v: &Vec<String>, s: &str) -> (r: bool)
    ensures
        r == text::texts(v@).contains(s@),
{
    let mut i: usize = 0;
    while i < v.len()
        invariant
            i <= v@.len(),
            forall|j: int| 0 <= j < i ==> (#[trigger] v@[j])@ != s@,
        decreases v@.len() - i,
    {
        if text::same(&v[i], s) {
            proof {
                assert(text::texts(v@)[i as int] == s@);
            }
            return true;
        }
        i = i + 1;
    }
    proof {
        if text::texts(v@).contains(s@) {
            let j = choose|j: int| 0 <= j < text::texts(v@).len() && text::texts(v@)[j] == s@;
            assert(v@[j]@ == s@);
        }
    }
    false
}

fn test_simple(kind: &NodeKind, s: &Simple) -> (r: bool)
    ensures
        r == meets(kind@, s@),
{
    match kind {
        NodeKind::Element { tag, attrs } => match s {
            Simple::Any => true,
            Simple::Tag(name) => text::same(tag, name),
            Simple::Class(name) => {
                let classes = class_words(kind);
                has_text(&classes, name)
            },
            Simple::Id(name) => match pairs::get(attrs, "id") {
                Some(v) => text::same(&v, name),
                None => false,
            },
        },
        _ => false,
    }
}

fn test_compound(kind: &NodeKind, v: &Vec<Simple>) -> (r: bool)
    ensures
        r == meets_all(kind@, simples_view(v@)),
{
    match kind {
        NodeKind::Element { .. } => {},
        _ => {
            return false;
        },
    }
    let ghost vv = simples_view(v@);
    let mut i: usize = 0;
    while i < v.len()
        invariant
            i <= v@.len(),
            vv == simples_view(v@),
            kind@ is Element,
            forall|j: int| 0 <= j < i ==> meets(kind@, #[trigger] vv[j]),
        decreases v@.len() - i,
    {
        if !test_simple(kind, &v[i]) {
            proof {
                assert(!meets(kind@, vv[i as int]));
            }
            return false;
        }
        proof {
            assert(vv[i as int] == v@[i as int]@);
        }
        i = i + 1;
    }
    true
}

/// The elements of a list of nodes.
pub fn keep_elements(dom: &Dom, v: &Vec<NodeId>, n: usize) -> (r: Vec<NodeId>)
    requires
        n <= v@.len(),
        forall|i: int| 0 <= i < v@.len() ==> tree::has(dom@, #[trigger] v@[i]),
    ensures
        r@ == elements(dom@, v@.take(n as int)),
        forall|i: int| 0 <= i < r@.len() ==> tree::has(dom@, #[trigger] r@[i]),
{
    let mut out: Vec<NodeId> = Vec::new();
    let mut i: usize = 0;
    while i < n
        invariant
            i <= n <= v@.len(),
            forall|i: int| 0 <= i < v@.len() ==> tree::has(dom@, #[trigger] v@[i]),
            out@ == elements(dom@, v@.take(i as int)),
            forall|i: int| 0 <= i < out@.len() ==> tree::has(dom@, #[trigger] out@[i]),
        decreases n - i,
    {
        proof {
            assert(v@.take(i + 1).drop_last() =~= v@.take(i as int));
            assert(v@.take(i + 1).last() == v@[i as int]);
        }
        match &dom.node(v[i]).kind {
            NodeKind::Element { .. } => {
                out.push(v[i]);
            },
            _ => {},
        }
        i = i + 1;
    }
    out
}

/// The elements among the elder siblings of a node.
fn find_elders(dom: &Dom, id: NodeId) -> (r: Vec<NodeId>)
    requires
        tree::wf(dom@),
        tree::has(dom@, id),
    ensures
        r@ == elders(dom@, id),
        forall|i: int| 0 <= i < r@.len() ==> tree::has(dom@, #[trigger] r@[i]),
{
    let ghost t = dom@;
    match dom.node(id).parent {
        None => Vec::new(),
        Some(p) => {
            proof {
                tree::lemma_parent(t, id);
            }
            let kids = dom.children(p);
            proof {
                assert forall|i: int| 0 <= i < kids@.len() implies tree::has(
                    t,
                    #[trigger] kids@[i],
                ) by {
                    tree::lemma_child(t, p, i);
                }
            }
            let mut k: usize = 0;
            while k < kids.len() && kids[k].raw != id.raw
                invariant
                    k <= kids@.len(),
                    forall|j: int| 0 <= j < k ==> kids@[j] != id,
                decreases kids@.len() - k,
            {
                k = k + 1;
            }
            proof {
                assert(kids@.contains(id));
                let w = choose|w: int| 0 <= w < kids@.len() && kids@[w] == id;
                assert(kids@.no_duplicates());
                assert(kids@[kids@.index_of(id)] == id);
                assert(k == kids@.index_of(id));
            }
            keep_elements(dom, &kids, k)
        },
    }
}

/// Whether a node is what the first steps of a selector ask for.
fn test_steps(sel: &Selector, n: usize, dom: &Dom, id: NodeId) -> (r: bool)
    requires
        tree::wf(dom@),
        tree::has(dom@, id),
        n <= sel.steps@.len(),
    ensures
        r == matches_steps(dom@, sel@, n as int, id),
    decreases n, 1int,
{
    if n == 0 {
        return true;
    }
    let ghost t = dom@;
    proof {
        assert(sel@[n - 1] == sel.steps@[n - 1]@);
    }
    if !test_compound(&dom.node(id).kind, &sel.steps[n - 1].compound) {
        return false;
    }
    if n == 1 {
        return true;
    }
    match sel.steps[n - 1].combinator {
        Combinator::Descendant => match dom.node(id).parent {
            None => {
                proof {
                    if matches_steps(t, sel@, n as int, id) {
                        let a = choose|a: NodeId|
                            tree::has(t, a) && a != id && #[trigger] tree::within(t, a, id)
                                && matches_steps(t, sel@, n - 1, a);
                        tree::lemma_within_up(t, a, id);
                    }
                }
                false
            },
            Some(p) => {
                proof {
                    tree::lemma_parent(t, id);
                }
                let r = test_upward(sel, n - 1, dom, p);
                proof {
                    assert(sel@[n - 1].combinator == Combinator::Descendant);
                    if r {
                        let a = choose|a: NodeId|
                            tree::has(t, a) && #[trigger] tree::within(t, a, p) && matches_steps(
                                t,
                                sel@,
                                n - 1,
                                a,
                            );
                        tree::lemma_within_down(t, a, id);
                        if a == id {
                            tree::lemma_within_rank(t, id, p);
                        }
                        assert(matches_steps(t, sel@, n as int, id));
                    } else {
                            if matches_steps(t, sel@, n as int, id) {
                            let a = choose|a: NodeId|
                                tree::has(t, a) && a != id && #[trigger] tree::within(t, a, id)
                                    && matches_steps(t, sel@, n - 1, a);
                            tree::lemma_within_up(t, a, id);
                        }
                    }
                }
                r
            },
        },
        Combinator::Child => match dom.node(id).parent {
            None => false,
            Some(p) => {
                proof {
                    tree::lemma_parent(t, id);
                }
                test_steps(sel, n - 1, dom, p)
            },
        },
        Combinator::NextSibling => {
            let e = find_elders(dom, id);
            if e.len() == 0 {
                false
            } else {
                proof {
                    assert(e@.last() == e@[e@.len() - 1]);
                }
                test_steps(sel, n - 1, dom, e[e.len() - 1])
            }
        },
        Combinator::LaterSibling => {
            let e = find_elders(dom, id);
            let r = test_each(sel, n - 1, dom, &e);
            proof {
                if r {
                    let k = choose|k: int|
                        0 <= k < e@.len() && matches_steps(t, sel@, n - 1, #[trigger] e@[k]);
                    assert(matches_steps(t, sel@, n - 1, elders(t, id)[k]));
                    assert(matches_steps(t, sel@, n as int, id));
                } else {
                    assert forall|k: int| 0 <= k < elders(t, id).len() implies !matches_steps(
                        t,
                        sel@,
                        n - 1,
                        #[trigger] elders(t, id)[k],
                    ) by {
                        assert(!matches_steps(t, sel@, n - 1, e@[k]));
                    }
                    assert(!matches_steps(t, sel@, n as int, id));
                }
            }
            r
        },
    }
}

/// Whether one of several nodes is what the first steps of a selector ask for.
fn test_each(sel: &Selector, n: usize, dom: &Dom, v: &Vec<NodeId>) -> (r: bool)
    requires
        tree::wf(dom@),
        forall|i: int| 0 <= i < v@.len() ==> tree::has(dom@, #[trigger] v@[i]),
        n <= sel.steps@.len(),
    ensures
        r == exists|k: int|
            0 <= k < v@.len() && matches_steps(dom@, sel@, n as int, #[trigger] v@[k]),
    decreases n, 2int,
{
    let mut k: usize = 0;
    while k < v.len()
        invariant
            k <= v@.len(),
            tree::wf(dom@),
            forall|i: int| 0 <= i < v@.len() ==> tree::has(dom@, #[trigger] v@[i]),
            n <= sel.steps@.len(),
            forall|j: int| 0 <= j < k ==> !matches_steps(dom@, sel@, n as int, #[trigger] v@[j]),
        decreases v@.len() - k,
    {
        if test_steps(sel, n, dom, v[k]) {
            proof {
                assert(matches_steps(dom@, sel@, n as int, v@[k as int]));
            }
            return true;
        }
        k = k + 1;
    }
    false
}

/// Whether a node, or one above it, is what the first steps of a selector ask for.
fn test_upward(sel: &Selector, n: usize, dom: &Dom, from: NodeId) -> (r: bool)
    requires
        tree::wf(dom@),
        tree::has(dom@, from),
        n <= sel.steps@.len(),
    ensures
        r == exists|a: NodeId|
            tree::has(dom@, a) && #[trigger] tree::within(dom@, a, from) && matches_steps(
                dom@,
                sel@,
                n as int,
                a,
            ),
    decreases n, 2int,
{
    let ghost t = dom@;
    let mut cur: NodeId = from;
    proof {
        assert(tree::within(t, from, from));
    }
    loop
        invariant
            t == dom@,
            tree::wf(t),
            tree::has(t, from),
            tree::has(t, cur),
            tree::within(t, cur, from),
            n <= sel.steps@.len(),
            forall|a: NodeId|
                tree::has(t, a) && #[trigger] tree::within(t, a, from) && !tree::within(t, a, cur)
                    ==> !matches_steps(t, sel@, n as int, a),
        decreases tree::top_rank(t) - tree::rank(t, cur),
    {
        if test_steps(sel, n, dom, cur) {
            return true;
        }
        proof {
            tree::lemma_top_rank(t, cur);
        }
        match dom.node(cur).parent {
            None => {
                proof {
                    assert forall|a: NodeId|
                        tree::has(t, a) && #[trigger] tree::within(
                            t,
                            a,
                            from,
                        ) implies !matches_steps(t, sel@, n as int, a) by {
                        if tree::within(t, a, cur) && a != cur {
                            tree::lemma_within_up(t, a, cur);
                        }
                    }
                }
                return false;
            },
            Some(p) => {
                proof {
                    tree::lemma_parent(t, cur);
                    tree::lemma_top_rank(t, p);
                    tree::lemma_within_transitive(t, p, cur, from);
                    assert forall|a: NodeId|
                        tree::has(t, a) && #[trigger] tree::within(t, a, from) && !tree::within(
                            t,
                            a,
                            p,
                        ) implies !matches_steps(t, sel@, n as int, a) by {
                        if tree::within(t, a, cur) && a != cur {
                            tree::lemma_within_up(t, a, cur);
                        }
                    }
                }
                cur = p;
            },
        }
    }
}

/// Whether a node is what a selector asks for.
pub fn selector_matches(sel: &Selector, dom: &Dom, id: NodeId) -> (r: bool)
    requires
        tree::wf(dom@),
        tree::has(dom@, id),
    ensures
        r == matches_selector(dom@, sel@, id),
{
    test_steps(sel, sel.steps.len(), dom, id)
}

/// Whether a node is what one of several selectors asks for.
pub fn any_matches(sels: &Vec<Selector>, dom: &Dom, id: NodeId) -> (r: bool)
    requires
        tree::wf(dom@),
        tree::has(dom@, id),
    ensures
        r == matches_any(dom@, selectors_view(sels@), id),
{
    let ghost sv = selectors_view(sels@);
    let mut i: usize = 0;
    while i < sels.len()
        invariant
            i <= sels@.len(),
            tree::wf(dom@),
            tree::has(dom@, id),
            sv == selectors_view(sels@),
            forall|j: int| 0 <= j < i ==> !matches_selector(dom@, #[trigger] sv[j], id),
        decreases sels@.len() - i,
    {
        proof {
            assert(sv[i as int] == sels@[i as int]@);
        }
        if selector_matches(&sels[i], dom, id) {
            return true;
        }
        i = i + 1;
    }
    false
}

/// Whether a text can stand in a selector as one name: names have no white space.
pub open spec fn is_plain_name(s: Seq<char>) -> bool {
    is_name(s) && forall|i: int| 0 <= i < s.len() ==> !text::is_space(#[trigger] s[i])
}

/// Whether a text can stand in a selector as one word: it has neither white space nor a combinator.
pub open spec fn is_word(w: Seq<char>) -> bool {
    &&& w.len() > 0
    &&& forall|i: int|
        0 <= i < w.len() ==> !text::is_space(#[trigger] w[i]) && w[i] != '>' && w[i] != '+' && w[i]
            != '~'
}

proof fn lemma_segments_extend(w: Seq<char>, b: Seq<char>)
    requires
        forall|i: int| 0 <= i < b.len() ==> #[trigger] b[i] != '.' && b[i] != '#',
    ensures
        segments(w).len() >= 1,
        segments(w + b) == segments(w).update(
            segments(w).len() - 1,
            (segments(w).last().0, segments(w).last().1 + b),
        ),
    decreases b.len(), w.len(),
{
    if w.len() > 0 {
        lemma_segments_extend(w.drop_last(), Seq::empty());
    }
    let v = segments(w);
    if b.len() == 0 {
        assert(w + b =~= w);
        assert(v.last().1 + b =~= v.last().1);
        assert(v.update(v.len() - 1, (v.last().0, v.last().1 + b)) =~= v);
    } else {
        let c = b.drop_last();
        lemma_segments_extend(w, c);
        assert((w + b).drop_last() =~= w + c);
        assert((w + b).last() == b.last());
        assert(b[b.len() - 1] != '.' && b[b.len() - 1] != '#');
        assert((v.last().1 + c).push(b.last()) =~= v.last().1 + b);
        assert(segments(w + b) =~= v.update(v.len() - 1, (v.last().0, v.last().1 + b)));
    }
}

/// What a word of a selector asks for: a name alone is a tag, in small letters; a star, or nothing,
/// is any element; a dot and a name behind a word ask for the class too, and a hash and a name for
/// the id.
pub proof fn conditions_are_read(w: Seq<char>, name: Seq<char>)
    requires
        is_name(name),
    ensures
        simples_of(segments(name)) == Some(seq![SimpleView::Tag(text::lower(name))]),
        simples_of(segments(Seq::empty())) == Some(seq![SimpleView::Any]),
        simples_of(segments(seq!['*'])) == Some(seq![SimpleView::Any]),
        simples_of(segments(w.push('.') + name)) == (match simples_of(segments(w)) {
            Some(v) => Some(v.push(SimpleView::Class(name))),
            None => None,
        }),
        simples_of(segments(w.push('#') + name)) == (match simples_of(segments(w)) {
            Some(v) => Some(v.push(SimpleView::Id(name))),
            None => None,
        }),
{
    assert forall|i: int| 0 <= i < name.len() implies #[trigger] name[i] != '.' && name[i]
        != '#' by {
        assert(name_char(name[i]));
    }
    reveal_with_fuel(simples_of, 3);
    let none = Seq::<char>::empty();
    lemma_segments_extend(none, name);
    assert(none + name =~= name);
    assert(name != seq!['*']) by {
        assert(name_char(name[0]));
        assert(seq!['*'][0] == '*');
    }
    assert(segments(name) =~= seq![(' ', name)]);
    assert(segments(name).drop_last() =~= Seq::empty());
    assert(simples_of(segments(name))->0 =~= seq![SimpleView::Tag(text::lower(name))]);
    assert(segments(none) =~= seq![(' ', none)]);
    assert(segments(none).drop_last() =~= Seq::empty());
    assert(simples_of(segments(none))->0 =~= seq![SimpleView::Any]);
    lemma_segments_extend(none, seq!['*']);
    assert(none + seq!['*'] =~= seq!['*']);
    assert(segments(seq!['*']) =~= seq![(' ', seq!['*'])]);
    assert(segments(seq!['*']).drop_last() =~= Seq::empty());
    assert(simples_of(segments(seq!['*']))->0 =~= seq![SimpleView::Any]);
    lemma_marked(w, '.', name);
    lemma_marked(w, '#', name);
}

proof fn lemma_marked(w: Seq<char>, mark: char, name: Seq<char>)
    requires
        mark == '.' || mark == '#',
        forall|i: int| 0 <= i < name.len() ==> #[trigger] name[i] != '.' && name[i] != '#',
    ensures
        segments(w.push(mark) + name) == segments(w).push((mark, name)),
        simples_of(segments(w.push(mark) + name)) == (match (
            simples_of(segments(w)),
            simple_of(mark, name),
        ) {
            (Some(v), Some(s)) => Some(v.push(s)),
            _ => None,
        }),
{
    let m = w.push(mark);
    assert(m.drop_last() =~= w);
    assert(segments(m) == segments(w).push((mark, Seq::empty())));
    lemma_segments_extend(m, name);
    assert(Seq::<char>::empty() + name =~= name);
    assert(segments(m + name) =~= segments(w).push((mark, name)));
    assert(segments(w).push((mark, name)).drop_last() =~= segments(w));
}

proof fn lemma_spaced(a: Seq<char>, b: Seq<char>)
    ensures
        spaced(a + b) == spaced(a) + spaced(b),
    decreases b.len(),
{
    if b.len() == 0 {
        assert(a + b =~= a);
        assert(spaced(a) + spaced(b) =~= spaced(a));
    } else {
        lemma_spaced(a, b.drop_last());
        assert((a + b).drop_last() =~= a + b.drop_last());
        assert((a + b).last() == b.last());
        assert(spaced(a + b) =~= spaced(a) + spaced(b));
    }
}

proof fn lemma_word_unspaced(w: Seq<char>)
    requires
        forall|i: int| 0 <= i < w.len() ==> #[trigger] w[i] != '>' && w[i] != '+' && w[i] != '~',
    ensures
        spaced(w) == w,
    decreases w.len(),
{
    if w.len() > 0 {
        let v = w.drop_last();
        assert forall|i: int| 0 <= i < v.len() implies #[trigger] v[i] != '>' && v[i] != '+' && v[i]
            != '~' by {
            assert(v[i] == w[i]);
        }
        lemma_word_unspaced(v);
        assert(w[w.len() - 1] == w.last());
        assert(v.push(w.last()) =~= w);
    }
}

/// The mark that a text puts between two words of a selector, for each way in which elements can
/// stand to each other.
pub open spec fn mark_of(c: Combinator) -> char {
    match c {
        Combinator::Descendant => ' ',
        Combinator::Child => '>',
        Combinator::NextSibling => '+',
        Combinator::LaterSibling => '~',
    }
}

proof fn lemma_words_marked(p: Seq<char>, c: Combinator, w: Seq<char>)
    requires
        is_word(w),
    ensures
        text::words(spaced(w), CharClass::Space) == seq![w],
        text::words(spaced(p.push(mark_of(c)) + w), CharClass::Space) == (
        if c == Combinator::Descendant {
            text::words(spaced(p), CharClass::Space).push(w)
        } else {
            text::words(spaced(p), CharClass::Space).push(seq![mark_of(c)]).push(w)
        }),
{
    let k = CharClass::Space;
    let m = mark_of(c);
    lemma_word_unspaced(w);
    text::words_stand_apart(w, ' ', Seq::empty(), k);
    lemma_spaced(p.push(m), w);
    assert(p.push(m).drop_last() =~= p);
    let before = text::words(spaced(p), k);
    if c == Combinator::Descendant {
        text::words_stand_apart(spaced(p), ' ', w, k);
        assert(spaced(p.push(m) + w) =~= spaced(p).push(' ') + w);
        assert(before + seq![w] =~= before.push(w));
    } else {
        let one = seq![m];
        assert(spaced(p.push(m)) == spaced(p) + seq![' ', m, ' ']);
        assert(spaced(p.push(m) + w) =~= spaced(p).push(' ') + (one.push(' ') + w));
        text::words_stand_apart(spaced(p), ' ', one.push(' ') + w, k);
        text::words_stand_apart(one, ' ', w, k);
        assert(text::words(one, k) == seq![one]);
        assert(before + (seq![one] + seq![w]) =~= before.push(one).push(w));
    }
}

/// A selector is read word by word: a word alone asks for one element, and a word behind a selector,
/// with a mark between them, asks for one more that stands as the mark says to what the selector
/// before asks for. A word that is malformed makes all of it malformed.
pub proof fn selectors_are_read(p: Seq<char>, c: Combinator, w: Seq<char>)
    requires
        is_word(w),
    ensures
        selector_of(w) == (match simples_of(segments(w)) {
            Some(compound) => Some(
                seq![StepView { combinator: Combinator::Descendant, compound }],
            ),
            None => None,
        }),
        selector_of(p) is Some ==> selector_of(p.push(mark_of(c)) + w) == (match simples_of(
            segments(w),
        ) {
            Some(compound) => Some(selector_of(p)->0.push(StepView { combinator: c, compound })),
            None => None,
        }),
{
    lemma_words_marked(p, c, w);
    assert(combinator_of(w) is None) by {
        assert(w[0] == w[0]);
        assert(seq!['>'][0] == '>' && seq!['+'][0] == '+' && seq!['~'][0] == '~');
    }
    reveal_with_fuel(steps_of, 3);
    assert(seq![w].drop_last() =~= Seq::empty());
    assert(seq![w].last() == w);
    if simples_of(segments(w)) is Some {
        let compound = simples_of(segments(w))->0;
        assert(Seq::<StepView>::empty().push(
            StepView { combinator: Combinator::Descendant, compound },
        ) =~= seq![StepView { combinator: Combinator::Descendant, compound }]);
    }
    if selector_of(p) is Some {
        let before = text::words(spaced(p), CharClass::Space);
        let m = seq![mark_of(c)];
        if c == Combinator::Descendant {
            assert(before.push(w).drop_last() =~= before);
        } else {
            assert(before.push(m).push(w).drop_last() =~= before.push(m));
            assert(before.push(m).drop_last() =~= before);
            assert(m[0] == mark_of(c));
            assert(seq!['>'][0] == '>' && seq!['+'][0] == '+' && seq!['~'][0] == '~');
            assert(combinator_of(m) == Some(c));
            assert(steps_of(before.push(m)) == Some((selector_of(p)->0, Some(c))));
        }
    }
}

proof fn lemma_selectors_append(a: Seq<Seq<char>>, b: Seq<Seq<char>>)
    ensures
        selectors_of(a + b) == (match (selectors_of(a), selectors_of(b)) {
            (Some(x), Some(y)) => Some(x + y),
            _ => None,
        }),
    decreases b.len(),
{
    if b.len() == 0 {
        assert(a + b =~= a);
        if selectors_of(a) is Some {
            assert(selectors_of(a)->0 + Seq::empty() =~= selectors_of(a)->0);
        }
    } else {
        lemma_selectors_append(a, b.drop_last());
        assert((a + b).drop_last() =~= a + b.drop_last());
        assert((a + b).last() == b.last());
        if selectors_of(a + b) is Some {
            let x = selectors_of(a)->0;
            let y = selectors_of(b.drop_last())->0;
            let z = selector_of(b.last())->0;
            assert((x + y).push(z) =~= x + y.push(z));
        }
    }
}

/// Selectors with a comma between them match what either of them matches; where one is malformed,
/// so is the whole. A text without a comma is one selector.
pub proof fn selector_lists_match_either(
    t: Seq<NodeView>,
    a: Seq<char>,
    b: Seq<char>,
    id: NodeId,
)
    ensures
        selector_list_of(a.push(',') + b) is Some <==> selector_list_of(a) is Some
            && selector_list_of(b) is Some,
        selector_list_of(a.push(',') + b) matches Some(v) ==> (matches_any(t, v, id) <==> matches_any(
            t,
            selector_list_of(a)->0,
            id,
        ) || matches_any(t, selector_list_of(b)->0, id)),
        !a.contains(',') ==> selector_list_of(a) == (match selector_of(a) {
            Some(s) => Some(seq![s]),
            None => None,
        }),
{
    let k = CharClass::Is(',');
    text::texts_are_cut_at_their_class(a, ',', b, k);
    lemma_selectors_append(text::pieces(a, k), text::pieces(b, k));
    if selector_list_of(a.push(',') + b) is Some {
        let x = selector_list_of(a)->0;
        let y = selector_list_of(b)->0;
        let v = x + y;
        if matches_any(t, v, id) {
            let i = choose|i: int| 0 <= i < v.len() && matches_selector(t, #[trigger] v[i], id);
            if i < x.len() {
                assert(matches_selector(t, x[i], id));
            } else {
                assert(matches_selector(t, y[i - x.len()], id));
            }
        }
        if matches_any(t, x, id) {
            let i = choose|i: int| 0 <= i < x.len() && matches_selector(t, #[trigger] x[i], id);
            assert(v[i] == x[i]);
        }
        if matches_any(t, y, id) {
            let i = choose|i: int| 0 <= i < y.len() && matches_selector(t, #[trigger] y[i], id);
            assert(v[x.len() + i] == y[i]);
        }
    }
    if !a.contains(',') {
        assert forall|i: int| 0 <= i < a.len() implies !k.has_char(#[trigger] a[i]) by {
            assert(a.contains(a[i]));
        }
        assert(seq![a].drop_last() =~= Seq::empty());
        reveal_with_fuel(selectors_of, 2);
        if selector_of(a) is Some {
            assert(Seq::<Seq<StepView>>::empty().push(selector_of(a)->0) =~= seq![
                selector_of(a)->0,
            ]);
        }
    }
}

/// A word that is one condition matches the elements that meet it.
proof fn lemma_one_word(t: Seq<NodeView>, w: Seq<char>, id: NodeId)
    requires
        is_word(w),
        !w.contains(','),
        simples_of(segments(w)) is Some,
    ensures
        selector_list_of(w) is Some,
        matches_any(t, selector_list_of(w)->0, id) <==> meets_all(
            t[id.at()].kind,
            simples_of(segments(w))->0,
        ),
{
    selectors_are_read(w, Combinator::Descendant, w);
    selector_lists_match_either(t, w, w, id);
    let v = selector_list_of(w)->0;
    let steps = selector_of(w)->0;
    assert(v == seq![steps]);
    assert(matches_selector(t, steps, id) <==> meets_all(
        t[id.at()].kind,
        simples_of(segments(w))->0,
    ));
    assert(v[0] == steps);
}

proof fn lemma_name_is_word(m: Seq<char>, name: Seq<char>)
    requires
        is_plain_name(name),
        m.len() == 0 || m == seq!['.'] || m == seq!['#'],
    ensures
        is_word(m + name),
        !(m + name).contains(','),
{
    let w = m + name;
    assert forall|i: int| 0 <= i < w.len() implies !text::is_space(#[trigger] w[i]) && w[i] != '>'
        && w[i] != '+' && w[i] != '~' && w[i] != ',' by {
        if i >= m.len() {
            assert(w[i] == name[i - m.len()]);
            assert(name_char(name[i - m.len()]));
        }
    }
}

/// The selector of a class matches the elements that have it among the words of their `class`, at
/// whatever place, and no others.
pub proof fn class_selector_finds_the_word(t: Seq<NodeView>, name: Seq<char>, id: NodeId)
    requires
        is_plain_name(name),
    ensures
        selector_list_of(seq!['.'] + name) is Some,
        matches_any(t, selector_list_of(seq!['.'] + name)->0, id) <==> (t[id.at()].kind matches
            KindView::Element { tag, attrs } && pairs::value_of(attrs, "class"@) matches Some(v)
            && exists|i: int|
            0 <= i < text::words(v, CharClass::AsciiSpace).len() && #[trigger] text::words(
                v,
                CharClass::AsciiSpace,
            )[i] == name),
{
    let w = seq!['.'] + name;
    let none = Seq::<char>::empty();
    lemma_name_is_word(seq!['.'], name);
    conditions_are_read(none, name);
    assert(none.push('.') + name =~= w);
    lemma_one_word(t, w, id);
    let v = simples_of(segments(w))->0;
    assert(v =~= seq![SimpleView::Any, SimpleView::Class(name)]);
    let kind = t[id.at()].kind;
    assert(meets_all(kind, v) <==> kind is Element && meets(kind, v[0]) && meets(kind, v[1]));
    if kind is Element && pairs::value_of(tree::attrs_of(kind), "class"@) is Some {
        let ws = text::words(
            pairs::value_of(tree::attrs_of(kind), "class"@)->0,
            CharClass::AsciiSpace,
        );
        assert(meets(kind, v[1]) <==> ws.contains(name));
    }
}

/// The selector of an id matches the elements whose `id` it is, and that of a tag the elements with
/// the tag, in small letters; a star matches every element.
pub proof fn id_and_tag_selectors_match(t: Seq<NodeView>, name: Seq<char>, id: NodeId)
    requires
        is_plain_name(name),
    ensures
        selector_list_of(seq!['#'] + name) is Some,
        matches_any(t, selector_list_of(seq!['#'] + name)->0, id) <==> (t[id.at()].kind matches
            KindView::Element { tag, attrs } && pairs::value_of(attrs, "id"@) == Some(name)),
        selector_list_of(name) is Some,
        matches_any(t, selector_list_of(name)->0, id) <==> (t[id.at()].kind matches
            KindView::Element { tag, attrs } && tag == text::lower(name)),
        selector_list_of(seq!['*']) is Some,
        matches_any(t, selector_list_of(seq!['*'])->0, id) <==> t[id.at()].kind is Element,
{
    let none = Seq::<char>::empty();
    let kind = t[id.at()].kind;
    conditions_are_read(none, name);
    let w = seq!['#'] + name;
    lemma_name_is_word(seq!['#'], name);
    assert(none.push('#') + name =~= w);
    lemma_one_word(t, w, id);
    let v = simples_of(segments(w))->0;
    assert(v =~= seq![SimpleView::Any, SimpleView::Id(name)]);
    assert(meets_all(kind, v) <==> kind is Element && meets(kind, v[0]) && meets(kind, v[1]));
    lemma_name_is_word(none, name);
    assert(none + name =~= name);
    lemma_one_word(t, name, id);
    let u = simples_of(segments(name))->0;
    assert(meets_all(kind, u) <==> kind is Element && meets(kind, u[0]));
    let star = seq!['*'];
    assert(is_word(star) && !star.contains(','));
    lemma_one_word(t, star, id);
    let any = simples_of(segments(star))->0;
    assert(meets_all(kind, any) <==> kind is Element && meets(kind, any[0]));
}

/// An element is what several conditions ask for where it is what each of them asks for.
pub proof fn conditions_hold_together(kind: KindView, v: Seq<SimpleView>, s: SimpleView)
    ensures
        meets_all(kind, Seq::empty()) <==> kind is Element,
        meets_all(kind, v.push(s)) <==> meets_all(kind, v) && meets(kind, s),
{
    if meets_all(kind, v.push(s)) {
        assert forall|i: int| 0 <= i < v.len() implies meets(kind, #[trigger] v[i]) by {
            assert(v.push(s)[i] == v[i]);
        }
        assert(v.push(s)[v.len() as int] == s);
    }
}

proof fn lemma_earlier_steps(
    t: Seq<NodeView>,
    steps: Seq<StepView>,
    step: StepView,
    n: int,
    id: NodeId,
)
    requires
        n <= steps.len(),
    ensures
        matches_steps(t, steps.push(step), n, id) == matches_steps(t, steps, n, id),
    decreases n,
{
    if n > 0 {
        let more = steps.push(step);
        assert(more[n - 1] == steps[n - 1]);
        if n > 1 {
            assert forall|a: NodeId|
                matches_steps(t, more, n - 1, a) == #[trigger] matches_steps(t, steps, n - 1, a) by {
                lemma_earlier_steps(t, steps, step, n - 1, a);
            }
            assert forall|a: NodeId|
                #[trigger] matches_steps(t, more, n - 1, a) == matches_steps(t, steps, n - 1, a) by {
                lemma_earlier_steps(t, steps, step, n - 1, a);
            }
            match steps[n - 1].combinator {
                Combinator::Descendant => {
                    if matches_steps(t, more, n, id) {
                        let a = choose|a: NodeId|
                            tree::has(t, a) && a != id && #[trigger] tree::within(t, a, id)
                                && matches_steps(t, more, n - 1, a);
                        assert(matches_steps(t, steps, n - 1, a));
                    }
                    if matches_steps(t, steps, n, id) {
                        let a = choose|a: NodeId|
                            tree::has(t, a) && a != id && #[trigger] tree::within(t, a, id)
                                && matches_steps(t, steps, n - 1, a);
                        assert(matches_steps(t, more, n - 1, a));
                    }
                },
                Combinator::LaterSibling => {
                    let e = elders(t, id);
                    if matches_steps(t, more, n, id) {
                        let k = choose|k: int|
                            0 <= k < e.len() && matches_steps(t, more, n - 1, #[trigger] e[k]);
                        assert(matches_steps(t, steps, n - 1, e[k]));
                    }
                    if matches_steps(t, steps, n, id) {
                        let k = choose|k: int|
                            0 <= k < e.len() && matches_steps(t, steps, n - 1, #[trigger] e[k]);
                        assert(matches_steps(t, more, n - 1, e[k]));
                    }
                },
                Combinator::Child => {
                    if t[id.at()].parent is Some {
                        lemma_earlier_steps(t, steps, step, n - 1, t[id.at()].parent->0);
                    }
                    assert(matches_steps(t, more, n, id) == matches_steps(t, steps, n, id));
                },
                Combinator::NextSibling => {
                    lemma_earlier_steps(t, steps, step, n - 1, elders(t, id).last());
                    assert(matches_steps(t, more, n, id) == matches_steps(t, steps, n, id));
                },
            }
        }
    }
}

proof fn lemma_elements(t: Seq<NodeView>, v: Seq<NodeId>)
    ensures
        forall|n: NodeId| #[trigger]
            elements(t, v).contains(n) <==> v.contains(n) && t[n.at()].kind is Element,
        elements(t, v).len() > 0 ==> exists|i: int|
            0 <= i < v.len() && #[trigger] v[i] == elements(t, v).last() && t[v[i].at()].kind
                is Element && forall|m: int|
                i < m < v.len() ==> !(t[(#[trigger] v[m]).at()].kind is Element),
    decreases v.len(),
{
    let e = elements(t, v);
    if v.len() > 0 {
        let w = v.drop_last();
        lemma_elements(t, w);
        let last = v.last();
        assert(v[v.len() - 1] == last);
        assert forall|n: NodeId| #[trigger]
            e.contains(n) <==> v.contains(n) && t[n.at()].kind is Element by {
            if v.contains(n) && n != last {
                let i = v.index_of(n);
                assert(w[i] == n);
                assert(w.contains(n));
            }
            if w.contains(n) {
                let i = w.index_of(n);
                assert(v[i] == n);
            }
            if t[last.at()].kind is Element {
                let f = elements(t, w);
                if e.contains(n) {
                    let i = e.index_of(n);
                    if i < f.len() {
                        assert(f[i] == n);
                        assert(f.contains(n));
                    }
                }
                if f.contains(n) {
                    let i = f.index_of(n);
                    assert(e[i] == n);
                }
                assert(e[e.len() - 1] == last);
            }
        }
        if e.len() > 0 {
            if t[last.at()].kind is Element {
                assert(e.last() == last);
            } else {
                let i = choose|i: int|
                    0 <= i < w.len() && #[trigger] w[i] == elements(t, w).last()
                        && t[w[i].at()].kind is Element && forall|m: int|
                        i < m < w.len() ==> !(t[(#[trigger] w[m]).at()].kind is Element);
                assert(v[i] == w[i]);
                assert forall|m: int| i < m < v.len() implies !(t[(
                #[trigger] v[m]).at()].kind is Element) by {
                    if m < w.len() {
                        assert(v[m] == w[m]);
                    }
                }
            }
        }
    }
}

/// How elements stand to each other: behind a selector, a word asks for an element that is somewhere
/// below, a child of, right behind or somewhere behind an element that the selector asks for; only
/// elements count between siblings.
pub proof fn combinators_place_elements(
    t: Seq<NodeView>,
    steps: Seq<StepView>,
    step: StepView,
    id: NodeId,
)
    requires
        tree::wf(t),
        tree::has(t, id),
        steps.len() > 0,
    ensures
        matches_selector(t, steps.push(step), id) <==> meets_all(t[id.at()].kind, step.compound)
            && (match step.combinator {
            Combinator::Descendant => exists|a: NodeId|
                tree::has(t, a) && a != id && #[trigger] tree::within(t, a, id) && matches_selector(
                    t,
                    steps,
                    a,
                ),
            Combinator::Child => t[id.at()].parent matches Some(p) && matches_selector(t, steps, p),
            Combinator::NextSibling => t[id.at()].parent matches Some(p) && exists|i: int, j: int|
                {
                    &&& 0 <= i < j < t[p.at()].children.len()
                    &&& #[trigger] t[p.at()].children[j] == id
                    &&& t[(#[trigger] t[p.at()].children[i]).at()].kind is Element
                    &&& matches_selector(t, steps, t[p.at()].children[i])
                    &&& forall|m: int|
                        i < m < j ==> !(t[(#[trigger] t[p.at()].children[m]).at()].kind is Element)
                },
            Combinator::LaterSibling => t[id.at()].parent matches Some(p) && exists|i: int, j: int|
                {
                    &&& 0 <= i < j < t[p.at()].children.len()
                    &&& #[trigger] t[p.at()].children[j] == id
                    &&& t[(#[trigger] t[p.at()].children[i]).at()].kind is Element
                    &&& matches_selector(t, steps, t[p.at()].children[i])
                },
        }),
{
    let more = steps.push(step);
    let n = more.len() as int;
    assert(more[n - 1] == step);
    assert forall|a: NodeId|
        #[trigger] matches_steps(t, more, n - 1, a) == matches_selector(t, steps, a) by {
        lemma_earlier_steps(t, steps, step, n - 1, a);
    }
    assert forall|a: NodeId|
        matches_steps(t, more, n - 1, a) == #[trigger] matches_selector(t, steps, a) by {
        lemma_earlier_steps(t, steps, step, n - 1, a);
    }
    match t[id.at()].parent {
        None => {
            assert(elders(t, id).len() == 0);
            if step.combinator == Combinator::Descendant {
                if matches_selector(t, more, id) {
                    let a = choose|a: NodeId|
                        tree::has(t, a) && a != id && #[trigger] tree::within(t, a, id)
                            && matches_steps(t, more, n - 1, a);
                    tree::lemma_within_up(t, a, id);
                }
            }
        },
        Some(p) => {
            tree::lemma_parent(t, id);
            let kids = t[p.at()].children;
            let j = kids.index_of(id);
            assert(kids[j] == id);
            assert(kids.no_duplicates());
            let v = kids.take(j);
            let e = elders(t, id);
            lemma_elements(t, v);
            match step.combinator {
                Combinator::Descendant => {
                    if matches_selector(t, more, id) {
                        let a = choose|a: NodeId|
                            tree::has(t, a) && a != id && #[trigger] tree::within(t, a, id)
                                && matches_steps(t, more, n - 1, a);
                        assert(matches_selector(t, steps, a));
                    }
                },
                Combinator::Child => {},
                Combinator::NextSibling => {
                    if e.len() > 0 {
                        let i = choose|i: int|
                            0 <= i < v.len() && #[trigger] v[i] == e.last() && t[v[i].at()].kind
                                is Element && forall|m: int|
                                i < m < v.len() ==> !(t[(#[trigger] v[m]).at()].kind is Element);
                        assert(kids[i] == e.last());
                        assert forall|m: int| i < m < j implies !(t[(
                        #[trigger] kids[m]).at()].kind is Element) by {
                            assert(v[m] == kids[m]);
                        }
                        assert(forall|a: int, b: int|
                            0 <= a < b < kids.len() && #[trigger] kids[b] == id
                                && t[(#[trigger] kids[a]).at()].kind is Element && (forall|m: int|
                                a < m < b ==> !(t[(#[trigger] kids[m]).at()].kind is Element))
                                ==> a == i && b == j);
                    } else {
                        assert forall|a: int, b: int|
                            0 <= a < b < kids.len() && #[trigger] kids[b] == id implies !(t[(
                        #[trigger] kids[a]).at()].kind is Element) by {
                            assert(b == j);
                            assert(v[a] == kids[a]);
                            assert(v.contains(kids[a]));
                            if t[kids[a].at()].kind is Element {
                                assert(e.contains(kids[a]));
                            }
                        }
                    }
                },
                Combinator::LaterSibling => {
                    if matches_selector(t, more, id) {
                        let k = choose|k: int|
                            0 <= k < e.len() && matches_steps(t, more, n - 1, #[trigger] e[k]);
                        assert(e.contains(e[k]));
                        let i = v.index_of(e[k]);
                        assert(kids[i] == e[k]);
                        assert(matches_selector(t, steps, kids[i]));
                        assert(kids[j] == id);
                    }
                    if exists|i: int, j: int|
                        {
                            &&& 0 <= i < j < kids.len()
                            &&& #[trigger] kids[j] == id
                            &&& t[(#[trigger] kids[i]).at()].kind is Element
                            &&& matches_selector(t, steps, kids[i])
                        } {
                        let (i, b) = choose|i: int, j: int|
                            {
                                &&& 0 <= i < j < kids.len()
                                &&& #[trigger] kids[j] == id
                                &&& t[(#[trigger] kids[i]).at()].kind is Element
                                &&& matches_selector(t, steps, kids[i])
                            };
                        assert(b == j);
                        assert(v[i] == kids[i]);
                        assert(v.contains(kids[i]));
                        assert(e.contains(kids[i]));
                        let k = e.index_of(kids[i]);
                        assert(matches_steps(t, more, n - 1, e[k]));
                    }
                },
            }
        },
    }
}

/// Names are made of letters, digits, hyphens and underscores, and of anything beyond ASCII; no mark,
/// combinator, comma or space of ASCII is part of one.
pub proof fn names_have_their_characters(c: char)
    ensures
        'a' <= c <= 'z' || 'A' <= c <= 'Z' || '0' <= c <= '9' || c == '-' || c == '_' || c as u32
            >= 128 ==> name_char(c),
        c as u32 <= 44 || c == '.' || c == '/' || ':' <= c <= '@' || '[' <= c <= '^' || c == '`'
            || '{' <= c <= '\x7f' ==> !name_char(c),
{
}

} // verus!
