//! The inline style of an element, and the two spellings of names.
use crate::dom;
use crate::mutate;
use crate::observers;
use crate::observers::ObserverState;
use crate::pairs;
use crate::text;
use crate::text::CharClass;
use crate::tree;
use crate::tree::{Dom, KindView, NodeId, NodeKind, NodeView};
use vstd::prelude::*;

verus! {

/// The declaration that a piece of a style text writes: a name, a colon, a value.
pub open spec fn decl_of(piece: Seq<char>, lower_names: bool) -> Option<(Seq<char>, Seq<char>)> {
    match text::cut_at(text::trimmed(piece), ':') {
        Some((k, v)) => {
            let name = text::trimmed(k);
            Some((if lower_names {
                text::lower(name)
            } else {
                name
            }, text::trimmed(v)))
        },
        None => None,
    }
}

/// The declarations of a list of pieces; pieces that write none are passed over.
pub open spec fn decls_of(v: Seq<Seq<char>>, lower_names: bool) -> Seq<(Seq<char>, Seq<char>)>
    decreases v.len(),
{
    if v.len() == 0 {
        Seq::empty()
    } else {
        match decl_of(v.last(), lower_names) {
            Some(d) => decls_of(v.drop_last(), lower_names).push(d),
            None => decls_of(v.drop_last(), lower_names),
        }
    }
}

/// The declarations of a style text.
pub open spec fn style_decls(s: Seq<char>, lower_names: bool) -> Seq<(Seq<char>, Seq<char>)> {
    decls_of(text::pieces(s, CharClass::Is(';')), lower_names)
}

/// A declaration as it is written.
pub open spec fn decl_text(d: (Seq<char>, Seq<char>)) -> Seq<char> {
    d.0 + ": "@ + d.1
}

/// Declarations as they are written, with a semicolon between each two.
pub open spec fn decls_text(v: Seq<(Seq<char>, Seq<char>)>) -> Seq<char> {
    text::joined(v.map_values(|d: (Seq<char>, Seq<char>)| decl_text(d)), "; "@)
}

/// The declarations of a style text.
pub fn read_decls(s: &str, lower_names: bool) -> (r: Vec<(String, String)>)
    ensures
        text::pair_texts(r@) == style_decls(s@, lower_names),
{
    let cs = text::to_chars(s);
    let parts = text::split(&cs, CharClass::Is(';'));
    let ghost pv = text::pieces_view(parts@);
    let mut out: Vec<(String, String)> = Vec::new();
    let mut i: usize = 0;
    proof {
        assert(text::pair_texts(out@) =~= Seq::empty());
    }
    while i < parts.len()
        invariant
            i <= parts@.len(),
            pv == text::pieces_view(parts@),
            text::pair_texts(out@) == decls_of(pv.take(i as int), lower_names),
        decreases parts@.len() - i,
    {
        proof {
            assert(pv.take(i + 1).drop_last() =~= pv.take(i as int));
            assert(pv.take(i + 1).last() == parts@[i as int]@);
        }
        let chunk = text::trim(&parts[i]);
        match text::split_once(&chunk, ':') {
            None => {},
            Some((k, v)) => {
                let name = text::trim(&k);
                let value = text::trim(&v);
                let key = if lower_names {
                    text::to_lower(&name)
                } else {
                    name
                };
                let ghost prev = out@;
                let ks = text::to_text(&key);
                let vs = text::to_text(&value);
                out.push((ks, vs));
                proof {
                    assert(text::pair_texts(out@) =~= text::pair_texts(prev).push((key@, value@)));
                }
            },
        }
        i = i + 1;
    }
    proof {
        assert(pv.take(pv.len() as int) =~= pv);
    }
    out
}

/// The declarations of a style text, names in lower case.
pub fn parse_style_decl_pairs(s: &str) -> (r: Vec<(String, String)>)
    ensures
        text::pair_texts(r@) == style_decls(s@, true),
{
    read_decls(s, true)
}

/// Writes declarations.
pub fn write_decls(v: &Vec<(String, String)>) -> (r: String)
    ensures
        r@ == decls_text(text::pair_texts(v@)),
{
    let ghost goal = text::pair_texts(v@).map_values(
        |d: (Seq<char>, Seq<char>)| decl_text(d),
    );
    let mut parts: Vec<Vec<char>> = Vec::new();
    let mut i: usize = 0;
    while i < v.len()
        invariant
            i <= v@.len(),
            goal == text::pair_texts(v@).map_values(|d: (Seq<char>, Seq<char>)| decl_text(d)),
            text::pieces_view(parts@) == goal.take(i as int),
        decreases v@.len() - i,
    {
        let ghost prev = parts@;
        let mut one = text::to_chars(&v[i].0);
        text::push_text(&mut one, ": ");
        text::push_text(&mut one, &v[i].1);
        proof {
            assert(one@ =~= goal[i as int]);
        }
        parts.push(one);
        proof {
            assert(text::pieces_view(parts@) =~= text::pieces_view(prev).push(goal[i as int]));
            assert(goal.take(i + 1) =~= goal.take(i as int).push(goal[i as int]));
        }
        i = i + 1;
    }
    proof {
        assert(goal.take(goal.len() as int) =~= goal);
    }
    let cs = text::join(&parts, "; ");
    text::to_text(&cs)
}

/// The text of an element's `style` attribute.
pub open spec fn css_text(kind: KindView) -> Seq<char> {
    match pairs::value_of(tree::attrs_of(kind), "style"@) {
        Some(v) => v,
        None => Seq::empty(),
    }
}

/// The declarations of an element's inline style.
pub open spec fn inline_style(kind: KindView) -> Seq<(Seq<char>, Seq<char>)> {
    style_decls(css_text(kind), true)
}

/// The tree with the inline style of a node written: the attribute goes where there is nothing
/// to write.
pub open spec fn with_style(t: Seq<NodeView>, id: NodeId, decls: Seq<(Seq<char>, Seq<char>)>) -> Seq<
    NodeView,
> {
    let s = decls_text(decls);
    if s.len() == 0 {
        tree::without_attr(t, id, "style"@)
    } else {
        tree::with_attr(t, id, "style"@, s)
    }
}

/// The text of an element's inline style.
pub fn style_get_css_text(dom: &Dom, id: NodeId) -> (r: String)
    requires
        tree::has(dom@, id),
    ensures
        r@ == css_text(dom@[id.at()].kind),
{
    match dom::read_exact_attr(dom, id, "style") {
        Some(v) => v,
        None => String::new(),
    }
}

/// Replaces the text of an element's inline style, and records it.
pub fn style_set_css_text(
    dom: &mut Dom,
    slot: &mut Option<ObserverState>,
    id: NodeId,
    value: &str,
)
    requires
        tree::wf(old(dom)@),
        tree::has(old(dom)@, id),
    ensures
        tree::wf(final(dom)@),
        final(dom)@ == tree::with_attr(old(dom)@, id, "style"@, value@),
        observers::slot_view(*final(slot)) == mutate::attribute_noted(observers::slot_view(*old(slot)), id, "style"@),
        final(dom).touched() == (old(dom).touched() || old(dom)@[id.at()].kind is Element),
{
    dom.set_attribute(id, "style", text::copy(value));
    mutate::record_attribute(slot, id, "style");
}

/// The declarations of an element's inline style.
pub fn parse_inline_style_for(dom: &Dom, id: NodeId) -> (r: Vec<(String, String)>)
    requires
        tree::has(dom@, id),
    ensures
        text::pair_texts(r@) == inline_style(dom@[id.at()].kind),
{
    let s = style_get_css_text(dom, id);
    parse_style_decl_pairs(&s)
}

/// Writes the inline style of an element, and records it.
pub fn write_inline_style(
    dom: &mut Dom,
    slot: &mut Option<ObserverState>,
    id: NodeId,
    decls: &Vec<(String, String)>,
)
    requires
        tree::wf(old(dom)@),
        tree::has(old(dom)@, id),
    ensures
        tree::wf(final(dom)@),
        final(dom)@ == with_style(old(dom)@, id, text::pair_texts(decls@)),
        observers::slot_view(*final(slot)) == mutate::attribute_noted(observers::slot_view(*old(slot)), id, "style"@),
        final(dom).touched() == (old(dom).touched() || old(dom)@[id.at()].kind is Element),
{
    let s = write_decls(decls);
    if s.as_str().is_empty() {
        dom.remove_attribute(id, "style");
    } else {
        dom.set_attribute(id, "style", s);
    }
    mutate::record_attribute(slot, id, "style");
}

/// The value of a property of an element's inline style; nothing where it has none.
pub fn style_get_property_value(dom: &Dom, id: NodeId, name: &str) -> (r: String)
    requires
        tree::has(dom@, id),
    ensures
        r@ == match pairs::value_of(inline_style(dom@[id.at()].kind), text::lower(name@)) {
            Some(v) => v,
            None => Seq::empty(),
        },
{
    let decls = parse_inline_style_for(dom, id);
    let k = text::lower_text(name);
    match pairs::get(&decls, &k) {
        Some(v) => v,
        None => String::new(),
    }
}

/// The declarations with a property set: it goes to the end.
pub open spec fn with_property(
    v: Seq<(Seq<char>, Seq<char>)>,
    k: Seq<char>,
    value: Seq<char>,
) -> Seq<(Seq<char>, Seq<char>)> {
    pairs::without(v, k).push((k, value))
}

/// Sets a property of an element's inline style, and records it.
pub fn style_set_property(
    dom: &mut Dom,
    slot: &mut Option<ObserverState>,
    id: NodeId,
    name: &str,
    value: &str,
)
    requires
        tree::wf(old(dom)@),
        tree::has(old(dom)@, id),
    ensures
        tree::wf(final(dom)@),
        final(dom)@ == with_style(
            old(dom)@,
            id,
            with_property(
                inline_style(old(dom)@[id.at()].kind),
                text::lower(name@),
                value@,
            ),
        ),
        observers::slot_view(*final(slot)) == mutate::attribute_noted(observers::slot_view(*old(slot)), id, "style"@),
        final(dom).touched() == (old(dom).touched() || old(dom)@[id.at()].kind is Element),
{
    let decls = parse_inline_style_for(dom, id);
    let k = text::lower_text(name);
    let mut rest = pairs::drop_name(&decls, &k);
    let ghost prev = rest@;
    rest.push((k, text::copy(value)));
    proof {
        assert(text::pair_texts(rest@) =~= text::pair_texts(prev).push((text::lower(name@), value@)));
    }
    write_inline_style(dom, slot, id, &rest);
}

/// Removes a property of an element's inline style, records it, and gives the value that it had.
pub fn style_remove_property(
    dom: &mut Dom,
    slot: &mut Option<ObserverState>,
    id: NodeId,
    name: &str,
) -> (r: String)
    requires
        tree::wf(old(dom)@),
        tree::has(old(dom)@, id),
    ensures
        tree::wf(final(dom)@),
        final(dom)@ == with_style(
            old(dom)@,
            id,
            pairs::without(inline_style(old(dom)@[id.at()].kind), text::lower(name@)),
        ),
        r@ == match pairs::value_of(
            inline_style(old(dom)@[id.at()].kind),
            text::lower(name@),
        ) {
            Some(v) => v,
            None => Seq::empty(),
        },
        observers::slot_view(*final(slot)) == mutate::attribute_noted(observers::slot_view(*old(slot)), id, "style"@),
        final(dom).touched() == (old(dom).touched() || old(dom)@[id.at()].kind is Element),
{
    let decls = parse_inline_style_for(dom, id);
    let k = text::lower_text(name);
    let removed = match pairs::get(&decls, &k) {
        Some(v) => v,
        None => String::new(),
    };
    let rest = pairs::drop_name(&decls, &k);
    write_inline_style(dom, slot, id, &rest);
    removed
}

/// The result of `char::to_uppercase` of std.
pub uninterp spec fn upper_case_of(c: char) -> Seq<char>;

/// `char::to_uppercase` of std: the upper-case form of a character by the Unicode tables, of
/// one character or more, which depends on the character alone. For an ASCII character it is the
/// upper-case letter of a small one, and the character itself of any other.
#[verifier::external_body]
fn to_upper_case(c: char) -> (r: Vec<char>)
    ensures
        r@ == upper_case_of(c),
        c as u32 <= 127 ==> r@ == seq![text::upper_char(c)],
{
    c.to_uppercase().collect()
}

/// The upper-case form of a character: one character for those of ASCII, as std has it for others.
pub open spec fn upper_form(c: char) -> Seq<char> {
    if c as u32 <= 127 {
        seq![text::upper_char(c)]
    } else {
        upper_case_of(c)
    }
}

/// A name with its hyphens gone and the character after each in upper case.
pub open spec fn camel_of(s: Seq<char>) -> Seq<char>
    decreases s.len(),
{
    if s.len() == 0 {
        Seq::empty()
    } else {
        let c = s.last();
        let before = camel_of(s.drop_last());
        if c == '-' {
            before
        } else if s.len() >= 2 && s[s.len() - 2] == '-' {
            before + upper_form(c)
        } else {
            before.push(c)
        }
    }
}

/// Spells a hyphenated name with upper-case letters in place of the hyphens.
pub fn kebab_to_camel(s: &str) -> (r: String)
    ensures
        r@ == camel_of(s@),
{
    let cs = text::to_chars(s);
    let mut out: Vec<char> = Vec::new();
    let mut up = false;
    let mut i: usize = 0;
    while i < cs.len()
        invariant
            i <= cs@.len(),
            out@ == camel_of(cs@.take(i as int)),
            up == (i > 0 && cs@[i - 1] == '-'),
        decreases cs@.len() - i,
    {
        let c = cs[i];
        let ghost before = out@;
        proof {
            assert(cs@.take(i + 1).drop_last() =~= cs@.take(i as int));
            assert(cs@.take(i + 1).last() == c);
            if i > 0 {
                assert(cs@.take(i + 1)[i - 1] == cs@[i - 1]);
            }
        }
        if c == '-' {
            up = true;
        } else if up {
            let u = to_upper_case(c);
            text::push_chars(&mut out, &u);
            up = false;
        } else {
            out.push(c);
        }
        i = i + 1;
    }
    proof {
        assert(cs@.take(cs@.len() as int) =~= cs@);
    }
    text::to_text(&out)
}

/// The name under which a `data-` attribute shows.
pub open spec fn data_name(s: Seq<char>) -> Seq<char> {
    match text::without_prefix(s, "data-"@) {
        Some(rest) => camel_of(rest),
        None => camel_of(s),
    }
}

/// The name under which a `data-` attribute shows.
pub fn data_attr_to_camel(s: &str) -> (r: String)
    ensures
        r@ == data_name(s@),
{
    let cs = text::to_chars(s);
    match text::strip_prefix(&cs, "data-") {
        Some(rest) => {
            let t = text::to_text(&rest);
            kebab_to_camel(&t)
        },
        None => kebab_to_camel(s),
    }
}

/// The `data-` attributes of a list, under the names under which they show.
pub open spec fn data_pairs(v: Seq<(Seq<char>, Seq<char>)>) -> Seq<(Seq<char>, Seq<char>)>
    decreases v.len(),
{
    if v.len() == 0 {
        Seq::empty()
    } else if text::begins(v.last().0, "data-"@) {
        data_pairs(v.drop_last()).push((data_name(v.last().0), v.last().1))
    } else {
        data_pairs(v.drop_last())
    }
}

/// The `data-` attributes of an element, under the names under which they show.
pub fn element_get_dataset(dom: &Dom, id: NodeId) -> (r: Vec<(String, String)>)
    requires
        tree::has(dom@, id),
    ensures
        text::pair_texts(r@) == data_pairs(tree::attrs_of(dom@[id.at()].kind)),
{
    let mut out: Vec<(String, String)> = Vec::new();
    proof {
        assert(text::pair_texts(out@) =~= Seq::empty());
    }
    match &dom.node(id).kind {
        NodeKind::Element { tag, attrs } => {
            let ghost av = text::pair_texts(attrs@);
            let mut i: usize = 0;
            while i < attrs.len()
                invariant
                    i <= attrs@.len(),
                    av == text::pair_texts(attrs@),
                    text::pair_texts(out@) == data_pairs(av.take(i as int)),
                decreases attrs@.len() - i,
            {
                proof {
                    assert(av.take(i + 1).drop_last() =~= av.take(i as int));
                    assert(av.take(i + 1).last() == av[i as int]);
                }
                let cs = text::to_chars(&attrs[i].0);
                if text::starts_with(&cs, "data-") {
                    let ghost prev = out@;
                    let name = data_attr_to_camel(&attrs[i].0);
                    out.push((name, text::copy(&attrs[i].1)));
                    proof {
                        assert(text::pair_texts(out@) =~= text::pair_texts(prev).push(
                            (data_name(av[i as int].0), av[i as int].1),
                        ));
                    }
                }
                i = i + 1;
            }
            proof {
                assert(av.take(av.len() as int) =~= av);
            }
        },
        _ => {},
    }
    out
}

/// A property that was set has the value that was set; a property that was removed has none;
/// other properties keep theirs.
pub proof fn set_property_is_read(
    v: Seq<(Seq<char>, Seq<char>)>,
    k: Seq<char>,
    value: Seq<char>,
    q: Seq<char>,
)
    ensures
        pairs::value_of(with_property(v, k, value), k) == Some(value),
        pairs::value_of(pairs::without(v, k), k) is None,
        q != k ==> pairs::value_of(with_property(v, k, value), q) == pairs::value_of(v, q),
{
    let w = with_property(v, k, value);
    let u = pairs::without(v, k);
    pairs::drop_then_get(v, k, q);
    pairs::lemma_position_holds(u, pairs::named(k));
    assert(w.drop_last() =~= u);
    pairs::lemma_position_drop_last(w, pairs::named(k));
    pairs::lemma_position_drop_last(w, pairs::named(q));
    pairs::lemma_position_holds(u, pairs::named(q));
}

/// Whether a declaration reads back from a style text as it is: its name is in lower case and
/// has no colon, neither name nor value has a semicolon, and no white space stands at their
/// ends.
pub open spec fn clean(d: (Seq<char>, Seq<char>)) -> bool {
    &&& text::lower(d.0) == d.0
    &&& text::trimmed(d.0) == d.0
    &&& text::trimmed(d.1) == d.1
    &&& !d.0.contains(':')
    &&& !d.0.contains(';')
    &&& !d.1.contains(';')
}

/// A written declaration, with a space before it or not, reads back as it was.
proof fn lemma_decl_round_trip(d: (Seq<char>, Seq<char>), space: bool)
    requires
        clean(d),
    ensures
        decl_of(
            if space {
                seq![' '] + decl_text(d)
            } else {
                decl_text(d)
            },
            true,
        ) == Some(d),
{
    let k = CharClass::Space;
    reveal_strlit(": ");
    assert(": "@ =~= seq![':', ' ']);
    let body = decl_text(d);
    let piece = if space {
        seq![' '] + body
    } else {
        body
    };
    assert(' ' as u32 == 0x20);
    if space {
        assert(piece.skip(1) =~= body);
        assert(k.has_char(piece[0]));
    }
    text::lemma_trim_ends(d.0, k);
    text::lemma_trim_ends(d.1, k);
    assert(body[0] == (if d.0.len() > 0 {
        d.0[0]
    } else {
        ':'
    }));
    assert(!k.has_char(body[0]));
    assert(text::skip_class(piece, k) == body) by {
        if space {
            assert(text::skip_class(piece, k) == text::skip_class(piece.skip(1), k));
        }
    }
    let kept = if d.1.len() > 0 {
        body
    } else {
        d.0.push(':')
    };
    assert(text::trimmed(piece) == kept) by {
        assert(text::trimmed(piece) == text::chop_class(body, k));
        if d.1.len() > 0 {
            assert(body.last() == d.1.last());
            assert(!k.has_char(body.last()));
        } else {
            assert(body.last() == ' ');
            assert(k.has_char(body.last()));
            assert(body.drop_last() =~= d.0.push(':'));
            assert(text::chop_class(body, k) == text::chop_class(d.0.push(':'), k));
            assert(d.0.push(':').last() == ':');
            assert(!k.has_char(':'));
        }
    }
    assert(kept[d.0.len() as int] == ':');
    assert forall|j: int| 0 <= j < d.0.len() implies kept[j] != ':' by {
        assert(kept[j] == d.0[j]);
    }
    text::lemma_first_at(kept, ':', d.0.len() as int);
    assert(kept.contains(':'));
    assert(kept.take(d.0.len() as int) =~= d.0);
    let after = kept.skip(d.0.len() as int + 1);
    if d.1.len() > 0 {
        assert(after =~= seq![' '] + d.1);
        assert(after.skip(1) =~= d.1);
        assert(k.has_char(after[0]));
        assert(text::skip_class(after, k) == text::skip_class(d.1, k));
    } else {
        assert(after =~= d.1);
    }
    assert(text::trimmed(after) == d.1);
}

/// The pieces of written declarations: each declaration, all but the first after a space.
spec fn decl_pieces(v: Seq<(Seq<char>, Seq<char>)>) -> Seq<Seq<char>> {
    Seq::new(
        v.len(),
        |i: int|
            if i == 0 {
                decl_text(v[0])
            } else {
                seq![' '] + decl_text(v[i])
            },
    )
}

proof fn lemma_decl_text_clear(d: (Seq<char>, Seq<char>))
    requires
        clean(d),
    ensures
        forall|i: int| 0 <= i < decl_text(d).len() ==> #[trigger] decl_text(d)[i] != ';',
{
    reveal_strlit(": ");
    assert(": "@ =~= seq![':', ' ']);
    let body = decl_text(d);
    assert forall|i: int| 0 <= i < body.len() implies #[trigger] body[i] != ';' by {
        if i < d.0.len() {
            assert(body[i] == d.0[i]);
        } else if i >= d.0.len() + 2 {
            assert(body[i] == d.1[i - d.0.len() - 2]);
        }
    }
}

proof fn lemma_decls_pieces(v: Seq<(Seq<char>, Seq<char>)>)
    requires
        v.len() > 0,
        forall|i: int| 0 <= i < v.len() ==> clean(#[trigger] v[i]),
    ensures
        text::pieces(decls_text(v), CharClass::Is(';')) == decl_pieces(v),
    decreases v.len(),
{
    let k = CharClass::Is(';');
    let empty = Seq::<char>::empty();
    reveal_strlit("; ");
    assert("; "@ =~= seq![';', ' ']);
    let f = |d: (Seq<char>, Seq<char>)| decl_text(d);
    let last = v[v.len() - 1];
    assert(clean(last));
    lemma_decl_text_clear(last);
    if v.len() == 1 {
        assert(v.map_values(f)[0] == decl_text(v[0]));
        text::lemma_pieces_extend(empty, decl_text(v[0]), k);
        assert(empty + decl_text(v[0]) =~= decl_text(v[0]));
        assert(text::pieces(empty, k) == seq![empty]);
        assert(seq![empty].update(0, seq![empty].last() + decl_text(v[0])) =~= decl_pieces(v));
    } else {
        let u = v.drop_last();
        assert forall|i: int| 0 <= i < u.len() implies clean(#[trigger] u[i]) by {
            assert(u[i] == v[i]);
        }
        lemma_decls_pieces(u);
        let a = decls_text(u);
        assert(v.map_values(f).drop_last() =~= u.map_values(f));
        assert(v.map_values(f).last() == decl_text(last));
        let b = a.push(';');
        assert(b.drop_last() =~= a);
        assert(text::pieces(b, k) == decl_pieces(u).push(empty));
        let tail = seq![' '] + decl_text(last);
        assert forall|i: int| 0 <= i < tail.len() implies !k.has_char(#[trigger] tail[i]) by {
            if i > 0 {
                assert(tail[i] == decl_text(last)[i - 1]);
            }
        }
        text::lemma_pieces_extend(b, tail, k);
        assert(decls_text(v) =~= b + tail);
        let w = decl_pieces(u).push(empty);
        assert(w.update(w.len() - 1, w.last() + tail) =~= decl_pieces(v)) by {
            assert(empty + tail =~= tail);
        }
    }
}

proof fn lemma_decls_of_pieces(v: Seq<(Seq<char>, Seq<char>)>)
    requires
        forall|i: int| 0 <= i < v.len() ==> clean(#[trigger] v[i]),
    ensures
        decls_of(decl_pieces(v), true) == v,
    decreases v.len(),
{
    if v.len() > 0 {
        let u = v.drop_last();
        assert forall|i: int| 0 <= i < u.len() implies clean(#[trigger] u[i]) by {
            assert(u[i] == v[i]);
        }
        lemma_decls_of_pieces(u);
        assert(decl_pieces(v).drop_last() =~= decl_pieces(u));
        assert(clean(v[v.len() - 1]));
        lemma_decl_round_trip(v.last(), v.len() > 1);
        assert(u.push(v.last()) =~= v);
    } else {
        assert(decls_of(decl_pieces(v), true) =~= v);
    }
}

/// Declarations that were written are the declarations that are read.
pub proof fn written_decls_are_read(v: Seq<(Seq<char>, Seq<char>)>)
    requires
        forall|i: int| 0 <= i < v.len() ==> clean(#[trigger] v[i]),
    ensures
        style_decls(decls_text(v), true) == v,
{
    if v.len() > 0 {
        lemma_decls_pieces(v);
        lemma_decls_of_pieces(v);
    } else {
        let f = |d: (Seq<char>, Seq<char>)| decl_text(d);
        assert(v.map_values(f) =~= Seq::empty());
        assert(decls_text(v) =~= Seq::empty());
        let p = text::pieces(decls_text(v), CharClass::Is(';'));
        assert(p =~= seq![Seq::<char>::empty()]);
        assert(text::trimmed(p.last()) =~= Seq::empty());
        assert(!text::trimmed(p.last()).contains(':'));
        assert(decls_of(p.drop_last(), true) =~= v);
    }
}

/// The declarations that are read from a style text are clean.
pub proof fn read_decls_are_clean(s: Seq<char>)
    ensures
        forall|i: int|
            0 <= i < style_decls(s, true).len() ==> clean(#[trigger] style_decls(s, true)[i]),
{
    let p = text::pieces(s, CharClass::Is(';'));
    assert forall|i: int, j: int|
        #![trigger p[i][j]]
        0 <= i < p.len() && 0 <= j < p[i].len() implies p[i][j] != ';' by {
        text::lemma_pieces_clear(s, CharClass::Is(';'), i, j);
    }
    lemma_clean_decls(p);
}

proof fn lemma_clean_decls(p: Seq<Seq<char>>)
    requires
        forall|i: int, j: int|
            #![trigger p[i][j]]
            0 <= i < p.len() && 0 <= j < p[i].len() ==> p[i][j] != ';',
    ensures
        forall|i: int|
            0 <= i < decls_of(p, true).len() ==> clean(#[trigger] decls_of(p, true)[i]),
    decreases p.len(),
{
    if p.len() > 0 {
        let q = p.drop_last();
        assert forall|i: int, j: int|
            #![trigger q[i][j]]
            0 <= i < q.len() && 0 <= j < q[i].len() implies q[i][j] != ';' by {
            assert(q[i][j] == p[i][j]);
        }
        lemma_clean_decls(q);
        let last = p[p.len() - 1];
        assert(forall|j: int| 0 <= j < last.len() ==> last[j] != ';');
        assert(p.last() == last);
        let before = decls_of(q, true);
        let all = decls_of(p, true);
        if decl_of(last, true) is Some {
            lemma_clean_decl(last);
            assert(all == before.push(decl_of(last, true)->0));
        } else {
            assert(all == before);
        }
        assert forall|i: int| 0 <= i < all.len() implies clean(#[trigger] all[i]) by {
            if i < before.len() {
                assert(all[i] == before[i]);
            }
        }
    }
}

proof fn lemma_clean_decl(piece: Seq<char>)
    requires
        forall|j: int| 0 <= j < piece.len() ==> piece[j] != ';',
        decl_of(piece, true) is Some,
    ensures
        clean(decl_of(piece, true)->0),
{
    let k = CharClass::Space;
    let t = text::trimmed(piece);
    let r = text::lemma_trim_is_part(piece, k);
    assert(forall|j: int| 0 <= j < t.len() ==> t[j] != ';') by {
        assert forall|j: int| 0 <= j < t.len() implies t[j] != ';' by {
            assert(t[j] == piece[r.0 + j]);
        }
    }
    let (a, b) = text::cut_at(t, ':')->0;
    let i = text::first_at(t, ':');
    lemma_first_at_clear(t, ':');
    let name = text::trimmed(a);
    let ra = text::lemma_trim_is_part(a, k);
    assert forall|j: int| 0 <= j < name.len() implies name[j] != ':' && name[j] != ';' by {
        assert(name[j] == a[ra.0 + j]);
        assert(a[ra.0 + j] == t[ra.0 + j]);
    }
    let low = text::lower(name);
    assert forall|j: int| 0 <= j < low.len() implies low[j] != ':' && low[j] != ';' by {
        assert(low[j] == text::lower_char(name[j]));
        text::lemma_lower_char(name[j]);
    }
    assert(text::lower(low) =~= low) by {
        assert forall|j: int| 0 <= j < low.len() implies text::lower(low)[j] == low[j] by {
            text::lemma_lower_char(name[j]);
        }
    }
    text::lemma_trim_ends(a, k);
    if name.len() > 0 {
        text::lemma_lower_char(name[0]);
        text::lemma_lower_char(name[name.len() - 1]);
    }
    text::lemma_trimmed(low, k);
    let value = text::trimmed(b);
    let rb = text::lemma_trim_is_part(b, k);
    assert forall|j: int| 0 <= j < value.len() implies value[j] != ';' by {
        assert(value[j] == b[rb.0 + j]);
        assert(b[rb.0 + j] == t[i + 1 + rb.0 + j]);
    }
    text::lemma_trim_ends(b, k);
    text::lemma_trimmed(value, k);
}

proof fn lemma_first_at_clear(s: Seq<char>, c: char)
    ensures
        0 <= text::first_at(s, c) <= s.len(),
        forall|j: int| 0 <= j < text::first_at(s, c) ==> s[j] != c,
        s.contains(c) ==> text::first_at(s, c) < s.len(),
    decreases s.len(),
{
    if s.len() > 0 && s[0] != c {
        let t = s.skip(1);
        lemma_first_at_clear(t, c);
        assert forall|j: int| 0 <= j < text::first_at(s, c) implies s[j] != c by {
            if j > 0 {
                assert(s[j] == t[j - 1]);
            }
        }
        if s.contains(c) {
            let m = choose|m: int| 0 <= m < s.len() && s[m] == c;
            assert(t[m - 1] == c);
        }
    }
}

/// Once a property of an element's inline style was set, the declarations that are read are those
/// from before without that property, with it behind them; so it is read back with its value, and
/// the other properties with theirs.
pub proof fn set_style_is_read(
    t: Seq<NodeView>,
    id: NodeId,
    k: Seq<char>,
    value: Seq<char>,
    q: Seq<char>,
)
    requires
        tree::has(t, id),
        t[id.at()].kind is Element,
        clean((k, value)),
    ensures
        ({
            let before = inline_style(t[id.at()].kind);
            let after = inline_style(
                with_style(t, id, with_property(before, k, value))[id.at()].kind,
            );
            &&& after == with_property(before, k, value)
            &&& pairs::value_of(after, k) == Some(value)
            &&& q != k ==> pairs::value_of(after, q) == pairs::value_of(before, q)
        }),
{
    let before = inline_style(t[id.at()].kind);
    let v = with_property(before, k, value);
    read_decls_are_clean(css_text(t[id.at()].kind));
    assert forall|i: int| 0 <= i < v.len() implies clean(#[trigger] v[i]) by {
        if i < v.len() - 1 {
            before.lemma_filter_contains_rev(pairs::not_named(k), v[i]);
            let u = pairs::without(before, k);
            assert(u[i] == v[i]);
            assert(u.contains(v[i]));
            let m = choose|m: int| 0 <= m < before.len() && before[m] == v[i];
            assert(clean(before[m]));
        }
    }
    written_decls_are_read(v);
    let s = decls_text(v);
    lemma_decls_text_nonempty(v);
    let attrs = tree::attrs_of(t[id.at()].kind);
    pairs::set_then_get(attrs, "style"@, s, "style"@);
    set_property_is_read(before, k, value, q);
}

proof fn lemma_decls_text_nonempty(v: Seq<(Seq<char>, Seq<char>)>)
    requires
        v.len() > 0,
    ensures
        decls_text(v).len() > 0,
{
    reveal_strlit(": ");
    let f = |d: (Seq<char>, Seq<char>)| decl_text(d);
    let m = v.map_values(f);
    assert(m.last() == decl_text(v.last()));
    assert(m.last().len() >= 2);
}

proof fn lemma_decls_append(a: Seq<Seq<char>>, b: Seq<Seq<char>>, lower_names: bool)
    ensures
        decls_of(a + b, lower_names) == decls_of(a, lower_names) + decls_of(b, lower_names),
    decreases b.len(),
{
    if b.len() == 0 {
        assert(a + b =~= a);
        assert(decls_of(a, lower_names) + decls_of(b, lower_names) =~= decls_of(a, lower_names));
    } else {
        lemma_decls_append(a, b.drop_last(), lower_names);
        assert((a + b).drop_last() =~= a + b.drop_last());
        assert((a + b).last() == b.last());
        assert(decls_of(a + b, lower_names) =~= decls_of(a, lower_names) + decls_of(
            b,
            lower_names,
        ));
    }
}

/// The declarations on both sides of a semicolon are read one behind the other. A text with a colon and
/// no semicolon is one declaration: what stands before the first colon, in lower case where that is
/// asked for, and what stands behind it, both without the space around them. A text with neither is
/// none.
pub proof fn style_texts_are_read(
    a: Seq<char>,
    b: Seq<char>,
    name: Seq<char>,
    value: Seq<char>,
    lower_names: bool,
)
    requires
        !name.contains(':'),
        !name.contains(';'),
        !value.contains(';'),
        text::trimmed(name.push(':') + value) == name.push(':') + value,
    ensures
        style_decls(a.push(';') + b, lower_names) == style_decls(a, lower_names) + style_decls(
            b,
            lower_names,
        ),
        style_decls(name.push(':') + value, false) == seq![
            (text::trimmed(name), text::trimmed(value)),
        ],
        style_decls(name.push(':') + value, true) == seq![
            (text::lower(text::trimmed(name)), text::trimmed(value)),
        ],
        !a.contains(';') && !a.contains(':') ==> style_decls(a, lower_names).len() == 0,
{
    let k = CharClass::Is(';');
    text::texts_are_cut_at_their_class(a, ';', b, k);
    lemma_decls_append(text::pieces(a, k), text::pieces(b, k), lower_names);
    let s = name.push(':') + value;
    assert forall|i: int| 0 <= i < s.len() implies !k.has_char(#[trigger] s[i]) by {
        if i < name.len() {
            assert(name.contains(name[i]));
        } else if i > name.len() {
            assert(value.contains(value[i - name.len() - 1]));
        }
    }
    text::texts_are_cut_at_their_class(s, ';', b, k);
    text::texts_are_cut_once(s, ':', name, value);
    reveal_with_fuel(decls_of, 2);
    assert(seq![s].drop_last() =~= Seq::<Seq<char>>::empty());
    assert(seq![s].last() == s);
    assert(decls_of(seq![s], true) =~= seq![
        (text::lower(text::trimmed(name)), text::trimmed(value)),
    ]);
    assert(decls_of(seq![s], false) =~= seq![(text::trimmed(name), text::trimmed(value))]);
    if !a.contains(';') && !a.contains(':') {
        assert forall|i: int| 0 <= i < a.len() implies !k.has_char(#[trigger] a[i]) by {
            assert(a.contains(a[i]));
        }
        assert(seq![a].drop_last() =~= Seq::<Seq<char>>::empty());
        assert(seq![a].last() == a);
        let (x, y) = text::trimming_takes_the_ends(a, CharClass::Space);
        let w = text::trimmed(a);
        if w.contains(':') {
            let i = w.index_of(':');
            assert(a[x + i] == ':');
            assert(a.contains(':'));
        }
        text::texts_are_cut_once(w, ':', w, w);
    }
}

proof fn lemma_camel_append(a: Seq<char>, b: Seq<char>)
    requires
        a.len() == 0 || a.last() != '-',
    ensures
        camel_of(a + b) == camel_of(a) + camel_of(b),
    decreases b.len(),
{
    let s = a + b;
    if b.len() == 0 {
        assert(s =~= a);
        assert(camel_of(a) + camel_of(b) =~= camel_of(a));
    } else {
        lemma_camel_append(a, b.drop_last());
        assert(s.drop_last() =~= a + b.drop_last());
        assert(s.last() == b.last());
        if b.len() >= 2 {
            assert(s[s.len() - 2] == b[b.len() - 2]);
        } else if a.len() > 0 {
            assert(s[s.len() - 2] == a.last());
        }
        assert(camel_of(s) =~= camel_of(a) + camel_of(b));
    }
}

/// In the name under which an attribute shows, a hyphen and the letter after it become the upper-case
/// letter, wherever they stand; a name without hyphens shows as it is.
pub proof fn hyphens_become_capitals(a: Seq<char>, c: char, b: Seq<char>)
    requires
        c != '-',
        c as u32 <= 127,
    ensures
        camel_of(a + seq!['-', c] + b) == camel_of(a).push(text::upper_char(c)) + camel_of(b),
        !a.contains('-') ==> camel_of(a) == a,
    decreases a.len(),
{
    let s = a + seq!['-', c];
    lemma_camel_append(s, b);
    assert(s.last() == c);
    assert(s.drop_last() =~= a.push('-'));
    assert(s.drop_last().drop_last() =~= a);
    assert(s[s.len() - 2] == '-');
    reveal_with_fuel(camel_of, 3);
    assert(camel_of(s) =~= camel_of(a).push(text::upper_char(c)));
    if a.len() > 0 && !a.contains('-') {
        let d = a.drop_last();
        assert(a.contains(a.last()));
        if d.contains('-') {
            assert(a[d.index_of('-')] == '-');
        }
        if a.len() >= 2 {
            assert(a.contains(a[a.len() - 2]));
        }
        hyphens_become_capitals(d, c, b);
        assert(d.push(a.last()) =~= a);
    }
}

/// The data of an element are its attributes that begin with the prefix, in order, under their names
/// without it; no other attribute shows.
pub proof fn data_attributes_show(
    v: Seq<(Seq<char>, Seq<char>)>,
    name: Seq<char>,
    value: Seq<char>,
    other: Seq<char>,
)
    requires
        !text::begins(other, "data-"@),
    ensures
        data_pairs(v.push(("data-"@ + name, value))) == data_pairs(v).push((camel_of(name), value)),
        data_pairs(v.push((other, value))) == data_pairs(v),
        v.len() == 0 ==> data_pairs(v).len() == 0,
{
    text::beginnings_and_ends("data-"@ + name, "data-"@, name);
    assert(v.push(("data-"@ + name, value)).drop_last() =~= v);
    assert(v.push((other, value)).drop_last() =~= v);
}

} // verus!
