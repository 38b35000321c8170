//! A document written out as markup.
use crate::text;
use crate::tree;
use crate::tree::{Dom, KindView, NodeId, NodeKind, NodeView};
use vstd::prelude::*;

verus! {

/// What a character of a text becomes in markup.
pub open spec fn escaped_text_char(c: char) -> Seq<char> {
    if c == '&' {
        "&amp;"@
    } else if c == '<' {
        "&lt;"@
    } else if c == '>' {
        "&gt;"@
    } else {
        seq![c]
    }
}

/// What a character of an attribute value becomes in markup.
pub open spec fn escaped_attr_char(c: char) -> Seq<char> {
    if c == '&' {
        "&amp;"@
    } else if c == '"' {
        "&quot;"@
    } else {
        seq![c]
    }
}

/// A text as it stands in markup.
pub open spec fn escaped_text(s: Seq<char>) -> Seq<char>
    decreases s.len(),
{
    if s.len() == 0 {
        Seq::empty()
    } else {
        escaped_text(s.drop_last()) + escaped_text_char(s.last())
    }
}

/// An attribute value as it stands in markup.
pub open spec fn escaped_attr(s: Seq<char>) -> Seq<char>
    decreases s.len(),
{
    if s.len() == 0 {
        Seq::empty()
    } else {
        escaped_attr(s.drop_last()) + escaped_attr_char(s.last())
    }
}

/// Escapes a text for markup.
pub fn escape_html_text(s: &str) -> (r: String)
    ensures
        r@ == escaped_text(s@),
{
    let cs = text::to_chars(s);
    let mut out: Vec<char> = Vec::new();
    let mut i: usize = 0;
    while i < cs.len()
        invariant
            i <= cs@.len(),
            out@ == escaped_text(cs@.take(i as int)),
        decreases cs@.len() - i,
    {
        let c = cs[i];
        let ghost before = out@;
        proof {
            assert(cs@.take(i + 1).drop_last() =~= cs@.take(i as int));
            assert(cs@.take(i + 1).last() == c);
        }
        if c == '&' {
            text::push_text(&mut out, "&amp;");
        } else if c == '<' {
            text::push_text(&mut out, "&lt;");
        } else if c == '>' {
            text::push_text(&mut out, "&gt;");
        } else {
            out.push(c);
            proof {
                assert(out@ =~= before + seq![c]);
            }
        }
        i = i + 1;
    }
    proof {
        assert(cs@.take(cs@.len() as int) =~= cs@);
    }
    text::to_text(&out)
}

/// Escapes an attribute value for markup.
pub fn escape_attr(s: &str) -> (r: String)
    ensures
        r@ == escaped_attr(s@),
{
    let cs = text::to_chars(s);
    let mut out: Vec<char> = Vec::new();
    let mut i: usize = 0;
    while i < cs.len()
        invariant
            i <= cs@.len(),
            out@ == escaped_attr(cs@.take(i as int)),
        decreases cs@.len() - i,
    {
        let c = cs[i];
        let ghost before = out@;
        proof {
            assert(cs@.take(i + 1).drop_last() =~= cs@.take(i as int));
            assert(cs@.take(i + 1).last() == c);
        }
        if c == '&' {
            text::push_text(&mut out, "&amp;");
        } else if c == '"' {
            text::push_text(&mut out, "&quot;");
        } else {
            out.push(c);
            proof {
                assert(out@ =~= before + seq![c]);
            }
        }
        i = i + 1;
    }
    proof {
        assert(cs@.take(cs@.len() as int) =~= cs@);
    }
    text::to_text(&out)
}

/// The elements that have no content.
pub open spec fn is_void(tag: Seq<char>) -> bool {
    ||| tag == "area"@
    ||| tag == "base"@
    ||| tag == "br"@
    ||| tag == "col"@
    ||| tag == "embed"@
    ||| tag == "hr"@
    ||| tag == "img"@
    ||| tag == "input"@
    ||| tag == "link"@
    ||| tag == "meta"@
    ||| tag == "param"@
    ||| tag == "source"@
    ||| tag == "track"@
    ||| tag == "wbr"@
}

fn test_void(tag: &str) -> (r: bool)
    ensures
        r == is_void(tag@),
{
    text::same(tag, "area") || text::same(tag, "base") || text::same(tag, "br") || text::same(
        tag,
        "col",
    ) || text::same(tag, "embed") || text::same(tag, "hr") || text::same(tag, "img") || text::same(
        tag,
        "input",
    ) || text::same(tag, "link") || text::same(tag, "meta") || text::same(tag, "param")
        || text::same(tag, "source") || text::same(tag, "track") || text::same(tag, "wbr")
}

/// The attributes of an element in markup, each after a space.
pub open spec fn attrs_markup(v: Seq<(Seq<char>, Seq<char>)>) -> Seq<char>
    decreases v.len(),
{
    if v.len() == 0 {
        Seq::empty()
    } else {
        attrs_markup(v.drop_last()) + seq![' '] + v.last().0 + "=\""@ + escaped_attr(v.last().1)
            + seq!['"']
    }
}

/// The beginning of an element in markup, up to its attributes.
pub open spec fn opening(tag: Seq<char>, attrs: Seq<(Seq<char>, Seq<char>)>) -> Seq<char> {
    seq!['<'] + tag + attrs_markup(attrs)
}

/// A node in markup.
pub open spec fn markup_of(t: Seq<NodeView>, id: NodeId) -> Seq<char>
    decreases tree::rank(t, id), t[id.at()].children.len() + 1,
    when tree::wf(t) && tree::has(t, id)
{
    let n = t[id.at()].children.len();
    match t[id.at()].kind {
        KindView::Text(s) => escaped_text(s),
        KindView::Comment(s) => "<!--"@ + s + "-->"@,
        KindView::Doctype(s) => "<!DOCTYPE "@ + s + seq!['>'],
        KindView::Document => markup_below(t, id, n as int),
        KindView::Element { tag, attrs } => if is_void(tag) && n == 0 {
            opening(tag, attrs) + " />"@
        } else {
            opening(tag, attrs) + seq!['>'] + markup_below(t, id, n as int) + "</"@ + tag + seq![
                '>',
            ]
        },
    }
}

/// The first children of a node in markup.
pub open spec fn markup_below(t: Seq<NodeView>, id: NodeId, n: int) -> Seq<char>
    decreases tree::rank(t, id), n,
    when tree::wf(t) && tree::has(t, id) && 0 <= n <= t[id.at()].children.len()
    via markup_below_decreases
{
    if n <= 0 {
        Seq::empty()
    } else {
        markup_below(t, id, n - 1) + markup_of(t, t[id.at()].children[n - 1])
    }
}

#[via_fn]
proof fn markup_below_decreases(t: Seq<NodeView>, id: NodeId, n: int) {
    if n > 0 {
        tree::lemma_child(t, id, n - 1);
    }
}

fn write_attrs(attrs: &Vec<(String, String)>, out: &mut Vec<char>)
    ensures
        final(out)@ == old(out)@ + attrs_markup(text::pair_texts(attrs@)),
{
    let ghost before = out@;
    let ghost av = text::pair_texts(attrs@);
    let mut i: usize = 0;
    proof {
        assert(before + attrs_markup(av.take(0)) =~= before);
    }
    while i < attrs.len()
        invariant
            i <= attrs@.len(),
            av == text::pair_texts(attrs@),
            out@ == before + attrs_markup(av.take(i as int)),
        decreases attrs@.len() - i,
    {
        let ghost so_far = attrs_markup(av.take(i as int));
        proof {
            assert(av.take(i + 1).drop_last() =~= av.take(i as int));
            assert(av.take(i + 1).last() == av[i as int]);
        }
        out.push(' ');
        text::push_text(out, &attrs[i].0);
        text::push_text(out, "=\"");
        let value = escape_attr(&attrs[i].1);
        text::push_text(out, &value);
        out.push('"');
        proof {
            assert(out@ =~= before + (so_far + seq![' '] + av[i as int].0 + "=\""@ + escaped_attr(
                av[i as int].1,
            ) + seq!['"']));
        }
        i = i + 1;
    }
    proof {
        assert(av.take(av.len() as int) =~= av);
    }
}

/// Writes a node as markup.
fn write_node(dom: &Dom, node: NodeId, out: &mut Vec<char>)
    requires
        tree::wf(dom@),
        tree::has(dom@, node),
    ensures
        final(out)@ == old(out)@ + markup_of(dom@, node),
    decreases tree::rank(dom@, node), 1int,
{
    let ghost before = out@;
    match &dom.node(node).kind {
        NodeKind::Text(s) => {
            let e = escape_html_text(s);
            text::push_text(out, &e);
        },
        NodeKind::Comment(s) => {
            text::push_text(out, "<!--");
            text::push_text(out, s);
            text::push_text(out, "-->");
            proof {
                assert(out@ =~= before + ("<!--"@ + s@ + "-->"@));
            }
        },
        NodeKind::Doctype(s) => {
            text::push_text(out, "<!DOCTYPE ");
            text::push_text(out, s);
            out.push('>');
            proof {
                assert(out@ =~= before + ("<!DOCTYPE "@ + s@ + seq!['>']));
            }
        },
        NodeKind::Document => {
            write_children(dom, node, out);
        },
        NodeKind::Element { tag, attrs } => {
            let ghost av = text::pair_texts(attrs@);
            out.push('<');
            text::push_text(out, tag);
            write_attrs(attrs, out);
            proof {
                assert(out@ =~= before + opening(tag@, av));
            }
            if test_void(tag) && dom.node(node).children.len() == 0 {
                text::push_text(out, " />");
                proof {
                    assert(out@ =~= before + (opening(tag@, av) + " />"@));
                }
            } else {
                out.push('>');
                write_children(dom, node, out);
                text::push_text(out, "</");
                text::push_text(out, tag);
                out.push('>');
                proof {
                    let inner = markup_below(
                        dom@,
                        node,
                        dom@[node.at()].children.len() as int,
                    );
                    assert(out@ =~= before + (opening(tag@, av) + seq!['>'] + inner + "</"@ + tag@
                        + seq!['>']));
                }
            }
        },
    }
}

/// Writes the children of a node as markup.
fn write_children(dom: &Dom, node: NodeId, out: &mut Vec<char>)
    requires
        tree::wf(dom@),
        tree::has(dom@, node),
    ensures
        final(out)@ == old(out)@ + markup_below(
            dom@,
            node,
            dom@[node.at()].children.len() as int,
        ),
    decreases tree::rank(dom@, node), 0int,
{
    let ghost before = out@;
    let ghost t = dom@;
    let kids = dom.children(node);
    let mut i: usize = 0;
    proof {
        assert(before + markup_below(t, node, 0) =~= before);
    }
    while i < kids.len()
        invariant
            i <= kids@.len(),
            t == dom@,
            tree::wf(t),
            tree::has(t, node),
            kids@ == t[node.at()].children,
            out@ == before + markup_below(t, node, i as int),
        decreases kids@.len() - i,
    {
        proof {
            tree::lemma_child(t, node, i as int);
        }
        write_node(dom, kids[i], out);
        proof {
            assert(out@ =~= before + (markup_below(t, node, i as int) + markup_of(
                t,
                kids@[i as int],
            )));
            assert(markup_below(t, node, i + 1) == markup_below(t, node, i as int) + markup_of(
                t,
                kids@[i as int],
            ));
        }
        i = i + 1;
    }
}

/// A node in markup.
pub fn serialize_node(dom: &Dom, node: NodeId) -> (r: String)
    requires
        tree::wf(dom@),
        tree::has(dom@, node),
    ensures
        r@ == markup_of(dom@, node),
{
    let mut out: Vec<char> = Vec::new();
    write_node(dom, node, &mut out);
    proof {
        assert(out@ =~= markup_of(dom@, node));
    }
    text::to_text(&out)
}

/// The children of a node in markup.
pub fn serialize_children(dom: &Dom, node: NodeId) -> (r: String)
    requires
        tree::wf(dom@),
        tree::has(dom@, node),
    ensures
        r@ == markup_below(dom@, node, dom@[node.at()].children.len() as int),
{
    let mut out: Vec<char> = Vec::new();
    write_children(dom, node, &mut out);
    proof {
        assert(out@ =~= markup_below(dom@, node, dom@[node.at()].children.len() as int));
    }
    text::to_text(&out)
}

proof fn lemma_entities()
    ensures
        "&amp;"@ == seq!['&', 'a', 'm', 'p', ';'],
        "&lt;"@ == seq!['&', 'l', 't', ';'],
        "&gt;"@ == seq!['&', 'g', 't', ';'],
        "&quot;"@ == seq!['&', 'q', 'u', 'o', 't', ';'],
{
    reveal_strlit("&amp;");
    reveal_strlit("&lt;");
    reveal_strlit("&gt;");
    reveal_strlit("&quot;");
    assert("&amp;"@ =~= seq!['&', 'a', 'm', 'p', ';']);
    assert("&lt;"@ =~= seq!['&', 'l', 't', ';']);
    assert("&gt;"@ =~= seq!['&', 'g', 't', ';']);
    assert("&quot;"@ =~= seq!['&', 'q', 'u', 'o', 't', ';']);
}

/// An escaped text holds no angle bracket.
pub proof fn escaped_text_is_plain(s: Seq<char>)
    ensures
        !escaped_text(s).contains('<'),
        !escaped_text(s).contains('>'),
    decreases s.len(),
{
    if s.len() > 0 {
        escaped_text_is_plain(s.drop_last());
        lemma_entities();
        let a = escaped_text(s.drop_last());
        let b = escaped_text_char(s.last());
        assert(forall|i: int| 0 <= i < b.len() ==> b[i] != '<' && b[i] != '>');
        assert forall|i: int| 0 <= i < (a + b).len() implies (a + b)[i] != '<' && (a + b)[i]
            != '>' by {
            if i < a.len() {
                assert(a.contains(a[i]));
            }
        }
    }
}

/// An escaped attribute value holds no quote.
pub proof fn escaped_attr_is_plain(s: Seq<char>)
    ensures
        !escaped_attr(s).contains('"'),
    decreases s.len(),
{
    if s.len() > 0 {
        escaped_attr_is_plain(s.drop_last());
        lemma_entities();
        let a = escaped_attr(s.drop_last());
        let b = escaped_attr_char(s.last());
        assert(forall|i: int| 0 <= i < b.len() ==> b[i] != '"');
        assert forall|i: int| 0 <= i < (a + b).len() implies (a + b)[i] != '"' by {
            if i < a.len() {
                assert(a.contains(a[i]));
            }
        }
    }
}

/// Copies of the same shape have the same markup: what `outerHTML` shows of a deep clone is
/// what it shows of the node itself.
pub proof fn same_shape_same_markup(s: Seq<NodeView>, a: NodeId, t: Seq<NodeView>, b: NodeId)
    requires
        tree::wf(s),
        tree::has(s, a),
        tree::wf(t),
        tree::same_shape(s, a, t, b),
    ensures
        markup_of(s, a) == markup_of(t, b),
    decreases tree::rank(s, a), s[a.at()].children.len() + 1,
{
    lemma_same_below(s, a, t, b, s[a.at()].children.len() as int);
}

proof fn lemma_same_below(s: Seq<NodeView>, a: NodeId, t: Seq<NodeView>, b: NodeId, n: int)
    requires
        tree::wf(s),
        tree::has(s, a),
        tree::wf(t),
        tree::same_shape(s, a, t, b),
        0 <= n <= s[a.at()].children.len(),
    ensures
        markup_below(s, a, n) == markup_below(t, b, n),
    decreases tree::rank(s, a), n,
{
    if n > 0 {
        lemma_same_below(s, a, t, b, n - 1);
        tree::lemma_child(s, a, n - 1);
        tree::lemma_child(t, b, n - 1);
        assert(tree::same_shape(s, s[a.at()].children[n - 1], t, t[b.at()].children[n - 1]));
        same_shape_same_markup(s, s[a.at()].children[n - 1], t, t[b.at()].children[n - 1]);
    }
}

/// What an escaped text stands for: the entities are taken for their characters, and the rest for
/// itself.
pub open spec fn unescaped(s: Seq<char>) -> Seq<char>
    decreases s.len(),
{
    if s.len() == 0 {
        Seq::empty()
    } else if s.len() >= 5 && s.take(5) == seq!['&', 'a', 'm', 'p', ';'] {
        seq!['&'] + unescaped(s.skip(5))
    } else if s.len() >= 4 && s.take(4) == seq!['&', 'l', 't', ';'] {
        seq!['<'] + unescaped(s.skip(4))
    } else if s.len() >= 4 && s.take(4) == seq!['&', 'g', 't', ';'] {
        seq!['>'] + unescaped(s.skip(4))
    } else if s.len() >= 6 && s.take(6) == seq!['&', 'q', 'u', 'o', 't', ';'] {
        seq!['"'] + unescaped(s.skip(6))
    } else {
        seq![s[0]] + unescaped(s.skip(1))
    }
}

proof fn lemma_escaped_front(s: Seq<char>)
    requires
        s.len() > 0,
    ensures
        escaped_text(s) == escaped_text_char(s[0]) + escaped_text(s.skip(1)),
        escaped_attr(s) == escaped_attr_char(s[0]) + escaped_attr(s.skip(1)),
    decreases s.len(),
{
    if s.len() == 1 {
        assert(s.skip(1) =~= Seq::<char>::empty());
        assert(s.drop_last() =~= Seq::<char>::empty());
        assert(escaped_text(s) =~= escaped_text_char(s[0]) + escaped_text(s.skip(1)));
        assert(escaped_attr(s) =~= escaped_attr_char(s[0]) + escaped_attr(s.skip(1)));
    } else {
        let t = s.drop_last();
        lemma_escaped_front(t);
        assert(t.skip(1) =~= s.skip(1).drop_last());
        assert(s.skip(1).last() == s.last());
        assert(escaped_text(s) =~= escaped_text_char(s[0]) + escaped_text(s.skip(1)));
        assert(escaped_attr(s) =~= escaped_attr_char(s[0]) + escaped_attr(s.skip(1)));
    }
}

proof fn lemma_unescaped_front(c: char, rest: Seq<char>)
    ensures
        unescaped(escaped_text_char(c) + rest) == seq![c] + unescaped(rest),
        unescaped(escaped_attr_char(c) + rest) == seq![c] + unescaped(rest),
{
    lemma_entities();
    let a = escaped_text_char(c);
    let b = escaped_attr_char(c);
    assert((a + rest).take(a.len() as int) =~= a);
    assert((a + rest).skip(a.len() as int) =~= rest);
    assert((b + rest).take(b.len() as int) =~= b);
    assert((b + rest).skip(b.len() as int) =~= rest);
    let amp = seq!['&', 'a', 'm', 'p', ';'];
    let lt = seq!['&', 'l', 't', ';'];
    let gt = seq!['&', 'g', 't', ';'];
    let quot = seq!['&', 'q', 'u', 'o', 't', ';'];
    assert(amp[0] == '&' && lt[0] == '&' && gt[0] == '&' && quot[0] == '&');
    assert(amp[1] == 'a' && lt[1] == 'l' && gt[1] == 'g' && quot[1] == 'q');
    lemma_which_entity(a + rest);
    lemma_which_entity(b + rest);
    assert((a + rest)[0] == a[0]);
    assert((b + rest)[0] == b[0]);
    if a.len() > 1 {
        assert((a + rest)[1] == a[1]);
    }
    if b.len() > 1 {
        assert((b + rest)[1] == b[1]);
    }
}

proof fn lemma_which_entity(s: Seq<char>)
    requires
        s.len() > 0,
    ensures
        s.len() >= 5 && s.take(5) == seq!['&', 'a', 'm', 'p', ';'] ==> s[0] == '&' && s[1] == 'a',
        s.len() >= 4 && s.take(4) == seq!['&', 'l', 't', ';'] ==> s[0] == '&' && s[1] == 'l',
        s.len() >= 4 && s.take(4) == seq!['&', 'g', 't', ';'] ==> s[0] == '&' && s[1] == 'g',
        s.len() >= 6 && s.take(6) == seq!['&', 'q', 'u', 'o', 't', ';'] ==> s[0] == '&' && s[1]
            == 'q',
{
    if s.len() >= 4 {
        assert(s.take(4)[0] == s[0] && s.take(4)[1] == s[1]);
    }
    if s.len() >= 5 {
        assert(s.take(5)[0] == s[0] && s.take(5)[1] == s[1]);
    }
    if s.len() >= 6 {
        assert(s.take(6)[0] == s[0] && s.take(6)[1] == s[1]);
    }
}

/// An escaped text, and an escaped attribute value, stand for what was escaped: nothing is lost, and
/// different texts are escaped differently.
pub proof fn escaped_texts_are_read_back(s: Seq<char>)
    ensures
        unescaped(escaped_text(s)) == s,
        unescaped(escaped_attr(s)) == s,
    decreases s.len(),
{
    if s.len() > 0 {
        let rest = s.skip(1);
        escaped_texts_are_read_back(rest);
        lemma_escaped_front(s);
        lemma_unescaped_front(s[0], escaped_text(rest));
        lemma_unescaped_front(s[0], escaped_attr(rest));
        assert(seq![s[0]] + rest =~= s);
    }
}

/// The attributes that markup tells: each stands behind a space, its name up to the sign of equality
/// and its value between quotes.
pub open spec fn attrs_read(s: Seq<char>) -> Seq<(Seq<char>, Seq<char>)>
    decreases s.len(),
{
    if s.len() == 0 {
        Seq::empty()
    } else {
        match text::cut_at(s.skip(1), '=') {
            None => Seq::empty(),
            Some((name, behind)) => if behind.len() == 0 {
                Seq::empty()
            } else {
                match text::cut_at(behind.skip(1), '"') {
                    None => Seq::empty(),
                    Some((value, rest)) => {
                        proof {
                            text::texts_are_cut_once(s.skip(1), '=', name, behind);
                            text::texts_are_cut_once(behind.skip(1), '"', value, rest);
                        }
                        seq![(name, unescaped(value))] + attrs_read(rest)
                    },
                }
            },
        }
    }
}

proof fn lemma_attrs_front(v: Seq<(Seq<char>, Seq<char>)>)
    requires
        v.len() > 0,
    ensures
        attrs_markup(v) == seq![' '] + v[0].0 + "=\""@ + escaped_attr(v[0].1) + seq!['"']
            + attrs_markup(v.skip(1)),
    decreases v.len(),
{
    if v.len() == 1 {
        assert(v.drop_last() =~= Seq::empty());
        assert(v.skip(1) =~= Seq::empty());
        assert(attrs_markup(v) =~= seq![' '] + v[0].0 + "=\""@ + escaped_attr(v[0].1) + seq!['"']
            + attrs_markup(v.skip(1)));
    } else {
        let w = v.drop_last();
        lemma_attrs_front(w);
        assert(w.skip(1) =~= v.skip(1).drop_last());
        assert(v.skip(1).last() == v.last());
        assert(attrs_markup(v) =~= seq![' '] + v[0].0 + "=\""@ + escaped_attr(v[0].1) + seq!['"']
            + attrs_markup(v.skip(1)));
    }
}

/// The attributes of an element are read back from its markup, all of them and in order; so elements
/// with different attributes have different markup. Their names hold no sign of equality.
pub proof fn written_attributes_are_read(v: Seq<(Seq<char>, Seq<char>)>)
    requires
        forall|i: int| 0 <= i < v.len() ==> !(#[trigger] v[i]).0.contains('='),
    ensures
        attrs_read(attrs_markup(v)) == v,
    decreases v.len(),
{
    reveal_strlit("=\"");
    if v.len() == 0 {
        assert(attrs_read(attrs_markup(v)) =~= v);
    } else {
        let rest = v.skip(1);
        assert forall|i: int| 0 <= i < rest.len() implies !(#[trigger] rest[i]).0.contains('=') by {
            assert(rest[i] == v[i + 1]);
        }
        written_attributes_are_read(rest);
        lemma_attrs_front(v);
        let s = attrs_markup(v);
        let name = v[0].0;
        let value = escaped_attr(v[0].1);
        let more = attrs_markup(rest);
        assert("=\""@ =~= seq!['=', '"']);
        let behind = seq!['"'] + value + seq!['"'] + more;
        assert(s.skip(1) =~= name.push('=') + behind);
        text::texts_are_cut_once(s.skip(1), '=', name, behind);
        assert(behind.skip(1) =~= value.push('"') + more);
        escaped_attr_is_plain(v[0].1);
        text::texts_are_cut_once(behind.skip(1), '"', value, more);
        escaped_texts_are_read_back(v[0].1);
        assert(seq![(name, v[0].1)] + rest =~= v);
    }
}

/// The beginning of an element tells its tag and its attributes: no two elements with different ones
/// begin alike. Tags hold no space, and names of attributes no sign of equality.
pub proof fn openings_differ(
    a: Seq<char>,
    v: Seq<(Seq<char>, Seq<char>)>,
    b: Seq<char>,
    w: Seq<(Seq<char>, Seq<char>)>,
)
    requires
        !a.contains(' '),
        !b.contains(' '),
        forall|i: int| 0 <= i < v.len() ==> !(#[trigger] v[i]).0.contains('='),
        forall|i: int| 0 <= i < w.len() ==> !(#[trigger] w[i]).0.contains('='),
        opening(a, v) == opening(b, w),
    ensures
        a == b,
        v == w,
        opening(a, v)[0] == '<',
        opening(a, v).skip(1).take(a.len() as int) == a,
{
    written_attributes_are_read(v);
    written_attributes_are_read(w);
    let s = opening(a, v);
    assert(s.skip(1) =~= a + attrs_markup(v));
    assert(s.skip(1) =~= b + attrs_markup(w));
    assert(s.skip(1).take(a.len() as int) =~= a);
    lemma_tag_end(a, v);
    lemma_tag_end(b, w);
    if a.len() < b.len() {
        if v.len() > 0 {
            assert(s.skip(1)[a.len() as int] == ' ');
            assert(b[a.len() as int] == ' ');
            assert(b.contains(' '));
        }
    } else if b.len() < a.len() {
        if w.len() > 0 {
            assert(s.skip(1)[b.len() as int] == ' ');
            assert(a[b.len() as int] == ' ');
            assert(a.contains(' '));
        }
    }
    assert(a.len() == b.len());
    assert(s.skip(1).take(b.len() as int) =~= b);
    assert(attrs_markup(v) =~= s.skip(1).skip(a.len() as int));
    assert(attrs_markup(w) =~= s.skip(1).skip(b.len() as int));
}

proof fn lemma_tag_end(a: Seq<char>, v: Seq<(Seq<char>, Seq<char>)>)
    ensures
        v.len() == 0 ==> a + attrs_markup(v) == a,
        v.len() > 0 ==> attrs_markup(v).len() > 0 && attrs_markup(v)[0] == ' ',
{
    if v.len() == 0 {
        assert(a + attrs_markup(v) =~= a);
    } else {
        lemma_attrs_front(v);
    }
}

/// What is written of a node: of an element its beginning, what is in it, and its end, where an
/// element that never has content and has none is closed at once; of a text what reads back as it;
/// and of what is in a node, each child in order.
pub proof fn nodes_are_written(t: Seq<NodeView>, id: NodeId, k: int)
    requires
        tree::wf(t),
        tree::has(t, id),
        0 <= k < t[id.at()].children.len(),
    ensures
        markup_below(t, id, 0) == Seq::<char>::empty(),
        markup_below(t, id, k + 1) == markup_below(t, id, k) + markup_of(
            t,
            t[id.at()].children[k],
        ),
        t[id.at()].kind matches KindView::Element { tag, attrs } ==> {
            let inner = markup_below(t, id, t[id.at()].children.len() as int);
            markup_of(t, id) == seq!['<'] + tag + attrs_markup(attrs) + seq!['>'] + inner + seq![
                '<',
                '/',
            ] + tag + seq!['>']
        },
{
    reveal_strlit("</");
    assert("</"@ =~= seq!['<', '/']);
    tree::lemma_child(t, id, k);
}

/// What is written of a node without children, and of one that is no element.
pub proof fn leaves_are_written(t: Seq<NodeView>, id: NodeId)
    requires
        tree::wf(t),
        tree::has(t, id),
    ensures
        t[id.at()].kind matches KindView::Text(s) ==> unescaped(markup_of(t, id)) == s && !markup_of(
            t,
            id,
        ).contains('<'),
        t[id.at()].kind matches KindView::Comment(s) ==> markup_of(t, id) == seq![
            '<',
            '!',
            '-',
            '-',
        ] + s + seq!['-', '-', '>'],
        t[id.at()].kind is Document ==> markup_of(t, id) == markup_below(
            t,
            id,
            t[id.at()].children.len() as int,
        ),
        t[id.at()].kind matches KindView::Element { tag, attrs } ==> (t[id.at()].children.len() == 0
            ==> markup_of(t, id) == seq!['<'] + tag + attrs_markup(attrs) + (if is_void(tag) {
            seq![' ', '/', '>']
        } else {
            seq!['>', '<', '/'] + tag + seq!['>']
        })),
{
    reveal_strlit("<!--");
    reveal_strlit("-->");
    reveal_strlit(" />");
    reveal_strlit("</");
    assert("<!--"@ =~= seq!['<', '!', '-', '-']);
    assert("-->"@ =~= seq!['-', '-', '>']);
    match t[id.at()].kind {
        KindView::Text(s) => {
            escaped_texts_are_read_back(s);
            escaped_text_is_plain(s);
        },
        KindView::Element { tag, attrs } => {
            if t[id.at()].children.len() == 0 {
                assert(markup_below(t, id, 0) == Seq::<char>::empty());
                assert(markup_of(t, id) =~= seq!['<'] + tag + attrs_markup(attrs) + (if is_void(
                    tag,
                ) {
                    seq![' ', '/', '>']
                } else {
                    seq!['>', '<', '/'] + tag + seq!['>']
                }));
            }
        },
        _ => {},
    }
}

/// The elements that never have content are these and no others.
pub proof fn void_elements_are_known(tag: Seq<char>)
    ensures
        is_void(tag) <==> seq![
            "wbr"@,
            "track"@,
            "source"@,
            "param"@,
            "meta"@,
            "link"@,
            "input"@,
            "img"@,
            "hr"@,
            "embed"@,
            "col"@,
            "br"@,
            "base"@,
            "area"@,
        ].contains(tag),
{
    let v = seq![
        "wbr"@,
        "track"@,
        "source"@,
        "param"@,
        "meta"@,
        "link"@,
        "input"@,
        "img"@,
        "hr"@,
        "embed"@,
        "col"@,
        "br"@,
        "base"@,
        "area"@,
    ];
    assert(v[0] == "wbr"@ && v[1] == "track"@ && v[2] == "source"@ && v[3] == "param"@ && v[4]
        == "meta"@ && v[5] == "link"@ && v[6] == "input"@ && v[7] == "img"@ && v[8] == "hr"@
        && v[9] == "embed"@ && v[10] == "col"@ && v[11] == "br"@ && v[12] == "base"@ && v[13]
        == "area"@);
    if is_void(tag) {
        assert(exists|i: int| 0 <= i < v.len() && #[trigger] v[i] == tag);
    }
}

/// In a written text stand no signs of markup, and in a written value no quotes; all characters but
/// these and the ampersand stand for themselves.
pub proof fn signs_are_not_written(s: Seq<char>, c: char)
    ensures
        !escaped_text(s).contains('<'),
        !escaped_text(s).contains('>'),
        !escaped_attr(s).contains('"'),
        c != '&' && c != '<' && c != '>' ==> escaped_text(s.push(c)) == escaped_text(s).push(c),
        c != '&' && c != '"' ==> escaped_attr(s.push(c)) == escaped_attr(s).push(c),
        escaped_text(Seq::empty()).len() == 0,
        escaped_attr(Seq::empty()).len() == 0,
    decreases s.len(),
{
    assert(s.push(c).drop_last() =~= s);
    assert(escaped_text(s) + seq![c] =~= escaped_text(s).push(c));
    assert(escaped_attr(s) + seq![c] =~= escaped_attr(s).push(c));
    if s.len() > 0 {
        let d = s.drop_last();
        signs_are_not_written(d, s.last());
        lemma_no_signs(s.last());
        lemma_parts_have_none(escaped_text(d), escaped_text_char(s.last()), '<');
        lemma_parts_have_none(escaped_text(d), escaped_text_char(s.last()), '>');
        lemma_parts_have_none(escaped_attr(d), escaped_attr_char(s.last()), '"');
    }
}

proof fn lemma_parts_have_none(a: Seq<char>, b: Seq<char>, c: char)
    requires
        !a.contains(c),
        !b.contains(c),
    ensures
        !(a + b).contains(c),
{
    let s = a + b;
    if s.contains(c) {
        let i = s.index_of(c);
        if i < a.len() {
            assert(a[i] == c);
        } else {
            assert(b[i - a.len()] == c);
        }
    }
}

proof fn lemma_no_signs(c: char)
    ensures
        !escaped_text_char(c).contains('<'),
        !escaped_text_char(c).contains('>'),
        !escaped_attr_char(c).contains('"'),
{
    reveal_strlit("&amp;");
    reveal_strlit("&lt;");
    reveal_strlit("&gt;");
    reveal_strlit("&quot;");
    assert("&amp;"@ =~= seq!['&', 'a', 'm', 'p', ';']);
    assert("&lt;"@ =~= seq!['&', 'l', 't', ';']);
    assert("&gt;"@ =~= seq!['&', 'g', 't', ';']);
    assert("&quot;"@ =~= seq!['&', 'q', 'u', 'o', 't', ';']);
}

/// What is written of the type of a document is its name behind the word for it.
pub proof fn doctypes_are_written(t: Seq<NodeView>, id: NodeId, s: Seq<char>)
    requires
        tree::wf(t),
        tree::has(t, id),
        t[id.at()].kind == KindView::Doctype(s),
    ensures
        markup_of(t, id) == "<!DOCTYPE "@ + s.push('>'),
{
    assert(markup_of(t, id) =~= "<!DOCTYPE "@ + s.push('>'));
}

} // verus!
