//! The classes of an element as a list that scripts change.
use crate::mutate;
use crate::observers;
use crate::observers::ObserverState;
use crate::pairs;
use crate::selector;
use crate::text;
use crate::text::CharClass;
use crate::tree;
use crate::tree::{Dom, KindView, NodeId, NodeKind, NodeView};
use vstd::prelude::*;

verus! {

/// The tree with the classes of a node written: the attribute goes where there are none.
pub open spec fn with_classes(t: Seq<NodeView>, id: NodeId, classes: Seq<Seq<char>>) -> Seq<
    NodeView,
> {
    let joined = text::joined(classes, " "@);
    if joined.len() == 0 {
        tree::without_attr(t, id, "class"@)
    } else {
        tree::with_attr(t, id, "class"@, joined)
    }
}

/// The classes with a token more, unless it is empty or there already.
pub open spec fn with_token(classes: Seq<Seq<char>>, token: Seq<char>) -> Seq<Seq<char>> {
    if classes.contains(token) || token.len() == 0 {
        classes
    } else {
        classes.push(token)
    }
}

/// The classes with tokens more, one after the other.
pub open spec fn with_tokens(classes: Seq<Seq<char>>, tokens: Seq<Seq<char>>) -> Seq<Seq<char>>
    decreases tokens.len(),
{
    if tokens.len() == 0 {
        classes
    } else {
        with_token(with_tokens(classes, tokens.drop_last()), tokens.last())
    }
}

/// Whether a class is another than the given one.
pub open spec fn other_than(token: Seq<char>) -> spec_fn(Seq<char>) -> bool {
    |c: Seq<char>| c != token
}

/// The classes without a token.
pub open spec fn without_token(classes: Seq<Seq<char>>, token: Seq<char>) -> Seq<Seq<char>> {
    classes.filter(other_than(token))
}

/// The classes without tokens.
pub open spec fn without_tokens(classes: Seq<Seq<char>>, tokens: Seq<Seq<char>>) -> Seq<Seq<char>>
    decreases tokens.len(),
{
    if tokens.len() == 0 {
        classes
    } else {
        without_token(without_tokens(classes, tokens.drop_last()), tokens.last())
    }
}

/// The classes with each occurrence of one replaced by another.
pub open spec fn replaced(classes: Seq<Seq<char>>, old_token: Seq<char>, token: Seq<char>) -> Seq<
    Seq<char>,
> {
    classes.map_values(
        |c: Seq<char>|
            if c == old_token {
                token
            } else {
                c
            },
    )
}

/// The classes of a node.
pub fn class_list_classes(dom: &Dom, id: NodeId) -> (r: Vec<String>)
    requires
        tree::has(dom@, id),
    ensures
        text::texts(r@) == selector::classes_of(dom@[id.at()].kind),
{
    selector::class_words(&dom.node(id).kind)
}

/// Joins strings with a space between each two.
fn join_words(v: &Vec<String>) -> (r: String)
    ensures
        r@ == text::joined(text::texts(v@), " "@),
{
    let mut parts: Vec<Vec<char>> = Vec::new();
    let mut i: usize = 0;
    while i < v.len()
        invariant
            i <= v@.len(),
            text::pieces_view(parts@) == text::texts(v@).take(i as int),
        decreases v@.len() - i,
    {
        let ghost prev = parts@;
        let cs = text::to_chars(&v[i]);
        parts.push(cs);
        proof {
            assert(text::pieces_view(parts@) =~= text::pieces_view(prev).push(v@[i as int]@));
            assert(text::texts(v@).take(i + 1) =~= text::texts(v@).take(i as int).push(
                v@[i as int]@,
            ));
        }
        i = i + 1;
    }
    proof {
        assert(text::texts(v@).take(v@.len() as int) =~= text::texts(v@));
    }
    let cs = text::join(&parts, " ");
    text::to_text(&cs)
}

/// Writes the classes of a node, and records it.
pub fn class_list_write(
    dom: &mut Dom,
    slot: &mut Option<ObserverState>,
    id: NodeId,
    classes: &Vec<String>,
)
    requires
        tree::wf(old(dom)@),
        tree::has(old(dom)@, id),
    ensures
        tree::wf(final(dom)@),
        final(dom)@ == with_classes(old(dom)@, id, text::texts(classes@)),
        observers::slot_view(*final(slot)) == mutate::attribute_noted(observers::slot_view(*old(slot)), id, "class"@),
        final(dom).touched() == (old(dom).touched() || old(dom)@[id.at()].kind is Element),
{
    let joined = join_words(classes);
    if joined.as_str().is_empty() {
        dom.remove_attribute(id, "class");
    } else {
        dom.set_attribute(id, "class", joined);
    }
    mutate::record_attribute(slot, id, "class");
}

/// How many classes a node has.
pub fn class_list_length(dom: &Dom, id: NodeId) -> (r: usize)
    requires
        tree::has(dom@, id),
    ensures
        r == selector::classes_of(dom@[id.at()].kind).len(),
{
    let v = class_list_classes(dom, id);
    proof {
        assert(text::texts(v@).len() == v@.len());
    }
    v.len()
}

/// Adds classes to a node, each once, and records it.
pub fn class_list_add(
    dom: &mut Dom,
    slot: &mut Option<ObserverState>,
    id: NodeId,
    tokens: &Vec<String>,
)
    requires
        tree::wf(old(dom)@),
        tree::has(old(dom)@, id),
    ensures
        tree::wf(final(dom)@),
        final(dom)@ == with_classes(
            old(dom)@,
            id,
            with_tokens(
                selector::classes_of(old(dom)@[id.at()].kind),
                text::texts(tokens@),
            ),
        ),
        observers::slot_view(*final(slot)) == mutate::attribute_noted(observers::slot_view(*old(slot)), id, "class"@),
        final(dom).touched() == (old(dom).touched() || old(dom)@[id.at()].kind is Element),
{
    let ghost start = selector::classes_of(dom@[id.at()].kind);
    let ghost tv = text::texts(tokens@);
    let mut classes = class_list_classes(dom, id);
    let mut i: usize = 0;
    while i < tokens.len()
        invariant
            i <= tokens@.len(),
            tv == text::texts(tokens@),
            text::texts(classes@) == with_tokens(start, tv.take(i as int)),
        decreases tokens@.len() - i,
    {
        proof {
            assert(tv.take(i + 1).drop_last() =~= tv.take(i as int));
            assert(tv.take(i + 1).last() == tokens@[i as int]@);
        }
        if !selector::has_text(&classes, &tokens[i]) && !tokens[i].as_str().is_empty() {
            let ghost prev = classes@;
            classes.push(text::copy(&tokens[i]));
            proof {
                assert(text::texts(classes@) =~= text::texts(prev).push(tokens@[i as int]@));
            }
        }
        i = i + 1;
    }
    proof {
        assert(tv.take(tv.len() as int) =~= tv);
    }
    class_list_write(dom, slot, id, &classes);
}

/// The strings of a list that are not the given one.
pub fn drop_text(v: &Vec<String>, token: &str) -> (r: Vec<String>)
    ensures
        text::texts(r@) == text::texts(v@).filter(other_than(token@)),
{
    let ghost tv = text::texts(v@);
    let ghost p = other_than(token@);
    let mut out: Vec<String> = Vec::new();
    let mut i: usize = 0;
    proof {
        reveal(Seq::filter);
        assert(tv.take(0).filter(p) =~= Seq::empty());
        assert(text::texts(out@) =~= Seq::empty());
    }
    while i < v.len()
        invariant
            i <= v@.len(),
            tv == text::texts(v@),
            p == other_than(token@),
            text::texts(out@) == tv.take(i as int).filter(p),
        decreases v@.len() - i,
    {
        proof {
            reveal(Seq::filter);
            assert(tv.take(i + 1).drop_last() =~= tv.take(i as int));
            assert(tv.take(i + 1).last() == v@[i as int]@);
        }
        if !text::same(&v[i], token) {
            let ghost prev = out@;
            out.push(text::copy(&v[i]));
            proof {
                assert(text::texts(out@) =~= text::texts(prev).push(tv[i as int]));
            }
        }
        i = i + 1;
    }
    proof {
        assert(tv.take(tv.len() as int) =~= tv);
    }
    out
}

/// Removes classes from a node, and records it.
pub fn class_list_remove(
    dom: &mut Dom,
    slot: &mut Option<ObserverState>,
    id: NodeId,
    tokens: &Vec<String>,
)
    requires
        tree::wf(old(dom)@),
        tree::has(old(dom)@, id),
    ensures
        tree::wf(final(dom)@),
        final(dom)@ == with_classes(
            old(dom)@,
            id,
            without_tokens(
                selector::classes_of(old(dom)@[id.at()].kind),
                text::texts(tokens@),
            ),
        ),
        observers::slot_view(*final(slot)) == mutate::attribute_noted(observers::slot_view(*old(slot)), id, "class"@),
        final(dom).touched() == (old(dom).touched() || old(dom)@[id.at()].kind is Element),
{
    let ghost start = selector::classes_of(dom@[id.at()].kind);
    let ghost tv = text::texts(tokens@);
    let mut classes = class_list_classes(dom, id);
    let mut i: usize = 0;
    while i < tokens.len()
        invariant
            i <= tokens@.len(),
            tv == text::texts(tokens@),
            text::texts(classes@) == without_tokens(start, tv.take(i as int)),
        decreases tokens@.len() - i,
    {
        proof {
            assert(tv.take(i + 1).drop_last() =~= tv.take(i as int));
            assert(tv.take(i + 1).last() == tokens@[i as int]@);
        }
        classes = drop_text(&classes, &tokens[i]);
        i = i + 1;
    }
    proof {
        assert(tv.take(tv.len() as int) =~= tv);
    }
    class_list_write(dom, slot, id, &classes);
}

/// Whether a toggled class is to be there: as forced, or else where it is not there yet.
pub open spec fn toggled_on(classes: Seq<Seq<char>>, token: Seq<char>, force: Option<bool>) -> bool {
    match force {
        Some(b) => b,
        None => !classes.contains(token),
    }
}

/// Adds or removes a class, records it, and tells whether it is to be there.
pub fn class_list_toggle(
    dom: &mut Dom,
    slot: &mut Option<ObserverState>,
    id: NodeId,
    token: &str,
    force: Option<bool>,
) -> (r: bool)
    requires
        tree::wf(old(dom)@),
        tree::has(old(dom)@, id),
    ensures
        tree::wf(final(dom)@),
        r == toggled_on(selector::classes_of(old(dom)@[id.at()].kind), token@, force),
        final(dom)@ == with_classes(
            old(dom)@,
            id,
            if r {
                with_token(selector::classes_of(old(dom)@[id.at()].kind), token@)
            } else {
                without_token(selector::classes_of(old(dom)@[id.at()].kind), token@)
            },
        ),
        observers::slot_view(*final(slot)) == mutate::attribute_noted(observers::slot_view(*old(slot)), id, "class"@),
        final(dom).touched() == (old(dom).touched() || old(dom)@[id.at()].kind is Element),
{
    let mut classes = class_list_classes(dom, id);
    let there = selector::has_text(&classes, token);
    let want = match force {
        Some(b) => b,
        None => !there,
    };
    if want {
        if !there && !token.is_empty() {
            let ghost prev = classes@;
            classes.push(text::copy(token));
            proof {
                assert(text::texts(classes@) =~= text::texts(prev).push(token@));
            }
        }
    } else {
        classes = drop_text(&classes, token);
    }
    class_list_write(dom, slot, id, &classes);
    want
}

/// Whether a node has a class.
pub fn class_list_contains(dom: &Dom, id: NodeId, token: &str) -> (r: bool)
    requires
        tree::has(dom@, id),
    ensures
        r == selector::classes_of(dom@[id.at()].kind).contains(token@),
{
    let classes = class_list_classes(dom, id);
    selector::has_text(&classes, token)
}

/// Replaces a class by another wherever it stands; tells whether it was there. Where it was
/// not, nothing is written or recorded.
pub fn class_list_replace(
    dom: &mut Dom,
    slot: &mut Option<ObserverState>,
    id: NodeId,
    old_token: &str,
    token: &str,
) -> (r: bool)
    requires
        tree::wf(old(dom)@),
        tree::has(old(dom)@, id),
    ensures
        tree::wf(final(dom)@),
        r == selector::classes_of(old(dom)@[id.at()].kind).contains(old_token@),
        final(dom)@ == (if r {
            with_classes(
                old(dom)@,
                id,
                replaced(selector::classes_of(old(dom)@[id.at()].kind), old_token@, token@),
            )
        } else {
            old(dom)@
        }),
        observers::slot_view(*final(slot)) == (if r {
            mutate::attribute_noted(observers::slot_view(*old(slot)), id, "class"@)
        } else {
            observers::slot_view(*old(slot))
        }),
        final(dom).touched() == (old(dom).touched() || r && old(dom)@[id.at()].kind is Element),
{
    let classes = class_list_classes(dom, id);
    if !selector::has_text(&classes, old_token) {
        return false;
    }
    let ghost cv = text::texts(classes@);
    let ghost goal = replaced(cv, old_token@, token@);
    let mut out: Vec<String> = Vec::new();
    let mut i: usize = 0;
    while i < classes.len()
        invariant
            i <= classes@.len(),
            cv == text::texts(classes@),
            goal == replaced(cv, old_token@, token@),
            text::texts(out@) == goal.take(i as int),
        decreases classes@.len() - i,
    {
        let ghost prev = out@;
        if text::same(&classes[i], old_token) {
            out.push(text::copy(token));
        } else {
            out.push(text::copy(&classes[i]));
        }
        proof {
            assert(text::texts(out@) =~= text::texts(prev).push(goal[i as int]));
            assert(goal.take(i + 1) =~= goal.take(i as int).push(goal[i as int]));
        }
        i = i + 1;
    }
    proof {
        assert(goal.take(goal.len() as int) =~= goal);
    }
    class_list_write(dom, slot, id, &out);
    true
}

/// Whether a text can be a class: it is not empty and has no white space.
pub open spec fn is_token(s: Seq<char>) -> bool {
    s.len() > 0 && forall|i: int|
        0 <= i < s.len() ==> !CharClass::AsciiSpace.has_char(#[trigger] s[i])
}

/// Tokens joined by spaces are cut at the spaces into the tokens again.
proof fn lemma_joined_pieces(v: Seq<Seq<char>>)
    requires
        v.len() > 0,
        forall|i: int| 0 <= i < v.len() ==> is_token(#[trigger] v[i]),
    ensures
        text::pieces(text::joined(v, " "@), CharClass::AsciiSpace) == v,
    decreases v.len(),
{
    let k = CharClass::AsciiSpace;
    reveal_strlit(" ");
    assert(" "@ =~= seq![' ']);
    let last = v[v.len() - 1];
    assert(is_token(last));
    let empty = Seq::<char>::empty();
    if v.len() == 1 {
        text::lemma_pieces_extend(empty, v[0], k);
        assert(empty + v[0] =~= v[0]);
        assert(text::pieces(empty, k) == seq![empty]);
        assert(seq![empty].update(0, seq![empty].last() + v[0]) =~= v);
    } else {
        let u = v.drop_last();
        assert forall|i: int| 0 <= i < u.len() implies is_token(#[trigger] u[i]) by {
            assert(u[i] == v[i]);
        }
        lemma_joined_pieces(u);
        let a = text::joined(u, " "@);
        let b = a + " "@;
        assert(b.drop_last() =~= a);
        assert(b.last() == ' ');
        assert(text::pieces(b, k) == u.push(empty));
        text::lemma_pieces_extend(b, last, k);
        assert(u.push(empty).update(u.len() as int, u.push(empty).last() + last) =~= v);
    }
}

/// The nonempty texts of a list of nonempty texts are all of them.
proof fn lemma_nonempty_all(v: Seq<Seq<char>>)
    requires
        forall|i: int| 0 <= i < v.len() ==> (#[trigger] v[i]).len() > 0,
    ensures
        text::nonempty(v) == v,
    decreases v.len(),
{
    reveal(Seq::filter);
    if v.len() > 0 {
        let u = v.drop_last();
        assert forall|i: int| 0 <= i < u.len() implies (#[trigger] u[i]).len() > 0 by {
            assert(u[i] == v[i]);
        }
        lemma_nonempty_all(u);
        assert(v[v.len() - 1].len() > 0);
        assert(text::nonempty(v) =~= text::nonempty(u).push(v.last()));
        assert(u.push(v.last()) =~= v);
    } else {
        assert(text::nonempty(v) =~= v);
    }
}

/// Classes that were written are the classes that are read.
pub proof fn written_classes_are_read(t: Seq<NodeView>, id: NodeId, classes: Seq<Seq<char>>)
    requires
        tree::has(t, id),
        t[id.at()].kind is Element,
        forall|i: int| 0 <= i < classes.len() ==> is_token(#[trigger] classes[i]),
    ensures
        selector::classes_of(with_classes(t, id, classes)[id.at()].kind) == classes,
{
    let joined = text::joined(classes, " "@);
    let attrs = tree::attrs_of(t[id.at()].kind);
    if classes.len() == 0 {
        assert(joined.len() == 0);
        pairs::drop_then_get(attrs, "class"@, "class"@);
        assert(classes =~= Seq::empty());
    } else {
        assert(is_token(classes[classes.len() - 1]));
        assert(joined.len() > 0);
        pairs::set_then_get(attrs, "class"@, joined, "class"@);
        lemma_joined_pieces(classes);
        assert forall|i: int| 0 <= i < classes.len() implies (#[trigger] classes[i]).len() > 0 by {
            assert(is_token(classes[i]));
        }
        lemma_nonempty_all(classes);
    }
}

/// A class that was added is there, and adding it again changes nothing; one that was removed
/// is not there; toggling one that is there removes it, and one that is not adds it.
pub proof fn class_list_laws(classes: Seq<Seq<char>>, token: Seq<char>)
    requires
        token.len() > 0,
    ensures
        with_token(classes, token).contains(token),
        with_token(with_token(classes, token), token) == with_token(classes, token),
        !without_token(classes, token).contains(token),
        toggled_on(classes, token, None) == !classes.contains(token),
        !classes.contains(token) ==> without_token(with_token(classes, token), token) == classes,
{
    let w = with_token(classes, token);
    if !classes.contains(token) {
        assert(w[w.len() - 1] == token);
    }
    let p = other_than(token);
    let r = without_token(classes, token);
    assert forall|i: int| 0 <= i < r.len() implies r[i] != token by {
        classes.lemma_filter_pred(p, i);
    }
    if !classes.contains(token) {
        reveal(Seq::filter);
        assert(w.drop_last() =~= classes);
        lemma_filter_absent(classes, token);
    }
}

proof fn lemma_filter_absent(v: Seq<Seq<char>>, token: Seq<char>)
    requires
        !v.contains(token),
    ensures
        v.filter(other_than(token)) == v,
    decreases v.len(),
{
    reveal(Seq::filter);
    if v.len() > 0 {
        let u = v.drop_last();
        assert(!u.contains(token)) by {
            if u.contains(token) {
                let j = choose|j: int| 0 <= j < u.len() && u[j] == token;
                assert(v[j] == token);
            }
        }
        lemma_filter_absent(u, token);
        assert(v[v.len() - 1] != token);
        assert(u.push(v.last()) =~= v);
    } else {
        assert(v.filter(other_than(token)) =~= v);
    }
}

/// Adding classes keeps those that are there, in their places, and adds those that are not, unless
/// they are empty; removing classes takes just these; replacing a class puts the other in its place.
pub proof fn class_lists_change_as_asked(
    classes: Seq<Seq<char>>,
    tokens: Seq<Seq<char>>,
    x: Seq<char>,
)
    ensures
        with_tokens(classes, tokens).contains(x) <==> classes.contains(x) || (tokens.contains(x)
            && x.len() > 0),
        with_tokens(classes, tokens).len() >= classes.len(),
        with_tokens(classes, tokens).take(classes.len() as int) == classes,
        classes.no_duplicates() ==> with_tokens(classes, tokens).no_duplicates(),
        without_tokens(classes, tokens).contains(x) <==> classes.contains(x) && !tokens.contains(x),
    decreases tokens.len(),
{
    if tokens.len() == 0 {
        assert(classes.take(classes.len() as int) =~= classes);
    } else {
        let fewer = tokens.drop_last();
        let token = tokens.last();
        class_lists_change_as_asked(classes, fewer, x);
        let a = with_tokens(classes, fewer);
        let b = with_tokens(classes, tokens);
        assert(tokens[tokens.len() - 1] == token);
        if fewer.contains(x) {
            assert(tokens[fewer.index_of(x)] == x);
        }
        if tokens.contains(x) && x != token {
            assert(fewer[tokens.index_of(x)] == x);
        }
        if a.contains(x) {
            assert(b[a.index_of(x)] == x);
        }
        if b.contains(x) && x != token {
            assert(a[b.index_of(x)] == x);
        }
        if !a.contains(token) && token.len() > 0 {
            assert(b[a.len() as int] == token);
        }
        assert(b.take(classes.len() as int) =~= classes);
        if classes.no_duplicates() && !a.contains(token) && token.len() > 0 {
            assert forall|i: int| 0 <= i < a.len() implies #[trigger] a[i] != token by {
                assert(a.contains(a[i]));
            }
        }
        let c = without_tokens(classes, fewer);
        let keep = other_than(token);
        if without_tokens(classes, tokens).contains(x) {
            let j = c.filter(keep).index_of(x);
            c.lemma_filter_pred(keep, j);
            c.lemma_filter_contains_rev(keep, x);
        }
        if c.contains(x) && x != token {
            c.lemma_filter_contains(keep, c.index_of(x));
        }
    }
}

/// Replacing a class keeps every other class in its place; forcing a class on or off has the last
/// word over whether it is there.
pub proof fn classes_are_replaced_in_place(
    classes: Seq<Seq<char>>,
    old_token: Seq<char>,
    token: Seq<char>,
    i: int,
)
    requires
        0 <= i < classes.len(),
    ensures
        replaced(classes, old_token, token).len() == classes.len(),
        classes[i] == old_token ==> replaced(classes, old_token, token)[i] == token,
        classes[i] != old_token ==> replaced(classes, old_token, token)[i] == classes[i],
        toggled_on(classes, token, Some(true)),
        !toggled_on(classes, token, Some(false)),
{
}

proof fn lemma_words_are_tokens(s: Seq<char>, i: int)
    requires
        0 <= i < text::words(s, CharClass::AsciiSpace).len(),
    ensures
        is_token(text::words(s, CharClass::AsciiSpace)[i]),
{
    let k = CharClass::AsciiSpace;
    let v = text::pieces(s, k);
    let keep = |p: Seq<char>| p.len() > 0;
    let w = text::words(s, k)[i];
    v.lemma_filter_pred(keep, i);
    assert(v.filter(keep).contains(w));
    v.lemma_filter_contains_rev(keep, w);
    let j = v.index_of(w);
    assert forall|m: int| 0 <= m < w.len() implies !k.has_char(#[trigger] w[m]) by {
        text::lemma_pieces_clear(s, k, j, m);
    }
}

/// An element to which a class was added is matched by the selector of the class, and one from which
/// it was removed is not.
pub proof fn added_class_is_selected(t: Seq<NodeView>, id: NodeId, token: Seq<char>)
    requires
        tree::has(t, id),
        t[id.at()].kind is Element,
        selector::is_plain_name(token),
    ensures
        ({
            let classes = selector::classes_of(t[id.at()].kind);
            let sels = selector::selector_list_of(seq!['.'] + token)->0;
            &&& selector::matches_any(
                with_classes(t, id, with_token(classes, token)),
                sels,
                id,
            )
            &&& !selector::matches_any(
                with_classes(t, id, without_token(classes, token)),
                sels,
                id,
            )
        }),
{
    let kind = t[id.at()].kind;
    let classes = selector::classes_of(kind);
    assert forall|i: int| 0 <= i < classes.len() implies is_token(#[trigger] classes[i]) by {
        lemma_words_are_tokens(pairs::value_of(tree::attrs_of(kind), "class"@)->0, i);
    }
    assert(is_token(token)) by {
        assert forall|i: int| 0 <= i < token.len() implies !CharClass::AsciiSpace.has_char(
            #[trigger] token[i],
        ) by {
            text::spaces_are_not_seen(token[i]);
            assert(!text::is_space(token[i]));
        }
    }
    class_list_laws(classes, token);
    let more = with_token(classes, token);
    let fewer = without_token(classes, token);
    assert forall|i: int| 0 <= i < more.len() implies is_token(#[trigger] more[i]) by {
        if i < classes.len() {
            assert(more[i] == classes[i]);
        }
    }
    assert forall|i: int| 0 <= i < fewer.len() implies is_token(#[trigger] fewer[i]) by {
        assert(fewer.contains(fewer[i]));
        classes.lemma_filter_contains_rev(other_than(token), fewer[i]);
        let j = classes.index_of(fewer[i]);
        assert(is_token(classes[j]));
    }
    written_classes_are_read(t, id, more);
    written_classes_are_read(t, id, fewer);
    let u = with_classes(t, id, more);
    let w = with_classes(t, id, fewer);
    selector::class_selector_finds_the_word(u, token, id);
    selector::class_selector_finds_the_word(w, token, id);
    let j = more.index_of(token);
    assert(more[j] == token);
    if selector::matches_any(w, selector::selector_list_of(seq!['.'] + token)->0, id) {
        let v = pairs::value_of(tree::attrs_of(w[id.at()].kind), "class"@)->0;
        let ws = text::words(v, CharClass::AsciiSpace);
        let i = choose|i: int| 0 <= i < ws.len() && #[trigger] ws[i] == token;
        assert(fewer[i] == token);
        assert(fewer.contains(token));
    }
    let v = pairs::value_of(tree::attrs_of(u[id.at()].kind), "class"@)->0;
    assert(text::words(v, CharClass::AsciiSpace)[j] == token);
}

} // verus!
