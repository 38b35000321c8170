//! Changing a document as scripts do, with the records that observers are told of.
use crate::dom;
use crate::markup;
use crate::mse;
use crate::mse::MediaRegistry;
use crate::observers;
use crate::observers::{MutationKind, MutationRecord, ObserverState, ObserversView, RecordView};
use crate::pairs;
use crate::text;
use crate::tree;
use crate::tree::{Dom, KindView, NodeId, NodeKind, NodeView};
use vstd::prelude::*;

verus! {

/// The record of a change of a node's children.
pub open spec fn children_record(target: NodeId) -> RecordView {
    RecordView { kind: MutationKind::ChildList, target, attribute_name: None }
}

/// The record of a change of an attribute.
pub open spec fn attribute_record(target: NodeId, name: Seq<char>) -> RecordView {
    RecordView { kind: MutationKind::Attributes, target, attribute_name: Some(name) }
}

/// The observers with the change of an attribute to be told of.
pub open spec fn attribute_noted(
    slot: Option<ObserversView>,
    target: NodeId,
    name: Seq<char>,
) -> Option<ObserversView> {
    observers::recorded(slot, attribute_record(target, name))
}

/// The record of a change of a node's text.
pub open spec fn text_record(target: NodeId) -> RecordView {
    RecordView { kind: MutationKind::CharacterData, target, attribute_name: None }
}

/// The tree with a node made the last child of another.
pub open spec fn appended(t: Seq<NodeView>, parent: NodeId, child: NodeId) -> Seq<NodeView> {
    let u = tree::detached(t, child);
    tree::placed(u, parent, child, u[parent.at()].children.len() as int)
}

/// The tree with a node made a child of another, before one of its children.
pub open spec fn inserted(t: Seq<NodeView>, parent: NodeId, child: NodeId, before: NodeId) -> Seq<
    NodeView,
> {
    let u = tree::detached(t, child);
    tree::placed(u, parent, child, u[parent.at()].children.index_of(before))
}

/// Adds a mutation to those that the observers have yet to be told of.
fn record(
    slot: &mut Option<ObserverState>,
    kind: MutationKind,
    target: NodeId,
    attribute_name: Option<String>,
)
    ensures
        observers::slot_view(*final(slot)) == observers::recorded(
            observers::slot_view(*old(slot)),
            (RecordView { kind, target, attribute_name: text::opt_text(attribute_name) }),
        ),
{
    observers::push_mutation_record(slot, MutationRecord { kind, target, attribute_name });
}

/// Adds the change of an attribute to those that the observers have yet to be told of.
pub fn record_attribute(slot: &mut Option<ObserverState>, target: NodeId, name: &str)
    ensures
        observers::slot_view(*final(slot)) == attribute_noted(
            observers::slot_view(*old(slot)),
            target,
            name@,
        ),
{
    record(slot, MutationKind::Attributes, target, Some(text::copy(name)));
}

/// Makes a node the last child of another, taking it away from the parent that it has. Refused,
/// with nothing changed, where the other is the node or below it.
pub fn element_append_child(
    dom: &mut Dom,
    slot: &mut Option<ObserverState>,
    parent: NodeId,
    child: NodeId,
) -> (r: bool)
    requires
        tree::wf(old(dom)@),
        tree::has(old(dom)@, parent),
        tree::has(old(dom)@, child),
    ensures
        tree::wf(final(dom)@),
        r == !tree::within(old(dom)@, child, parent),
        r ==> final(dom)@ == appended(old(dom)@, parent, child) && observers::slot_view(
            *final(slot),
        ) == observers::recorded(observers::slot_view(*old(slot)), children_record(parent)),
        !r ==> final(dom)@ == old(dom)@ && observers::slot_view(*final(slot))
            == observers::slot_view(*old(slot)),
        final(dom).touched() == (old(dom).touched() || r),
{
    let ghost t = dom@;
    if dom.contains(child, parent) {
        return false;
    }
    proof {
        tree::lemma_detached_wf(t, child);
        if tree::within(tree::detached(t, child), child, parent) {
            tree::lemma_detached_within(t, child, child, parent);
        }
    }
    dom.detach(child);
    dom.append_child(parent, child);
    record(slot, MutationKind::ChildList, parent, None);
    true
}

/// Takes a node away from a parent, where it is a child of that parent. The change is recorded
/// either way.
pub fn element_remove_child(
    dom: &mut Dom,
    slot: &mut Option<ObserverState>,
    parent: NodeId,
    child: NodeId,
)
    requires
        tree::wf(old(dom)@),
        tree::has(old(dom)@, parent),
        tree::has(old(dom)@, child),
    ensures
        tree::wf(final(dom)@),
        final(dom)@ == (if old(dom)@[child.at()].parent == Some(parent) {
            tree::detached(old(dom)@, child)
        } else {
            old(dom)@
        }),
        observers::slot_view(*final(slot)) == observers::recorded(
            observers::slot_view(*old(slot)),
            children_record(parent),
        ),
        final(dom).touched() == (old(dom).touched() || old(dom)@[child.at()].parent == Some(parent)),
{
    let is_child = match dom.node(child).parent {
        Some(p) => p.raw == parent.raw,
        None => false,
    };
    if is_child {
        dom.detach(child);
    }
    record(slot, MutationKind::ChildList, parent, None);
}

/// Whether a node can be put before another among the children of a parent.
pub open spec fn can_insert(
    t: Seq<NodeView>,
    parent: NodeId,
    child: NodeId,
    before: NodeId,
) -> bool {
    t[before.at()].parent == Some(parent) && child != before && !tree::within(t, child, parent)
}

/// Puts a node before another among the children of a parent, where the other is one of them.
/// A node that stands there already, or that the parent is within, stays where it is.
fn put_before(dom: &mut Dom, parent: NodeId, child: NodeId, before: NodeId) -> (r: bool)
    requires
        tree::wf(old(dom)@),
        tree::has(old(dom)@, parent),
        tree::has(old(dom)@, child),
        tree::has(old(dom)@, before),
    ensures
        tree::wf(final(dom)@),
        r == can_insert(old(dom)@, parent, child, before),
        final(dom)@ == (if r {
            inserted(old(dom)@, parent, child, before)
        } else {
            old(dom)@
        }),
        final(dom).touched() == (old(dom).touched() || r),
{
    let ghost t = dom@;
    let is_child = match dom.node(before).parent {
        Some(p) => p.raw == parent.raw,
        None => false,
    };
    if !is_child || child.raw == before.raw || dom.contains(child, parent) {
        return false;
    }
    proof {
        let u = tree::detached(t, child);
        tree::lemma_detached_wf(t, child);
        if tree::within(u, child, parent) {
            tree::lemma_detached_within(t, child, child, parent);
        }
        assert(u[before.at()].parent == Some(parent));
        tree::lemma_parent(u, before);
    }
    dom.detach(child);
    dom.insert_before(parent, child, before);
    true
}

/// What an element's `insertBefore` does: without a child to insert before, it appends. A change
/// is recorded.
pub fn element_insert_before(
    dom: &mut Dom,
    slot: &mut Option<ObserverState>,
    parent: NodeId,
    child: NodeId,
    before: Option<NodeId>,
) -> (r: bool)
    requires
        tree::wf(old(dom)@),
        tree::has(old(dom)@, parent),
        tree::has(old(dom)@, child),
        before matches Some(b) ==> tree::has(old(dom)@, b),
    ensures
        tree::wf(final(dom)@),
        r == match before {
            None => !tree::within(old(dom)@, child, parent),
            Some(b) => can_insert(old(dom)@, parent, child, b),
        },
        final(dom)@ == (if !r {
            old(dom)@
        } else {
            match before {
                None => appended(old(dom)@, parent, child),
                Some(b) => inserted(old(dom)@, parent, child, b),
            }
        }),
        observers::slot_view(*final(slot)) == (if r {
            observers::recorded(observers::slot_view(*old(slot)), children_record(parent))
        } else {
            observers::slot_view(*old(slot))
        }),
        final(dom).touched() == (old(dom).touched() || r),
{
    match before {
        None => element_append_child(dom, slot, parent, child),
        Some(b) => {
            let done = put_before(dom, parent, child, b);
            if done {
                record(slot, MutationKind::ChildList, parent, None);
            }
            done
        },
    }
}

/// What an element's `replaceChild` does: the new child takes the place of the old one. A change
/// is recorded.
pub fn element_replace_child(
    dom: &mut Dom,
    slot: &mut Option<ObserverState>,
    parent: NodeId,
    child: NodeId,
    gone: NodeId,
) -> (r: bool)
    requires
        tree::wf(old(dom)@),
        tree::has(old(dom)@, parent),
        tree::has(old(dom)@, child),
        tree::has(old(dom)@, gone),
    ensures
        tree::wf(final(dom)@),
        r == can_insert(old(dom)@, parent, child, gone),
        final(dom)@ == (if r {
            tree::detached(inserted(old(dom)@, parent, child, gone), gone)
        } else {
            old(dom)@
        }),
        observers::slot_view(*final(slot)) == (if r {
            observers::recorded(observers::slot_view(*old(slot)), children_record(parent))
        } else {
            observers::slot_view(*old(slot))
        }),
        final(dom).touched() == (old(dom).touched() || r),
{
    let ghost t = dom@;
    proof {
        tree::lemma_detached_wf(t, child);
    }
    if put_before(dom, parent, child, gone) {
        dom.detach(gone);
        record(slot, MutationKind::ChildList, parent, None);
        true
    } else {
        false
    }
}

/// The kind of a shallow copy: an element with its attributes, a text with its text, an empty
/// text for anything else.
pub open spec fn shallow_kind(k: KindView) -> KindView {
    match k {
        KindView::Element { .. } => k,
        KindView::Text(_) => k,
        _ => KindView::Text(Seq::empty()),
    }
}

/// What a node's `cloneNode` gives: a copy without parent, with all below the node where it is
/// to be deep.
pub fn element_clone_node(dom: &mut Dom, id: NodeId, deep: bool) -> (r: NodeId)
    requires
        tree::wf(old(dom)@),
        tree::has(old(dom)@, id),
        old(dom)@.len() + tree::subtree(old(dom)@, id).len() <= u32::MAX,
    ensures
        tree::wf(final(dom)@),
        r.at() == old(dom)@.len(),
        deep ==> {
            &&& final(dom)@.take(old(dom)@.len() as int) == old(dom)@
            &&& final(dom)@.len() == old(dom)@.len() + tree::subtree(old(dom)@, id).len()
            &&& final(dom)@[r.at()].parent is None
            &&& tree::same_shape(old(dom)@, id, final(dom)@, r)
        },
        !deep ==> final(dom)@ == tree::with_node(
            old(dom)@,
            shallow_kind(old(dom)@[id.at()].kind),
        ),
        final(dom).touched(),
{
    if deep {
        dom.clone_subtree(id)
    } else {
        proof {
            assert(tree::subtree(dom@, id).len() >= 1);
        }
        let kind = match &dom.node(id).kind {
            NodeKind::Element { tag, attrs } => tree::copy_kind(&dom.node(id).kind),
            NodeKind::Text(s) => tree::copy_kind(&dom.node(id).kind),
            _ => NodeKind::Text(String::new()),
        };
        dom.create(kind)
    }
}

/// Sets an attribute, and records it. Where it is the `src` of an element and names a media
/// source that is there, that source is opened for the element; tells whether one was.
pub fn element_set_attribute(
    dom: &mut Dom,
    slot: &mut Option<ObserverState>,
    media: &mut MediaRegistry,
    id: NodeId,
    name: &str,
    value: &str,
) -> (r: bool)
    requires
        tree::wf(old(dom)@),
        tree::has(old(dom)@, id),
    ensures
        tree::wf(final(dom)@),
        final(dom)@ == tree::with_attr(old(dom)@, id, name@, value@),
        observers::slot_view(*final(slot)) == observers::recorded(
            observers::slot_view(*old(slot)),
            attribute_record(id, name@),
        ),
        r == (text::lower(name@) == text::lower("src"@) && mse::names_source(
            old(media)@,
            value@,
        )),
        final(media)@.buffers == old(media)@.buffers,
        final(media)@.sources == (if r {
            mse::changed(
                old(media)@.sources,
                mse::url_source(value@)->0,
                mse::opened(id),
            )
        } else {
            old(media)@.sources
        }),
        final(dom).touched() == (old(dom).touched() || old(dom)@[id.at()].kind is Element),
{
    let mut attached = false;
    if text::same_ignoring_case(name, "src") {
        attached = mse::try_attach(media, value, id);
    }
    dom.set_attribute(id, name, text::copy(value));
    record(slot, MutationKind::Attributes, id, Some(text::copy(name)));
    attached
}

/// Sets the `id` of a node, and records it.
pub fn element_set_id(
    dom: &mut Dom,
    slot: &mut Option<ObserverState>,
    id: NodeId,
    value: &str,
)
    requires
        tree::wf(old(dom)@),
        tree::has(old(dom)@, id),
    ensures
        tree::wf(final(dom)@),
        final(dom)@ == tree::with_attr(old(dom)@, id, "id"@, value@),
        observers::slot_view(*final(slot)) == attribute_noted(
            observers::slot_view(*old(slot)),
            id,
            "id"@,
        ),
        final(dom).touched() == (old(dom).touched() || old(dom)@[id.at()].kind is Element),
{
    dom.set_attribute(id, "id", text::copy(value));
    record_attribute(slot, id, "id");
}

/// Sets the `class` of a node, and records it.
pub fn element_set_class_name(
    dom: &mut Dom,
    slot: &mut Option<ObserverState>,
    id: NodeId,
    value: &str,
)
    requires
        tree::wf(old(dom)@),
        tree::has(old(dom)@, id),
    ensures
        tree::wf(final(dom)@),
        final(dom)@ == tree::with_attr(old(dom)@, id, "class"@, value@),
        observers::slot_view(*final(slot)) == attribute_noted(
            observers::slot_view(*old(slot)),
            id,
            "class"@,
        ),
        final(dom).touched() == (old(dom).touched() || old(dom)@[id.at()].kind is Element),
{
    dom.set_attribute(id, "class", text::copy(value));
    record_attribute(slot, id, "class");
}

/// Removes an attribute, and records it.
pub fn element_remove_attribute(
    dom: &mut Dom,
    slot: &mut Option<ObserverState>,
    id: NodeId,
    name: &str,
)
    requires
        tree::wf(old(dom)@),
        tree::has(old(dom)@, id),
    ensures
        tree::wf(final(dom)@),
        final(dom)@ == tree::without_attr(old(dom)@, id, name@),
        observers::slot_view(*final(slot)) == observers::recorded(
            observers::slot_view(*old(slot)),
            attribute_record(id, name@),
        ),
        final(dom).touched() == (old(dom).touched() || old(dom)@[id.at()].kind is Element),
{
    dom.remove_attribute(id, name);
    record(slot, MutationKind::Attributes, id, Some(text::copy(name)));
}

/// Replaces the text of a node, and records it.
pub fn element_set_text_content(
    dom: &mut Dom,
    slot: &mut Option<ObserverState>,
    id: NodeId,
    content: String,
)
    requires
        tree::wf(old(dom)@),
        tree::has(old(dom)@, id),
        old(dom)@.len() < u32::MAX,
    ensures
        tree::wf(final(dom)@),
        final(dom)@ == tree::with_text(old(dom)@, id, content@),
        takes_text(old(dom)@[id.at()].kind) ==> dom::text_of(final(dom)@, id) == content@,
        observers::slot_view(*final(slot)) == observers::recorded(
            observers::slot_view(*old(slot)),
            text_record(id),
        ),
        final(dom).touched() == (old(dom).touched() || !(old(dom)@[id.at()].kind is Doctype)),
{
    let ghost t = dom@;
    let ghost words = content@;
    dom.set_text_content(id, content);
    record(slot, MutationKind::CharacterData, id, None);
    proof {
        if takes_text(t[id.at()].kind) {
            lemma_text_is_read(t, id, words);
        }
    }
}

/// Whether the text of a node of this kind can be replaced and read.
pub open spec fn takes_text(k: KindView) -> bool {
    k is Text || k is Element || k is Document
}

/// The text that a node was given is the text that is read.
proof fn lemma_text_is_read(t: Seq<NodeView>, id: NodeId, s: Seq<char>)
    requires
        tree::has(t, id),
        t.len() < u32::MAX,
        takes_text(t[id.at()].kind),
        tree::wf(tree::with_text(t, id, s)),
    ensures
        dom::text_of(tree::with_text(t, id, s), id) == s,
{
    let u = tree::with_text(t, id, s);
    if !(t[id.at()].kind is Text) {
        let c = NodeId { raw: t.len() as u32 };
        let kids = u[id.at()].children;
        assert(kids =~= seq![c]);
        assert(u[c.at()].kind == KindView::Text(s));
        tree::lemma_child(u, id, 0);
        assert(dom::text_of(u, c) == s);
        assert(dom::text_below(u, id, 0) == Seq::<char>::empty());
        assert(dom::text_below(u, id, 1) =~= s);
    }
}

/// An attribute that was set is the one that is read, and all others are as before; one that was
/// removed is gone, and all others are as before.
pub proof fn attributes_are_read_as_set(
    t: Seq<NodeView>,
    id: NodeId,
    name: Seq<char>,
    value: Seq<char>,
    other: Seq<char>,
)
    requires
        tree::has(t, id),
        t[id.at()].kind is Element,
    ensures
        ({
            let before = tree::attrs_of(t[id.at()].kind);
            let set = tree::attrs_of(tree::with_attr(t, id, name, value)[id.at()].kind);
            let removed = tree::attrs_of(tree::without_attr(t, id, name)[id.at()].kind);
            &&& pairs::value_of(set, name) == Some(value)
            &&& pairs::value_of(removed, name) is None
            &&& other != name ==> pairs::value_of(set, other) == pairs::value_of(before, other)
            &&& other != name ==> pairs::value_of(removed, other) == pairs::value_of(before, other)
        }),
{
    let before = tree::attrs_of(t[id.at()].kind);
    pairs::set_then_get(before, name, value, other);
    pairs::drop_then_get(before, name, other);
}

/// Whether a node is an element with the tag `html`.
pub open spec fn is_html(k: KindView) -> bool {
    k matches KindView::Element { tag, .. } && tag == "html"@
}

/// Whether a node is an element with the tag `head` or `body`.
pub open spec fn is_head_or_body(k: KindView) -> bool {
    k matches KindView::Element { tag, .. } && (tag == "head"@ || tag == "body"@)
}

/// The children of a document, or those of its `html` element where that is all there is.
pub open spec fn unwrapped(t: Seq<NodeView>) -> Seq<NodeId> {
    let tops = t[0].children;
    if tops.len() == 1 && is_html(t[tops[0].at()].kind) {
        t[tops[0].at()].children
    } else {
        tops
    }
}

/// The children of the nodes of a list, one after the other.
pub open spec fn flattened(t: Seq<NodeView>, v: Seq<NodeId>) -> Seq<NodeId>
    decreases v.len(),
{
    if v.len() == 0 {
        Seq::empty()
    } else {
        flattened(t, v.drop_last()) + t[v.last().at()].children
    }
}

/// The nodes of a parsed fragment that stand for what was written: the wrapping `html`, `head`
/// and `body` elements are left out.
pub open spec fn fragment_nodes(t: Seq<NodeView>) -> Seq<NodeId> {
    let v = unwrapped(t);
    if v.len() > 0 && forall|i: int|
        0 <= i < v.len() ==> is_head_or_body(t[(#[trigger] v[i]).at()].kind) {
        flattened(t, v)
    } else {
        v
    }
}

fn has_tag(k: &NodeKind, a: &str, b: &str) -> (r: bool)
    ensures
        r == (k@ matches KindView::Element { tag, .. } && (tag == a@ || tag == b@)),
{
    match k {
        NodeKind::Element { tag, attrs } => text::same(tag, a) || text::same(tag, b),
        _ => false,
    }
}

/// The nodes of a parsed fragment that stand for what was written.
pub fn nodes_to_adopt(parsed: &Dom) -> (r: Vec<NodeId>)
    requires
        tree::wf(parsed@),
    ensures
        r@ == fragment_nodes(parsed@),
        forall|i: int| 0 <= i < r@.len() ==> tree::has(parsed@, #[trigger] r@[i]),
{
    let ghost t = parsed@;
    let mut v = parsed.children(parsed.document());
    proof {
        assert forall|i: int| 0 <= i < v@.len() implies tree::has(t, #[trigger] v@[i]) by {
            tree::lemma_child(t, NodeId { raw: 0 }, i);
        }
    }
    if v.len() == 1 && has_tag(&parsed.node(v[0]).kind, "html", "html") {
        let top = v[0];
        v = parsed.children(top);
        proof {
            assert forall|i: int| 0 <= i < v@.len() implies tree::has(t, #[trigger] v@[i]) by {
                tree::lemma_child(t, top, i);
            }
        }
    }
    let mut all = v.len() > 0;
    let mut i: usize = 0;
    while i < v.len()
        invariant
            i <= v@.len(),
            t == parsed@,
            v@ == unwrapped(t),
            forall|j: int| 0 <= j < v@.len() ==> tree::has(t, #[trigger] v@[j]),
            all == (v@.len() > 0 && forall|j: int|
                0 <= j < i ==> is_head_or_body(t[(#[trigger] v@[j]).at()].kind)),
        decreases v@.len() - i,
    {
        let wraps = has_tag(&parsed.node(v[i]).kind, "head", "body");
        proof {
            assert(wraps == is_head_or_body(t[v@[i as int].at()].kind));
        }
        all = all && wraps;
        i = i + 1;
    }
    if !all {
        return v;
    }
    let mut flat: Vec<NodeId> = Vec::new();
    let mut k: usize = 0;
    while k < v.len()
        invariant
            k <= v@.len(),
            t == parsed@,
            tree::wf(t),
            forall|j: int| 0 <= j < v@.len() ==> tree::has(t, #[trigger] v@[j]),
            forall|j: int| 0 <= j < flat@.len() ==> tree::has(t, #[trigger] flat@[j]),
            flat@ == flattened(t, v@.take(k as int)),
        decreases v@.len() - k,
    {
        proof {
            assert(v@.take(k + 1).drop_last() =~= v@.take(k as int));
            assert(v@.take(k + 1).last() == v@[k as int]);
        }
        let mut kids = parsed.children(v[k]);
        proof {
            assert forall|j: int| 0 <= j < kids@.len() implies tree::has(t, #[trigger] kids@[j]) by {
                tree::lemma_child(t, v@[k as int], j);
            }
        }
        let ghost before = flat@;
        let ghost kv = kids@;
        flat.append(&mut kids);
        proof {
            assert(flat@ == before + kv);
        }
        k = k + 1;
    }
    proof {
        assert(v@.take(v@.len() as int) =~= v@);
    }
    flat
}

/// How many nodes the subtrees of a list of nodes have together.
pub open spec fn forest_size(t: Seq<NodeView>, v: Seq<NodeId>) -> nat
    decreases v.len(),
{
    if v.len() == 0 {
        0
    } else {
        forest_size(t, v.drop_last()) + tree::subtree(t, v.last()).len()
    }
}

proof fn lemma_forest_grows(t: Seq<NodeView>, v: Seq<NodeId>, n: int)
    requires
        0 <= n <= v.len(),
    ensures
        forest_size(t, v.take(n)) <= forest_size(t, v),
    decreases v.len(),
{
    if n < v.len() {
        assert(v.drop_last().take(n) =~= v.take(n));
        lemma_forest_grows(t, v.drop_last(), n);
    } else {
        assert(v.take(n) =~= v);
    }
}

/// The markup of nodes, one after the other.
pub open spec fn forest_markup(t: Seq<NodeView>, v: Seq<NodeId>) -> Seq<char>
    decreases v.len(),
{
    if v.len() == 0 {
        Seq::empty()
    } else {
        forest_markup(t, v.drop_last()) + markup::markup_of(t, v.last())
    }
}

/// Children of the same shape as other nodes have their markup.
proof fn lemma_adopted_markup(
    s: Seq<NodeView>,
    v: Seq<NodeId>,
    t: Seq<NodeView>,
    target: NodeId,
    n: int,
)
    requires
        tree::wf(s),
        tree::wf(t),
        tree::has(t, target),
        0 <= n <= v.len(),
        t[target.at()].children.len() == v.len(),
        forall|i: int| 0 <= i < v.len() ==> tree::has(s, #[trigger] v[i]),
        forall|i: int|
            0 <= i < v.len() ==> tree::same_shape(
                s,
                #[trigger] v[i],
                t,
                t[target.at()].children[i],
            ),
    ensures
        markup::markup_below(t, target, n) == forest_markup(s, v.take(n)),
    decreases n,
{
    if n > 0 {
        lemma_adopted_markup(s, v, t, target, n - 1);
        tree::lemma_child(t, target, n - 1);
        assert(tree::same_shape(s, v[n - 1], t, t[target.at()].children[n - 1]));
        markup::same_shape_same_markup(s, v[n - 1], t, t[target.at()].children[n - 1]);
        assert(v.take(n).drop_last() =~= v.take(n - 1));
        assert(v.take(n).last() == v[n - 1]);
    }
}

/// Replaces what is in an element by copies of the nodes of a parsed fragment, whose markup is
/// then that of its children, and records it.
pub fn element_set_inner_html(
    dom: &mut Dom,
    slot: &mut Option<ObserverState>,
    target: NodeId,
    parsed: &Dom,
)
    requires
        tree::wf(old(dom)@),
        tree::has(old(dom)@, target),
        tree::wf(parsed@),
        old(dom)@.len() + forest_size(parsed@, fragment_nodes(parsed@)) <= u32::MAX,
    ensures
        tree::wf(final(dom)@),
        final(dom)@.len() == old(dom)@.len() + forest_size(parsed@, fragment_nodes(parsed@)),
        final(dom)@[target.at()].children.len() == fragment_nodes(parsed@).len(),
        forall|i: int|
            0 <= i < fragment_nodes(parsed@).len() ==> tree::same_shape(
                parsed@,
                #[trigger] fragment_nodes(parsed@)[i],
                final(dom)@,
                final(dom)@[target.at()].children[i],
            ),
        forall|i: int|
            0 <= i < old(dom)@.len() && i != target.at() ==> #[trigger] final(dom)@[i]
                == tree::cropped(old(dom)@, target, 0)[i],
        final(dom)@[target.at()].kind == old(dom)@[target.at()].kind,
        final(dom)@[target.at()].parent == old(dom)@[target.at()].parent,
        markup::markup_below(
            final(dom)@,
            target,
            final(dom)@[target.at()].children.len() as int,
        ) == forest_markup(parsed@, fragment_nodes(parsed@)),
        observers::slot_view(*final(slot)) == observers::recorded(
            observers::slot_view(*old(slot)),
            children_record(target),
        ),
        final(dom).touched() == (old(dom).touched() || old(dom)@[target.at()].children.len() > 0
            || fragment_nodes(parsed@).len() > 0),
{
    record(slot, MutationKind::ChildList, target, None);
    let ghost t = dom@;
    let ghost s = parsed@;
    let v = nodes_to_adopt(parsed);
    dom.detach_children(target);
    let ghost t0 = dom@;
    let mut k: usize = 0;
    proof {
        assert(t0[target.at()].children =~= Seq::empty());
        assert(t0.len() == t.len());
        if t[target.at()].parent == Some(target) {
            tree::lemma_parent(t, target);
        }
    }
    while k < v.len()
        invariant
            k <= v@.len(),
            s == parsed@,
            tree::wf(s),
            v@ == fragment_nodes(s),
            forall|i: int| 0 <= i < v@.len() ==> tree::has(s, #[trigger] v@[i]),
            t0.len() + forest_size(s, v@) <= u32::MAX,
            tree::has(t0, target),
            t0[target.at()].children.len() == 0,
            tree::wf(dom@),
            dom@.len() == t0.len() + forest_size(s, v@.take(k as int)),
            dom@[target.at()].children.len() == k,
            forall|i: int|
                0 <= i < k ==> (#[trigger] dom@[target.at()].children[i]).at() >= t0.len(),
            forall|i: int|
                0 <= i < k ==> tree::same_shape(
                    s,
                    #[trigger] v@[i],
                    dom@,
                    dom@[target.at()].children[i],
                ),
            forall|i: int|
                0 <= i < t0.len() && i != target.at() ==> #[trigger] dom@[i] == t0[i],
            dom@[target.at()].kind == t0[target.at()].kind,
            dom@[target.at()].parent == t0[target.at()].parent,
            tree::forward(dom@, t0.len() as int),
            dom.touched() == (old(dom).touched() || old(dom)@[target.at()].children.len() > 0 || k
                > 0),
        decreases v@.len() - k,
    {
        let ghost t1 = dom@;
        proof {
            assert(v@.take(k + 1).drop_last() =~= v@.take(k as int));
            assert(v@.take(k + 1).last() == v@[k as int]);
            lemma_forest_grows(s, v@, k + 1);
        }
        let c = dom.adopt_subtree(parsed, v[k]);
        let ghost t2 = dom@;
        proof {
            assert forall|i: int| 0 <= i < t1.len() implies t2[i] == t1[i] by {
                assert(t2.take(t1.len() as int)[i] == t1[i]);
            }
            if tree::within(t2, c, target) {
                tree::lemma_forward_within(t2, t1.len() as int, c, target);
            }
        }
        dom.append_child(target, c);
        proof {
            let t3 = dom@;
            assert forall|i: int| 0 <= i < t3.len() && i != target.at() implies (
            #[trigger] t3[i]).children == t2[i].children && t3[i].kind == t2[i].kind by {}
            assert(t3[target.at()].children =~= t1[target.at()].children.push(c));
            assert forall|i: int| 0 <= i < k + 1 implies (
            #[trigger] t3[target.at()].children[i]).at() >= t0.len() by {
                if i < k {
                    assert(t3[target.at()].children[i] == t1[target.at()].children[i]);
                } else {
                    assert(t3[target.at()].children[i] == c);
                }
            }
            assert forall|i: int| 0 <= i < k + 1 implies tree::same_shape(
                s,
                #[trigger] v@[i],
                t3,
                t3[target.at()].children[i],
            ) by {
                if i < k {
                    let b = t1[target.at()].children[i];
                    assert(tree::same_shape(s, v@[i], t1, b));
                    assert forall|j: int| b.at() <= j < t1.len() implies (#[trigger] t3[j]).kind
                        == t1[j].kind && t3[j].children == t1[j].children by {
                        assert(t2[j] == t1[j]);
                    }
                    assert(tree::forward(t1, b.at()));
                    tree::lemma_shape_frame(s, v@[i], t1, t3, b);
                } else {
                    tree::lemma_shape_frame(s, v@[i], t2, t3, c);
                }
            }
            assert(tree::forward(t3, t0.len() as int)) by {
                assert forall|i: int, q: int|
                    #![trigger t3[i].children[q]]
                    t0.len() <= i < t3.len() && 0 <= q < t3[i].children.len() implies i
                    < t3[i].children[q].at() by {
                    assert(t3[i].children == t2[i].children);
                    if i < t1.len() {
                        assert(t2[i] == t1[i]);
                        assert(i < t1[i].children[q].at());
                    } else {
                        assert(i < t2[i].children[q].at());
                    }
                }
            }
        }
        k = k + 1;
    }
    proof {
        assert(v@.take(v@.len() as int) =~= v@);
        lemma_adopted_markup(s, v@, dom@, target, v@.len() as int);
    }
}

/// A node that is appended comes behind the other children of its parent, which keep their order.
pub proof fn appended_nodes_come_last(t: Seq<NodeView>, parent: NodeId, child: NodeId)
    requires
        tree::wf(t),
        tree::has(t, parent),
        tree::has(t, child),
        parent != child,
    ensures
        ({
            let u = appended(t, parent, child);
            &&& u[parent.at()].children == t[parent.at()].children.filter(
                |n: NodeId| n != child,
            ).push(child)
            &&& u[child.at()].parent == Some(parent)
            &&& u[child.at()].kind == t[child.at()].kind
            &&& u.len() == t.len()
        }),
{
    let u = tree::detached(t, child);
    tree::detached_nodes_stand_alone(t, child, parent.at(), child);
    tree::detached_nodes_stand_alone(t, child, child.at(), child);
    let v = u[parent.at()].children;
    tree::placed_children_stand_in_order(u, parent, child, v.len() as int, child.at());
    assert(v.take(v.len() as int).push(child) + v.skip(v.len() as int) =~= v.push(child));
}

/// A node that is inserted comes right before the one it was put before; the other children keep their
/// order.
pub proof fn inserted_nodes_come_before(
    t: Seq<NodeView>,
    parent: NodeId,
    child: NodeId,
    before: NodeId,
)
    requires
        tree::wf(t),
        tree::has(t, parent),
        tree::has(t, child),
        tree::has(t, before),
        can_insert(t, parent, child, before),
    ensures
        ({
            let u = inserted(t, parent, child, before);
            let v = u[parent.at()].children;
            &&& exists|i: int|
                0 <= i < v.len() - 1 && #[trigger] v[i] == child && v[i + 1] == before
            &&& v.contains(child)
            &&& u[child.at()].parent == Some(parent)
            &&& forall|n: NodeId|
                n != child ==> (#[trigger] v.contains(n) <==> t[parent.at()].children.contains(n))
            &&& tree::detached(u, child)[parent.at()].children == t[parent.at()].children.filter(
                |n: NodeId| n != child,
            )
        }),
{
    let d = tree::detached(t, child);
    tree::lemma_parent(t, before);
    assert(tree::within(t, child, child));
    assert(parent != child);
    tree::detached_nodes_stand_alone(t, child, parent.at(), before);
    tree::detached_nodes_stand_alone(t, child, child.at(), before);
    assert(NodeId { raw: before.at() as u32 } == before);
    assert(t[parent.at()].children.contains(before));
    let w = d[parent.at()].children;
    let i = w.index_of(before);
    assert(w[i] == before);
    tree::placed_children_stand_in_order(d, parent, child, i, child.at());
    let u = inserted(t, parent, child, before);
    let v = u[parent.at()].children;
    assert(v == w.take(i).push(child) + w.skip(i));
    assert(v[i] == child);
    assert(v[i + 1] == before);
    assert forall|n: NodeId| n != child implies (#[trigger] v.contains(n)
        <==> t[parent.at()].children.contains(n)) by {
        tree::detached_nodes_stand_alone(t, child, parent.at(), n);
        if v.contains(n) {
            let k = v.index_of(n);
            if k < i {
                assert(w[k] == n);
            } else {
                assert(w[k - 1] == n);
            }
            assert(w.contains(n));
        }
        if w.contains(n) {
            let k = w.index_of(n);
            if k < i {
                assert(v[k] == n);
            } else {
                assert(v[k + 1] == n);
            }
        }
    }
    tree::lemma_detached_wf(t, child);
    tree::detached_nodes_stand_alone(t, child, parent.at(), child);
    assert(!w.contains(child));
    assert(v.index_of(child) == i) by {
        let k = v.index_of(child);
        if k != i {
            assert(w.contains(child)) by {
                if k < i {
                    assert(w[k] == child);
                } else {
                    assert(w[k - 1] == child);
                }
            }
        }
    }
    assert(v.remove(i) =~= w);
}

/// A fragment's nodes are what was written: the elements that wrap it are left out and nothing else is.
pub proof fn fragments_lose_their_wrapping(t: Seq<NodeView>, h: NodeId, a: NodeId, b: NodeId)
    requires
        tree::wf(t),
        tree::has(t, h),
        t[0].children == seq![h],
    ensures
        !is_html(t[h.at()].kind) && !is_head_or_body(t[h.at()].kind) ==> fragment_nodes(t) == seq![
            h,
        ],
        is_html(t[h.at()].kind) && t[h.at()].children == seq![a, b] && is_head_or_body(
            t[a.at()].kind,
        ) && is_head_or_body(t[b.at()].kind) ==> fragment_nodes(t) == t[a.at()].children
            + t[b.at()].children,
        is_html(t[h.at()].kind) && t[h.at()].children == seq![a] && is_head_or_body(
            t[a.at()].kind,
        ) ==> fragment_nodes(t) == t[a.at()].children,
        is_html(t[h.at()].kind) && t[h.at()].children.contains(a) && !is_head_or_body(
            t[a.at()].kind,
        ) ==> fragment_nodes(t) == t[h.at()].children,
        is_html(t[h.at()].kind) && t[h.at()].children.len() == 0 ==> fragment_nodes(t).len() == 0,
{
    reveal_with_fuel(flattened, 4);
    let k = t[h.at()].children;
    assert(seq![a, b].drop_last() =~= seq![a]);
    assert(seq![a].drop_last() =~= Seq::<NodeId>::empty());
    assert(Seq::<NodeId>::empty() + t[a.at()].children =~= t[a.at()].children);
    let v = unwrapped(t);
    if is_html(t[h.at()].kind) && k.contains(a) && !is_head_or_body(t[a.at()].kind) {
        let i = k.index_of(a);
        assert(v[i] == a);
    }
    if !is_html(t[h.at()].kind) && !is_head_or_body(t[h.at()].kind) {
        assert(v[0] == h);
    }
}

/// The markup of a list of nodes is that of its parts, one behind the other; the children of listed
/// nodes are those of each in turn.
pub proof fn forests_are_written_in_order(
    t: Seq<NodeView>,
    a: Seq<NodeId>,
    b: Seq<NodeId>,
    n: NodeId,
)
    ensures
        forest_markup(t, a + b) == forest_markup(t, a) + forest_markup(t, b),
        forest_markup(t, seq![n]) == markup::markup_of(t, n),
        flattened(t, a + b) == flattened(t, a) + flattened(t, b),
        flattened(t, seq![n]) == t[n.at()].children,
        forest_size(t, a + b) == forest_size(t, a) + forest_size(t, b),
        forest_size(t, seq![n]) == tree::subtree(t, n).len(),
    decreases b.len(),
{
    reveal_with_fuel(forest_markup, 2);
    reveal_with_fuel(flattened, 2);
    reveal_with_fuel(forest_size, 2);
    assert(seq![n].drop_last() =~= Seq::<NodeId>::empty());
    assert(seq![n].last() == n);
    assert(Seq::<char>::empty() + markup::markup_of(t, n) =~= markup::markup_of(t, n));
    assert(Seq::<NodeId>::empty() + t[n.at()].children =~= t[n.at()].children);
    if b.len() == 0 {
        assert(a + b =~= a);
        assert(forest_markup(t, a) + forest_markup(t, b) =~= forest_markup(t, a));
        assert(flattened(t, a) + flattened(t, b) =~= flattened(t, a));
    } else {
        forests_are_written_in_order(t, a, b.drop_last(), n);
        assert((a + b).drop_last() =~= a + b.drop_last());
        assert((a + b).last() == b.last());
        assert(forest_markup(t, a + b) =~= forest_markup(t, a) + forest_markup(t, b));
        assert(flattened(t, a + b) =~= flattened(t, a) + flattened(t, b));
    }
}

/// A shallow copy of an element has its tag and attributes, one of a text its text, and one of
/// anything else is an empty text.
pub proof fn shallow_copies_are_alike(k: KindView)
    ensures
        k is Element || k is Text <==> shallow_kind(k) == k,
        !(k is Element) ==> shallow_kind(k) is Text,
        !(k is Element) && !(k is Text) ==> shallow_kind(k)->Text_0.len() == 0,
        tree::attrs_of(shallow_kind(k)) == tree::attrs_of(k),
{
    if k is Document || k is Doctype || k is Comment {
        assert(shallow_kind(k) != k);
    }
}

/// A change is recorded at its target and by its kind; only one of an attribute tells a name, which is
/// the attribute's.
pub proof fn changes_are_recorded(target: NodeId, name: Seq<char>, o: ObserversView)
    ensures
        children_record(target).target == target,
        attribute_record(target, name).target == target,
        text_record(target).target == target,
        children_record(target).kind == MutationKind::ChildList,
        attribute_record(target, name).kind == MutationKind::Attributes,
        text_record(target).kind == MutationKind::CharacterData,
        attribute_record(target, name).attribute_name == Some(name),
        children_record(target).attribute_name is None,
        text_record(target).attribute_name is None,
        attribute_noted(None, target, name) is None,
        attribute_noted(Some(o), target, name) matches Some(u) && u.pending == o.pending.push(
            attribute_record(target, name),
        ),
{
}

/// A node can be put before a child of the parent, but neither before itself nor into what is below
/// it.
pub proof fn nodes_go_where_they_can(
    t: Seq<NodeView>,
    parent: NodeId,
    child: NodeId,
    before: NodeId,
)
    requires
        tree::wf(t),
        tree::has(t, parent),
        tree::has(t, child),
        tree::has(t, before),
    ensures
        !can_insert(t, parent, child, child),
        !can_insert(t, child, child, before),
        tree::within(t, child, parent) ==> !can_insert(t, parent, child, before),
        t[before.at()].parent != Some(parent) ==> !can_insert(t, parent, child, before),
        t[before.at()].parent == Some(parent) && child != before && !tree::within(t, child, parent)
            ==> can_insert(t, parent, child, before),
{
    assert(tree::within(t, child, child));
}

/// Elements, texts and documents take a text; the wrapping elements are known by their tag alone.
pub proof fn kinds_are_told_apart(k: KindView, tag: Seq<char>, attrs: Seq<(Seq<char>, Seq<char>)>)
    ensures
        takes_text(k) <==> !(k is Comment) && !(k is Doctype),
        is_html(KindView::Element { tag, attrs }) <==> tag == "html"@,
        is_head_or_body(KindView::Element { tag, attrs }) <==> tag == "head"@ || tag == "body"@,
        !(k is Element) ==> !is_html(k) && !is_head_or_body(k),
{
}

/// The text that a node was given is the text that is read from it.
pub proof fn set_text_is_read(t: Seq<NodeView>, id: NodeId, s: Seq<char>)
    requires
        tree::has(t, id),
        t.len() < u32::MAX,
        t[id.at()].kind is Element || t[id.at()].kind is Text || t[id.at()].kind is Document,
        tree::wf(tree::with_text(t, id, s)),
    ensures
        dom::text_of(tree::with_text(t, id, s), id) == s,
{
    lemma_text_is_read(t, id, s);
}

} // verus!
