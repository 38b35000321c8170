//! Dialogs and popovers: which are open, and what opens and closes them.
use crate::dom;
use crate::mutate;
use crate::observers;
use crate::observers::ObserverState;
use crate::pairs;
use crate::text;
use crate::tree;
use crate::tree::{Dom, KindView, NodeId, NodeKind, NodeView};
use std::collections::{HashMap, HashSet};
use vstd::prelude::*;
use vstd::string::*;

verus! {

broadcast use vstd::std_specs::hash::group_hash_axioms;

/// Opens a dialog, and records it.
pub fn dialog_show(dom: &mut Dom, slot: &mut Option<ObserverState>, id: NodeId)
    requires
        tree::wf(old(dom)@),
        tree::has(old(dom)@, id),
    ensures
        final(dom)@ == tree::with_attr(old(dom)@, id, "open"@, ""@),
        tree::wf(final(dom)@),
        observers::slot_view(*final(slot)) == mutate::attribute_noted(observers::slot_view(*old(slot)), id, "open"@),
        final(dom).touched() == (old(dom).touched() || old(dom)@[id.at()].kind is Element),
{
    dom.set_attribute(id, "open", text::copy(""));
    mutate::record_attribute(slot, id, "open");
}

/// Opens a dialog in front of its page, and records it.
pub fn dialog_show_modal(dom: &mut Dom, slot: &mut Option<ObserverState>, id: NodeId)
    requires
        tree::wf(old(dom)@),
        tree::has(old(dom)@, id),
    ensures
        final(dom)@ == tree::with_attr(
            tree::with_attr(old(dom)@, id, "open"@, ""@),
            id,
            "data-modal"@,
            "true"@,
        ),
        tree::wf(final(dom)@),
        observers::slot_view(*final(slot)) == mutate::attribute_noted(mutate::attribute_noted(observers::slot_view(*old(slot)), id, "open"@), id, "data-modal"@),
        final(dom).touched() == (old(dom).touched() || old(dom)@[id.at()].kind is Element),
{
    dom.set_attribute(id, "open", text::copy(""));
    mutate::record_attribute(slot, id, "open");
    dom.set_attribute(id, "data-modal", text::copy("true"));
    mutate::record_attribute(slot, id, "data-modal");
}

/// The document with a dialog closed.
pub open spec fn closed_dialog(t: Seq<NodeView>, id: NodeId) -> Seq<NodeView> {
    tree::without_attr(tree::without_attr(t, id, "open"@), id, "data-modal"@)
}

fn shut(dom: &mut Dom, slot: &mut Option<ObserverState>, id: NodeId)
    requires
        tree::wf(old(dom)@),
        tree::has(old(dom)@, id),
    ensures
        final(dom)@ == closed_dialog(old(dom)@, id),
        tree::wf(final(dom)@),
        observers::slot_view(*final(slot)) == mutate::attribute_noted(mutate::attribute_noted(observers::slot_view(*old(slot)), id, "open"@), id, "data-modal"@),
        final(dom).touched() == (old(dom).touched() || old(dom)@[id.at()].kind is Element),
{
    dom.remove_attribute(id, "open");
    mutate::record_attribute(slot, id, "open");
    dom.remove_attribute(id, "data-modal");
    mutate::record_attribute(slot, id, "data-modal");
}

/// The values that dialogs returned, under the numbers of these.
pub struct ReturnValues {
    values: HashMap<u32, String>,
}

impl View for ReturnValues {
    type V = Map<u32, Seq<char>>;

    closed spec fn view(&self) -> Map<u32, Seq<char>> {
        self.values@.map_values(|s: String| s@)
    }
}

impl ReturnValues {
    /// No values.
    pub fn new() -> (r: Self)
        ensures
            r@ == Map::<u32, Seq<char>>::empty(),
    {
        let r = ReturnValues { values: HashMap::new() };
        proof {
            assert(r@ =~= Map::empty());
        }
        r
    }

    /// The value of a dialog, empty where it returned none.
    pub fn dialog_get_return_value(&self, id: NodeId) -> (r: String)
        ensures
            r@ == (if self@.dom().contains(id.raw) {
                self@[id.raw]
            } else {
                Seq::empty()
            }),
    {
        match self.values.get(&id.raw) {
            Some(s) => text::copy(s),
            None => String::new(),
        }
    }

    /// Sets the value of a dialog.
    pub fn dialog_set_return_value(&mut self, id: NodeId, value: String)
        ensures
            final(self)@ == old(self)@.insert(id.raw, value@),
    {
        let ghost before = self@;
        let ghost v = value@;
        self.values.insert(id.raw, value);
        proof {
            assert(self@ =~= before.insert(id.raw, v));
        }
    }
}

/// Closes a dialog, with the value that it returns, and records it. Gives the type of the event
/// that is fired at the dialog once it is closed.
pub fn dialog_close(
    dom: &mut Dom,
    slot: &mut Option<ObserverState>,
    returned: &mut ReturnValues,
    id: NodeId,
    value: Option<String>,
) -> (r: String)
    requires
        tree::wf(old(dom)@),
        tree::has(old(dom)@, id),
    ensures
        final(dom)@ == closed_dialog(old(dom)@, id),
        tree::wf(final(dom)@),
        final(returned)@ == old(returned)@.insert(
            id.raw,
            match value {
                Some(v) => v@,
                None => ""@,
            },
        ),
        r@ == "close"@,
        observers::slot_view(*final(slot)) == mutate::attribute_noted(mutate::attribute_noted(observers::slot_view(*old(slot)), id, "open"@), id, "data-modal"@),
        final(dom).touched() == (old(dom).touched() || old(dom)@[id.at()].kind is Element),
{
    let v = match value {
        Some(v) => v,
        None => text::copy(""),
    };
    returned.dialog_set_return_value(id, v);
    shut(dom, slot, id);
    text::copy("close")
}

/// Whether a dialog is open.
pub fn dialog_get_open(dom: &Dom, id: NodeId) -> (r: bool)
    requires
        tree::has(dom@, id),
    ensures
        r == (pairs::value_ignoring_case(tree::attrs_of(dom@[id.at()].kind), "open"@) is Some),
{
    dom::read_attr(dom, id, "open").is_some()
}

/// Opens or closes a dialog, and records it.
pub fn dialog_set_open(
    dom: &mut Dom,
    slot: &mut Option<ObserverState>,
    id: NodeId,
    open: bool,
)
    requires
        tree::wf(old(dom)@),
        tree::has(old(dom)@, id),
    ensures
        final(dom)@ == (if open {
            tree::with_attr(old(dom)@, id, "open"@, ""@)
        } else {
            closed_dialog(old(dom)@, id)
        }),
        tree::wf(final(dom)@),
        observers::slot_view(*final(slot)) == (if open {
            mutate::attribute_noted(observers::slot_view(*old(slot)), id, "open"@)
        } else {
            mutate::attribute_noted(
                mutate::attribute_noted(observers::slot_view(*old(slot)), id, "open"@),
                id,
                "data-modal"@,
            )
        }),
        final(dom).touched() == (old(dom).touched() || old(dom)@[id.at()].kind is Element),
{
    if open {
        dialog_show(dom, slot, id);
    } else {
        shut(dom, slot, id);
    }
}

/// A dialog that was opened is open; one that was closed is not, unless another spelling of the
/// attribute is left.
pub proof fn shown_dialog_is_open(t: Seq<NodeView>, id: NodeId)
    requires
        tree::has(t, id),
        t[id.at()].kind is Element,
    ensures
        pairs::value_ignoring_case(
            tree::attrs_of(tree::with_attr(t, id, "open"@, ""@)[id.at()].kind),
            "open"@,
        ) is Some,
        pairs::value_of(tree::attrs_of(closed_dialog(t, id)[id.at()].kind), "open"@) is None,
{
    let attrs = tree::attrs_of(t[id.at()].kind);
    let k = "open"@;
    pairs::set_then_get(attrs, k, ""@, k);
    pairs::drop_then_get(attrs, k, k);
    let w = tree::attrs_of(tree::with_attr(t, id, k, ""@)[id.at()].kind);
    assert(w == pairs::with_value(attrs, k, ""@));
    pairs::lemma_position_holds(w, pairs::named(k));
    pairs::lemma_position_holds(w, pairs::named_ignoring_case(k));
    let i = pairs::position(w, pairs::named(k));
    assert(pairs::named_ignoring_case(k)(w[i]));
    pairs::drop_then_get(pairs::without(attrs, k), "data-modal"@, k);
    reveal_strlit("open");
    reveal_strlit("data-modal");
    assert("open"@.len() != "data-modal"@.len());
}

/// The popovers that are shown, by their numbers.
pub struct Popovers {
    open: HashSet<u32>,
}

impl View for Popovers {
    type V = Set<u32>;

    closed spec fn view(&self) -> Set<u32> {
        self.open@
    }
}

/// What showing or hiding a popover comes to: whether it is shown afterwards, where that
/// changes.
pub open spec fn toggled(open: Set<u32>, id: NodeId, wanted: Option<bool>) -> Option<bool> {
    let was = open.contains(id.raw);
    let want = match wanted {
        Some(b) => b,
        None => !was,
    };
    if want == was {
        None
    } else {
        Some(want)
    }
}

impl Popovers {
    /// None are shown.
    pub fn new() -> (r: Self)
        ensures
            r@ == Set::<u32>::empty(),
    {
        Popovers { open: HashSet::new() }
    }

    /// Whether a popover is shown.
    pub fn is_open(&self, id: NodeId) -> (r: bool)
        ensures
            r == self@.contains(id.raw),
    {
        self.open.contains(&id.raw)
    }

    /// What showing a popover, hiding it or turning it over comes to.
    pub fn plan_toggle(&self, id: NodeId, wanted: Option<bool>) -> (r: Option<bool>)
        ensures
            r == toggled(self@, id, wanted),
    {
        let was = self.open.contains(&id.raw);
        let want = match wanted {
            Some(b) => b,
            None => !was,
        };
        if want == was {
            None
        } else {
            Some(want)
        }
    }

    /// Notes that a popover is shown or is not, once its events were sent.
    pub fn settle(&mut self, id: NodeId, open: bool)
        ensures
            final(self)@ == (if open {
                old(self)@.insert(id.raw)
            } else {
                old(self)@.remove(id.raw)
            }),
            toggled(final(self)@, id, Some(open)) is None,
            forall|x: u32|
                x != id.raw ==> (#[trigger] final(self)@.contains(x) <==> old(self)@.contains(x)),
    {
        if open {
            self.open.insert(id.raw);
        } else {
            self.open.remove(&id.raw);
        }
    }

    /// Whether showing a popover changes anything: one that is shown already stays as it is, and
    /// no events are sent.
    pub fn element_show_popover(&self, id: NodeId) -> (r: bool)
        ensures
            r == (toggled(self@, id, Some(true)) == Some(true)),
            r == !self@.contains(id.raw),
    {
        !self.open.contains(&id.raw)
    }

    /// Whether hiding a popover changes anything: one that is not shown stays as it is, and no
    /// events are sent.
    pub fn element_hide_popover(&self, id: NodeId) -> (r: bool)
        ensures
            r == (toggled(self@, id, Some(false)) == Some(false)),
            r == self@.contains(id.raw),
    {
        self.open.contains(&id.raw)
    }

    /// Whether a popover is shown after it was to be turned over, with the wish of the caller.
    pub fn element_toggle_popover(&self, id: NodeId, force: Option<bool>) -> (r: bool)
        ensures
            r == match force {
                Some(b) => b,
                None => !self@.contains(id.raw),
            },
            r == match toggled(self@, id, force) {
                Some(b) => b,
                None => self@.contains(id.raw),
            },
    {
        match force {
            Some(b) => b,
            None => !self.open.contains(&id.raw),
        }
    }
}

/// Showing a popover and hiding it again leaves things as they were, and turning it over twice
/// does too.
pub proof fn toggling_twice_is_nothing(open: Set<u32>, id: NodeId)
    ensures
        !open.contains(id.raw) ==> toggled(open, id, None) == Some(true) && toggled(
            open.insert(id.raw),
            id,
            None,
        ) == Some(false) && open.insert(id.raw).remove(id.raw) == open,
        open.contains(id.raw) ==> toggled(open, id, None) == Some(false) && toggled(
            open.remove(id.raw),
            id,
            None,
        ) == Some(true) && open.remove(id.raw).insert(id.raw) == open,
        toggled(open.insert(id.raw), id, Some(true)) is None,
        toggled(open.remove(id.raw), id, Some(false)) is None,
{
    if open.contains(id.raw) {
        assert(open.remove(id.raw).insert(id.raw) =~= open);
    } else {
        assert(open.insert(id.raw).remove(id.raw) =~= open);
    }
}

/// An event of a popover: its name, and the states before and after.
pub struct ToggleEvent {
    pub name: String,
    pub old_state: String,
    pub new_state: String,
}

/// The plain values of an event.
pub open spec fn event_view(e: ToggleEvent) -> (Seq<char>, Seq<char>, Seq<char>) {
    (e.name@, e.old_state@, e.new_state@)
}

/// The name of a state of a popover.
pub open spec fn state_name(open: bool) -> Seq<char> {
    if open {
        "open"@
    } else {
        "closed"@
    }
}

fn state_text(open: bool) -> (r: String)
    ensures
        r@ == state_name(open),
{
    if open {
        text::copy("open")
    } else {
        text::copy("closed")
    }
}

/// The two events of a popover that comes to be shown or hidden, in order.
pub fn toggle_events(open: bool) -> (r: (ToggleEvent, ToggleEvent))
    ensures
        event_view(r.0) == ("beforetoggle"@, state_name(!open), state_name(open)),
        event_view(r.1) == ("toggle"@, state_name(!open), state_name(open)),
{
    (
        ToggleEvent {
            name: text::copy("beforetoggle"),
            old_state: state_text(!open),
            new_state: state_text(open),
        },
        ToggleEvent {
            name: text::copy("toggle"),
            old_state: state_text(!open),
            new_state: state_text(open),
        },
    )
}

/// How many nodes are at or below nodes.
pub open spec fn weight(t: Seq<NodeView>, queue: Seq<NodeId>) -> nat
    decreases queue.len(),
{
    if queue.len() == 0 {
        0
    } else {
        weight(t, queue.drop_last()) + tree::subtree(t, queue.last()).len()
    }
}

/// Whether all nodes of a list are in the document.
pub open spec fn all_there(t: Seq<NodeView>, queue: Seq<NodeId>) -> bool {
    forall|i: int| 0 <= i < queue.len() ==> tree::has(t, #[trigger] queue[i])
}

proof fn lemma_weight_concat(t: Seq<NodeView>, a: Seq<NodeId>, b: Seq<NodeId>)
    ensures
        weight(t, a + b) == weight(t, a) + weight(t, b),
    decreases b.len(),
{
    if b.len() == 0 {
        assert(a + b =~= a);
    } else {
        assert((a + b).drop_last() =~= a + b.drop_last());
        assert((a + b).last() == b.last());
        lemma_weight_concat(t, a, b.drop_last());
    }
}

proof fn lemma_weight_children(t: Seq<NodeView>, id: NodeId, n: int)
    requires
        tree::wf(t),
        tree::has(t, id),
        0 <= n <= t[id.at()].children.len(),
    ensures
        weight(t, t[id.at()].children.take(n)) == tree::subtrees_below(t, id, n).len(),
    decreases n,
{
    let kids = t[id.at()].children.take(n);
    if n > 0 {
        tree::lemma_child(t, id, n - 1);
        lemma_weight_children(t, id, n - 1);
        assert(kids.drop_last() =~= t[id.at()].children.take(n - 1));
        assert(kids.last() == t[id.at()].children[n - 1]);
    }
}

/// A queue once its first node was visited: the node's children come behind the rest.
pub open spec fn after_visit(t: Seq<NodeView>, queue: Seq<NodeId>) -> Seq<NodeId> {
    queue.skip(1) + t[queue[0].at()].children
}

proof fn lemma_after_visit(t: Seq<NodeView>, queue: Seq<NodeId>)
    requires
        tree::wf(t),
        all_there(t, queue),
        queue.len() > 0,
    ensures
        all_there(t, after_visit(t, queue)),
        weight(t, after_visit(t, queue)) + 1 == weight(t, queue),
{
    let id = queue[0];
    let kids = t[id.at()].children;
    assert forall|i: int| 0 <= i < after_visit(t, queue).len() implies tree::has(
        t,
        #[trigger] after_visit(t, queue)[i],
    ) by {
        if i >= queue.len() - 1 {
            tree::lemma_child(t, id, i - (queue.len() - 1));
        } else {
            assert(after_visit(t, queue)[i] == queue[i + 1]);
        }
    }
    lemma_weight_concat(t, queue.skip(1), kids);
    lemma_weight_children(t, id, kids.len() as int);
    assert(kids.take(kids.len() as int) =~= kids);
    assert(queue =~= seq![id] + queue.skip(1));
    lemma_weight_concat(t, seq![id], queue.skip(1));
    assert(seq![id].drop_last() =~= Seq::empty());
    assert(weight(t, seq![id]) == weight(t, Seq::empty()) + tree::subtree(t, id).len());
}

/// The nodes at and below nodes, those further up first.
pub open spec fn by_level(t: Seq<NodeView>, queue: Seq<NodeId>) -> Seq<NodeId>
    decreases weight(t, queue),
    when tree::wf(t) && all_there(t, queue)
    via by_level_decreases
{
    if queue.len() == 0 {
        Seq::empty()
    } else {
        seq![queue[0]] + by_level(t, after_visit(t, queue))
    }
}

#[via_fn]
proof fn by_level_decreases(t: Seq<NodeView>, queue: Seq<NodeId>) {
    if queue.len() > 0 {
        lemma_after_visit(t, queue);
    }
}

/// Whether an attribute is an `id`, in letters of any case, with the value.
pub open spec fn is_id(wanted: Seq<char>) -> spec_fn((Seq<char>, Seq<char>)) -> bool {
    |p: (Seq<char>, Seq<char>)| text::lower(p.0) == text::lower("id"@) && p.1 == wanted
}

/// Whether a node has the `id`.
pub open spec fn bears_id(t: Seq<NodeView>, wanted: Seq<char>) -> spec_fn(NodeId) -> bool {
    |n: NodeId|
        exists|i: int|
            0 <= i < tree::attrs_of(t[n.at()].kind).len() && is_id(wanted)(
                #[trigger] tree::attrs_of(t[n.at()].kind)[i],
            )
}

/// The node with an `id` that is found first, from the document down level by level.
pub open spec fn found_by_level(t: Seq<NodeView>, wanted: Seq<char>) -> Option<NodeId> {
    dom::first_of(by_level(t, seq![NodeId { raw: 0 }]), bears_id(t, wanted))
}

fn has_id(attrs: &Vec<(String, String)>, wanted: &str) -> (r: bool)
    ensures
        r == exists|i: int|
            0 <= i < attrs@.len() && is_id(wanted@)(#[trigger] text::pair_texts(attrs@)[i]),
{
    let ghost t = text::pair_texts(attrs@);
    let mut i: usize = 0;
    while i < attrs.len()
        invariant
            i <= attrs@.len(),
            t == text::pair_texts(attrs@),
            forall|j: int| 0 <= j < i ==> !is_id(wanted@)(#[trigger] t[j]),
        decreases attrs@.len() - i,
    {
        proof {
            assert(t[i as int] == (attrs@[i as int].0@, attrs@[i as int].1@));
        }
        if text::same_ignoring_case(&attrs[i].0, "id") && text::same(&attrs[i].1, wanted) {
            proof {
                assert(is_id(wanted@)(t[i as int]));
            }
            return true;
        }
        i = i + 1;
    }
    false
}

fn node_has_id(dom: &Dom, n: NodeId, wanted: &str) -> (r: bool)
    requires
        tree::has(dom@, n),
    ensures
        r == bears_id(dom@, wanted@)(n),
{
    match &dom.node(n).kind {
        NodeKind::Element { tag, attrs } => {
            proof {
                assert(tree::attrs_of(dom@[n.at()].kind) == text::pair_texts(attrs@));
            }
            has_id(attrs, wanted)
        },
        _ => false,
    }
}

proof fn lemma_first_of_rest(v: Seq<NodeId>, p: spec_fn(NodeId) -> bool)
    requires
        v.len() > 0,
        !p(v[0]),
    ensures
        dom::first_of(v, p) == dom::first_of(v.skip(1), p),
{
    pairs::lemma_position_holds(v.skip(1), p);
}

/// The node with an `id` that is found first, from the document down level by level.
pub fn find_by_id(dom: &Dom, wanted: &str) -> (r: Option<NodeId>)
    requires
        tree::wf(dom@),
    ensures
        r == found_by_level(dom@, wanted@),
{
    let ghost t = dom@;
    let ghost p = bears_id(t, wanted@);
    let mut queue: Vec<NodeId> = Vec::new();
    queue.push(dom.document());
    proof {
        assert(queue@ =~= seq![NodeId { raw: 0 }]);
    }
    while queue.len() > 0
        invariant
            t == dom@,
            tree::wf(t),
            p == bears_id(t, wanted@),
            all_there(t, queue@),
            dom::first_of(by_level(t, queue@), p) == found_by_level(t, wanted@),
        decreases weight(t, queue@),
    {
        let ghost before = queue@;
        let n: NodeId = queue.remove(0);
        proof {
            assert(queue@ =~= before.skip(1));
            lemma_after_visit(t, before);
        }
        if node_has_id(dom, n, wanted) {
            proof {
                assert(by_level(t, before)[0] == n);
            }
            return Some(n);
        }
        let mut kids = dom.children(n);
        queue.append(&mut kids);
        proof {
            assert(queue@ =~= after_visit(t, before));
            let v = by_level(t, before);
            assert(v[0] == n);
            assert(v.skip(1) =~= by_level(t, queue@));
            lemma_first_of_rest(v, p);
        }
    }
    None
}

/// What a click on a button that may be for a popover comes to.
#[derive(Clone, Copy, PartialEq, Eq, Structural, Debug)]
pub enum PopoverAction {
    NotInvoked,
    Unchanged,
    Change { target: NodeId, open: bool },
}

/// What the action of a button asks for.
pub open spec fn asked(action: Option<Seq<char>>) -> Option<bool> {
    match action {
        Some(a) => if text::lower(a) == "show"@ {
            Some(true)
        } else if text::lower(a) == "hide"@ {
            Some(false)
        } else {
            None
        },
        None => None,
    }
}

/// What a click on a button that may be for a popover comes to.
pub open spec fn action_of(t: Seq<NodeView>, open: Set<u32>, button: NodeId) -> PopoverAction {
    let attrs = tree::attrs_of(t[button.at()].kind);
    match pairs::value_ignoring_case(attrs, "popovertarget"@) {
        None => PopoverAction::NotInvoked,
        Some(name) => if name.len() == 0 {
            PopoverAction::NotInvoked
        } else {
            match found_by_level(t, name) {
                None => PopoverAction::NotInvoked,
                Some(target) => match toggled(
                    open,
                    target,
                    asked(pairs::value_ignoring_case(attrs, "popovertargetaction"@)),
                ) {
                    Some(b) => PopoverAction::Change { target, open: b },
                    None => PopoverAction::Unchanged,
                },
            }
        },
    }
}

/// What a click on a button that may be for a popover comes to.
pub fn try_invoke_popovertarget(dom: &Dom, popovers: &Popovers, button: NodeId) -> (r: PopoverAction)
    requires
        tree::wf(dom@),
        tree::has(dom@, button),
    ensures
        r == action_of(dom@, popovers@, button),
{
    let name = match dom::read_attr(dom, button, "popovertarget") {
        Some(n) => n,
        None => {
            return PopoverAction::NotInvoked;
        },
    };
    if name.as_str().is_empty() {
        return PopoverAction::NotInvoked;
    }
    let target = match find_by_id(dom, &name) {
        Some(n) => n,
        None => {
            return PopoverAction::NotInvoked;
        },
    };
    let wanted = match dom::read_attr(dom, button, "popovertargetaction") {
        Some(a) => {
            let low = text::lower_text(&a);
            if text::same(&low, "show") {
                Some(true)
            } else if text::same(&low, "hide") {
                Some(false)
            } else {
                None
            }
        },
        None => None,
    };
    match popovers.plan_toggle(target, wanted) {
        Some(b) => PopoverAction::Change { target, open: b },
        None => PopoverAction::Unchanged,
    }
}

/// Closing a dialog leaves all its other attributes and all other nodes as they were.
pub proof fn closing_keeps_the_rest(t: Seq<NodeView>, id: NodeId, name: Seq<char>, x: int)
    requires
        tree::has(t, id),
        t[id.at()].kind is Element,
        0 <= x < t.len(),
    ensures
        name != "open"@ && name != "data-modal"@ ==> pairs::value_of(
            tree::attrs_of(closed_dialog(t, id)[id.at()].kind),
            name,
        ) == pairs::value_of(tree::attrs_of(t[id.at()].kind), name),
        pairs::value_of(tree::attrs_of(closed_dialog(t, id)[id.at()].kind), "data-modal"@) is None,
        x != id.at() ==> closed_dialog(t, id)[x] == t[x],
{
    mutate::attributes_are_read_as_set(t, id, "open"@, name, name);
    let u = tree::without_attr(t, id, "open"@);
    mutate::attributes_are_read_as_set(u, id, "data-modal"@, name, name);
}

/// Going down level by level reaches every node at or below those that one begins with, and no other.
pub proof fn levels_reach_every_node(t: Seq<NodeView>, queue: Seq<NodeId>, n: NodeId)
    requires
        tree::wf(t),
        all_there(t, queue),
    ensures
        by_level(t, queue).contains(n) <==> exists|i: int|
            0 <= i < queue.len() && tree::within(t, #[trigger] queue[i], n),
    decreases weight(t, queue),
{
    if queue.len() > 0 {
        lemma_after_visit(t, queue);
        let top = queue[0];
        let kids = t[top.at()].children;
        let next = after_visit(t, queue);
        levels_reach_every_node(t, next, n);
        let v = by_level(t, next);
        let w = seq![top] + v;
        assert(by_level(t, queue) == w);
        if w.contains(n) {
            let k = w.index_of(n);
            if k > 0 {
                assert(v[k - 1] == n);
                assert(v.contains(n));
            } else {
                assert(tree::within(t, queue[0], n));
            }
        }
        if v.contains(n) {
            assert(w[v.index_of(n) + 1] == n);
            let i = choose|i: int| 0 <= i < next.len() && tree::within(t, #[trigger] next[i], n);
            if i < queue.len() - 1 {
                assert(next[i] == queue[i + 1]);
            } else {
                let k = i - (queue.len() - 1);
                assert(next[i] == kids[k]);
                assert(tree::within(t, top, n));
            }
        }
        if exists|i: int| 0 <= i < queue.len() && tree::within(t, #[trigger] queue[i], n) {
            let i = choose|i: int| 0 <= i < queue.len() && tree::within(t, #[trigger] queue[i], n);
            if i > 0 {
                assert(next[i - 1] == queue[i]);
            } else if top == n {
                assert(w[0] == n);
            } else {
                let k = choose|k: int| 0 <= k < kids.len() && tree::within(t, #[trigger] kids[k], n);
                assert(next[queue.len() - 1 + k] == kids[k]);
            }
        }
    }
}

/// A node with an id is found where the document has one, and what is found has the id.
pub proof fn targets_are_found_by_id(t: Seq<NodeView>, wanted: Seq<char>, n: NodeId)
    requires
        tree::wf(t),
    ensures
        found_by_level(t, wanted) == Some(n) ==> bears_id(t, wanted)(n) && tree::within(
            t,
            NodeId { raw: 0 },
            n,
        ),
        found_by_level(t, wanted) is None && tree::within(t, NodeId { raw: 0 }, n) ==> !bears_id(
            t,
            wanted,
        )(n),
        tree::attrs_of(t[n.at()].kind).contains(("id"@, wanted)) ==> bears_id(t, wanted)(n),
{
    let q = seq![NodeId { raw: 0 }];
    let v = by_level(t, q);
    levels_reach_every_node(t, q, n);
    dom::first_is_found(v, bears_id(t, wanted), n);
    assert(q[0] == NodeId { raw: 0 });
    if tree::within(t, NodeId { raw: 0 }, n) {
        assert(tree::within(t, q[0], n));
        assert(v[v.index_of(n)] == n);
    }
    if tree::attrs_of(t[n.at()].kind).contains(("id"@, wanted)) {
        let a = tree::attrs_of(t[n.at()].kind);
        let i = a.index_of(("id"@, wanted));
        assert(is_id(wanted)(a[i]));
    }
}

/// A button without a target, or whose target is not there, does nothing. One that shows or hides does
/// so where that changes anything, and any other turns its target over, whatever it is.
pub proof fn buttons_turn_their_target(
    t: Seq<NodeView>,
    open: Set<u32>,
    button: NodeId,
    name: Seq<char>,
    target: NodeId,
)
    requires
        pairs::value_ignoring_case(tree::attrs_of(t[button.at()].kind), "popovertarget"@) == Some(
            name,
        ),
        name.len() > 0,
    ensures
        found_by_level(t, name) is None ==> action_of(t, open, button) == PopoverAction::NotInvoked,
        found_by_level(t, name) == Some(target) ==> {
            let act = pairs::value_ignoring_case(
                tree::attrs_of(t[button.at()].kind),
                "popovertargetaction"@,
            );
            let shown = open.contains(target.raw);
            &&& act is None ==> action_of(t, open, button) == (PopoverAction::Change {
                target,
                open: !shown,
            })
            &&& act matches Some(a) ==> (text::lower(a) == "show"@ ==> action_of(t, open, button)
                == (if shown {
                PopoverAction::Unchanged
            } else {
                PopoverAction::Change { target, open: true }
            }))
            &&& act matches Some(a) ==> (text::lower(a) == "hide"@ ==> action_of(t, open, button)
                == (if shown {
                PopoverAction::Change { target, open: false }
            } else {
                PopoverAction::Unchanged
            }))
            &&& act matches Some(a) ==> (text::lower(a) == "toggle"@ ==> action_of(t, open, button)
                == (PopoverAction::Change { target, open: !shown }))
        },
{
    reveal_strlit("show");
    reveal_strlit("hide");
    reveal_strlit("toggle");
    assert("show"@[0] == 's' && "hide"@[0] == 'h' && "toggle"@[0] == 't');
}

/// A button with an empty target is not for a popover, nor is one without any.
pub proof fn buttons_need_a_target(t: Seq<NodeView>, open: Set<u32>, button: NodeId)
    requires
        pairs::value_ignoring_case(tree::attrs_of(t[button.at()].kind), "popovertarget"@) matches Some(
            name,
        ) ==> name.len() == 0,
    ensures
        action_of(t, open, button) == PopoverAction::NotInvoked,
{
}

/// The two states of a popover have different names.
pub proof fn states_have_their_names(open: bool)
    ensures
        state_name(open) == "open"@ <==> open,
        state_name(open) == "closed"@ <==> !open,
{
    reveal_strlit("open");
    reveal_strlit("closed");
    assert("open"@.len() != "closed"@.len());
}

} // verus!
