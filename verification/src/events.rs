//! Events: who listens, in which order handlers are called, and what an event shows.
use crate::engine::DispatchResult;
use crate::text;
use crate::tree;
use crate::tree::{Dom, KindView, NodeId, NodeKind, NodeView};
use vstd::prelude::*;
use vstd::string::*;

verus! {

/// A handler of an event of a node.
pub struct Listener<C> {
    pub node: NodeId,
    pub event_type: String,
    pub callback: C,
}

/// The handlers of a page, in the order in which they were added.
pub struct Listeners<C> {
    pub all: Vec<Listener<C>>,
}

/// Whether a handler is one for the event of the node.
pub open spec fn listens<C>(node: NodeId, event_type: Seq<char>) -> spec_fn(Listener<C>) -> bool {
    |l: Listener<C>| l.node == node && l.event_type@ == event_type
}

/// The callbacks of handlers, with the node.
pub open spec fn calls_of<C>(v: Seq<Listener<C>>, node: NodeId) -> Seq<(NodeId, C)> {
    v.map_values(|l: Listener<C>| (node, l.callback))
}

/// The calls for an event at a node, in the order in which the handlers were added.
pub open spec fn calls_at<C>(all: Seq<Listener<C>>, node: NodeId, event_type: Seq<char>) -> Seq<
    (NodeId, C),
> {
    calls_of(all.filter(listens(node, event_type)), node)
}

/// The calls for an event at nodes, one node after the other.
pub open spec fn calls_along<C>(
    all: Seq<Listener<C>>,
    chain: Seq<NodeId>,
    event_type: Seq<char>,
) -> Seq<(NodeId, C)>
    decreases chain.len(),
{
    if chain.len() == 0 {
        Seq::empty()
    } else {
        calls_at(all, chain[0], event_type) + calls_along(all, chain.skip(1), event_type)
    }
}

impl<C: Copy> Listeners<C> {
    /// No handlers.
    pub fn new() -> (r: Self)
        ensures
            r.all@.len() == 0,
    {
        Listeners { all: Vec::new() }
    }

    /// Adds a handler behind those that are there.
    pub fn element_add_event_listener(&mut self, node: NodeId, event_type: String, callback: C)
        ensures
            final(self).all@ == old(self).all@.push(Listener { node, event_type, callback }),
    {
        self.all.push(Listener { node, event_type, callback });
    }

    /// The handlers of an event at a node.
    pub fn handlers(&self, node: NodeId, event_type: &str) -> (r: Vec<C>)
        ensures
            r@.map_values(|c: C| (node, c)) == calls_at(self.all@, node, event_type@),
    {
        let ghost keep = listens::<C>(node, event_type@);
        let ghost pair = |c: C| (node, c);
        let mut out: Vec<C> = Vec::new();
        let mut i: usize = 0;
        proof {
            reveal(Seq::filter);
            assert(out@.map_values(pair) =~= calls_of(self.all@.take(0).filter(keep), node));
        }
        while i < self.all.len()
            invariant
                i <= self.all@.len(),
                keep == listens::<C>(node, event_type@),
                pair == (|c: C| (node, c)),
                out@.map_values(pair) == calls_of(self.all@.take(i as int).filter(keep), node),
            decreases self.all@.len() - i,
        {
            let ghost done = self.all@.take(i as int).filter(keep);
            let ghost prev = out@;
            proof {
                reveal(Seq::filter);
                assert(self.all@.take(i + 1).drop_last() =~= self.all@.take(i as int));
                assert(self.all@.take(i + 1).last() == self.all@[i as int]);
            }
            if self.all[i].node == node && text::same(&self.all[i].event_type, event_type) {
                let c: C = self.all[i].callback;
                out.push(c);
                proof {
                    assert(out@.map_values(pair) =~= prev.map_values(pair).push((node, c)));
                    assert(calls_of(done.push(self.all@[i as int]), node) =~= calls_of(
                        done,
                        node,
                    ).push((node, c)));
                }
            }
            i = i + 1;
        }
        proof {
            assert(self.all@.take(self.all@.len() as int) =~= self.all@);
        }
        out
    }
}

/// The elements from a node up.
pub open spec fn elements_up(t: Seq<NodeView>, id: NodeId) -> Seq<NodeId>
    decreases tree::top_rank(t) - tree::rank(t, id),
    when tree::wf(t) && tree::has(t, id)
    via elements_up_decreases
{
    let here = if t[id.at()].kind is Element {
        seq![id]
    } else {
        Seq::empty()
    };
    match t[id.at()].parent {
        Some(p) => here + elements_up(t, p),
        None => here,
    }
}

#[via_fn]
proof fn elements_up_decreases(t: Seq<NodeView>, id: NodeId) {
    if t[id.at()].parent is Some {
        tree::lemma_parent(t, id);
        tree::lemma_top_rank(t, t[id.at()].parent->0);
    }
}

/// The nodes that an event at an element comes to: the element and, where it bubbles, the
/// elements above it. It comes to none where its target is no element.
pub open spec fn chain_of(t: Seq<NodeView>, target: NodeId, bubbles: bool) -> Seq<NodeId> {
    if !(t[target.at()].kind is Element) {
        Seq::empty()
    } else if bubbles {
        elements_up(t, target)
    } else {
        seq![target]
    }
}

fn is_element(dom: &Dom, id: NodeId) -> (r: bool)
    requires
        tree::has(dom@, id),
    ensures
        r == (dom@[id.at()].kind is Element),
{
    match &dom.node(id).kind {
        NodeKind::Element { .. } => true,
        _ => false,
    }
}

/// The nodes that an event at an element comes to as it bubbles.
pub fn bubble_chain(dom: &Dom, target: NodeId) -> (r: Vec<NodeId>)
    requires
        tree::wf(dom@),
        tree::has(dom@, target),
    ensures
        r@ == chain_of(dom@, target, true),
{
    let ghost t = dom@;
    let mut chain: Vec<NodeId> = Vec::new();
    if !is_element(dom, target) {
        return chain;
    }
    let mut cur: Option<NodeId> = Some(target);
    let ghost goal = elements_up(t, target);
    proof {
        assert(chain@ + elements_up(t, target) =~= goal);
    }
    while cur.is_some()
        invariant
            t == dom@,
            tree::wf(t),
            cur matches Some(n) ==> tree::has(t, n),
            match cur {
                Some(n) => chain@ + elements_up(t, n) == goal,
                None => chain@ == goal,
            },
        decreases
                match cur {
                    Some(n) => 1 + tree::top_rank(t) - tree::rank(t, n),
                    None => 0,
                },
    {
        let n: NodeId = cur.unwrap();
        let ghost prev = chain@;
        if is_element(dom, n) {
            chain.push(n);
        }
        let up = dom.node(n).parent;
        proof {
            tree::lemma_top_rank(t, n);
            if up is Some {
                tree::lemma_parent(t, n);
                tree::lemma_top_rank(t, up->0);
            }
            match up {
                Some(p) => {
                    assert(chain@ + elements_up(t, p) =~= prev + elements_up(t, n));
                },
                None => {
                    assert(chain@ =~= prev + elements_up(t, n));
                },
            }
        }
        cur = up;
    }
    chain
}

/// What handlers asked of an event.
#[derive(Clone, Copy, PartialEq, Eq, Structural, Debug)]
pub struct EventFlags {
    pub default_prevented: bool,
    pub propagation_stopped: bool,
}

/// An event on its way: the nodes that it still comes to, and the calls that are left at the
/// node where it is.
pub struct Dispatch<C> {
    pub event_type: String,
    pub chain: Vec<NodeId>,
    pub at: usize,
    pub node: NodeId,
    pub queue: Vec<C>,
    pub taken: usize,
    pub flags: EventFlags,
}

impl<C: Copy> Dispatch<C> {
    /// Its places are within its lists.
    pub open spec fn wf(&self) -> bool {
        self.at <= self.chain@.len() && self.taken <= self.queue@.len()
    }

    /// Whether this is what follows a dispatch once its next call was taken: the next of the calls
    /// that were left at its node or, where none was, the first at the next node of its chain that
    /// has handlers, which are noted when the event comes to that node.
    pub open spec fn comes_after(&self, before: Dispatch<C>, all: Seq<Listener<C>>) -> bool {
        if before.taken < before.queue@.len() {
            &&& self.at == before.at
            &&& self.node == before.node
            &&& self.queue@ == before.queue@
            &&& self.taken == before.taken + 1
        } else {
            let node = self.node;
            &&& before.at < self.at
            &&& node == self.chain@[self.at - 1]
            &&& self.queue@.map_values(|c: C| (node, c)) == calls_at(all, node, self.event_type@)
            &&& self.taken == 1
            &&& forall|k: int|
                before.at <= k < self.at - 1 ==> calls_at(
                    all,
                    #[trigger] self.chain@[k],
                    self.event_type@,
                ).len() == 0
        }
    }

    /// The calls that are left while handlers neither change nor stop it.
    pub open spec fn calls_left(&self, all: Seq<Listener<C>>) -> Seq<(NodeId, C)> {
        let node = self.node;
        self.queue@.skip(self.taken as int).map_values(|c: C| (node, c)) + calls_along(
            all,
            self.chain@.skip(self.at as int),
            self.event_type@,
        )
    }

    /// An event at a node, before the first call. The document is marked as unchanged.
    pub fn begin(dom: &mut Dom, event_type: String, target: NodeId, bubbles: bool) -> (r: Self)
        requires
            tree::wf(old(dom)@),
            tree::has(old(dom)@, target),
        ensures
            final(dom)@ == old(dom)@,
            !final(dom).touched(),
            r.wf(),
            r.event_type@ == event_type@,
            r.chain@ == chain_of(old(dom)@, target, bubbles),
            r.at == 0,
            r.queue@.len() == 0,
            r.taken == 0,
            r.flags == (EventFlags { default_prevented: false, propagation_stopped: false }),
            forall|all: Seq<Listener<C>>|
                #[trigger] r.calls_left(all) == calls_along(
                    all,
                    chain_of(old(dom)@, target, bubbles),
                    event_type@,
                ),
    {
        dom.mark_unchanged();
        let chain = if bubbles {
            bubble_chain(dom, target)
        } else if is_element(dom, target) {
            let mut one: Vec<NodeId> = Vec::new();
            one.push(target);
            one
        } else {
            Vec::new()
        };
        proof {
            assert(chain@ =~= chain_of(dom@, target, bubbles));
            assert(chain@.skip(0) =~= chain@);
        }
        let r = Dispatch {
            event_type,
            chain,
            at: 0,
            node: target,
            queue: Vec::new(),
            taken: 0,
            flags: EventFlags { default_prevented: false, propagation_stopped: false },
        };
        proof {
            assert forall|all: Seq<Listener<C>>| #[trigger]
                r.calls_left(all) == calls_along(
                    all,
                    chain_of(dom@, target, bubbles),
                    event_type@,
                ) by {
                assert(r.calls_left(all) =~= calls_along(
                    all,
                    chain_of(dom@, target, bubbles),
                    event_type@,
                ));
            }
        }
        r
    }

    /// The next call, with the node that it is made for; none where a handler stopped the event
    /// or no call is left. The handlers of a node are those that it has when the event comes to
    /// it.
    pub fn next_call(&mut self, listeners: &Listeners<C>) -> (r: Option<(NodeId, C)>)
        requires
            old(self).wf(),
        ensures
            final(self).wf(),
            final(self).flags == old(self).flags,
            final(self).event_type@ == old(self).event_type@,
            final(self).chain@ == old(self).chain@,
            old(self).flags.propagation_stopped ==> r is None && *final(self) == *old(self),
            !old(self).flags.propagation_stopped ==> match r {
                Some(call) => {
                    &&& final(self).comes_after(*old(self), listeners.all@)
                    &&& call == (final(self).node, final(self).queue@[final(self).taken - 1])
                    &&& old(self).calls_left(listeners.all@) == seq![call]
                        + final(self).calls_left(listeners.all@)
                },
                None => {
                    &&& old(self).calls_left(listeners.all@).len() == 0
                    &&& final(self).at == final(self).chain@.len()
                    &&& final(self).taken == final(self).queue@.len()
                },
            },
    {
        if self.flags.propagation_stopped {
            return None;
        }
        let ghost all = listeners.all@;
        let ghost goal = self.calls_left(all);
        while self.taken >= self.queue.len() && self.at < self.chain.len()
            invariant
                self.wf(),
                all == listeners.all@,
                self.calls_left(all) == goal,
                self.flags == old(self).flags,
                self.event_type@ == old(self).event_type@,
                self.chain@ == old(self).chain@,
                old(self).at <= self.at,
                self.at == old(self).at ==> self.queue@ == old(self).queue@ && self.taken
                    == old(self).taken && self.node == old(self).node,
                old(self).taken < old(self).queue@.len() ==> self.at == old(self).at,
                self.at > old(self).at ==> self.taken == 0 && self.node == self.chain@[self.at - 1]
                    && ({
                    let node = self.node;
                    self.queue@.map_values(|c: C| (node, c)) == calls_at(
                        all,
                        node,
                        self.event_type@,
                    )
                }),
                forall|k: int|
                    old(self).at <= k < self.at - 1 ==> calls_at(
                        all,
                        #[trigger] self.chain@[k],
                        self.event_type@,
                    ).len() == 0,
            decreases self.chain@.len() - self.at,
        {
            let ghost before = self.chain@.skip(self.at as int);
            let n: NodeId = self.chain[self.at];
            let handlers = listeners.handlers(n, &self.event_type);
            proof {
                assert(before[0] == n);
                assert(before.skip(1) =~= self.chain@.skip(self.at + 1));
                assert(self.queue@.skip(self.taken as int).len() == 0);
                assert(handlers@.skip(0) =~= handlers@);
            }
            self.node = n;
            self.queue = handlers;
            self.taken = 0;
            self.at = self.at + 1;
            proof {
                assert(self.calls_left(all) =~= goal);
            }
        }
        if self.taken < self.queue.len() {
            let c: C = self.queue[self.taken];
            let ghost node = self.node;
            let ghost before = self.queue@.skip(self.taken as int);
            self.taken = self.taken + 1;
            proof {
                assert(before.skip(1) =~= self.queue@.skip(self.taken as int));
                assert(before[0] == c);
                assert(goal =~= seq![(node, c)] + self.calls_left(all));
            }
            Some((self.node, c))
        } else {
            proof {
                assert(self.chain@.skip(self.at as int).len() == 0);
                assert(goal.len() == 0);
            }
            None
        }
    }

    /// Notes that a handler prevented what an event does by default.
    pub fn event_prevent_default(&mut self)
        ensures
            *final(self) == (Dispatch {
                flags: EventFlags { default_prevented: true, ..old(self).flags },
                ..*old(self)
            }),
    {
        self.flags.default_prevented = true;
    }

    /// Notes that a handler stopped an event.
    pub fn event_stop_propagation(&mut self)
        ensures
            *final(self) == (Dispatch {
                flags: EventFlags { propagation_stopped: true, ..old(self).flags },
                ..*old(self)
            }),
    {
        self.flags.propagation_stopped = true;
    }

    /// What an event came to, with the document as the handlers left it: whether one of them
    /// prevented what it does by default, and whether the document was changed since it began.
    pub fn result(&self, dom: &Dom) -> (r: DispatchResult)
        ensures
            r == (DispatchResult {
                default_prevented: self.flags.default_prevented,
                mutated: dom.touched(),
            }),
    {
        DispatchResult {
            default_prevented: self.flags.default_prevented,
            mutated: dom.is_touched(),
        }
    }
}

proof fn lemma_calls_prefix<C>(all: Seq<Listener<C>>, a: Seq<NodeId>, b: Seq<NodeId>, ty: Seq<char>)
    ensures
        calls_along(all, a + b, ty) == calls_along(all, a, ty) + calls_along(all, b, ty),
    decreases a.len(),
{
    if a.len() == 0 {
        assert(a + b =~= b);
        assert(calls_along(all, a, ty) + calls_along(all, b, ty) =~= calls_along(all, b, ty));
    } else {
        assert((a + b).skip(1) =~= a.skip(1) + b);
        lemma_calls_prefix(all, a.skip(1), b, ty);
        assert(calls_along(all, a + b, ty) =~= calls_along(all, a, ty) + calls_along(all, b, ty));
    }
}

/// An event comes to its target first, and then to what is above it: the calls of a bubbling
/// event are those of the event that does not bubble, followed by those of the nodes above.
pub proof fn target_is_called_first<C>(
    t: Seq<NodeView>,
    all: Seq<Listener<C>>,
    target: NodeId,
    ty: Seq<char>,
)
    requires
        tree::wf(t),
        tree::has(t, target),
        t[target.at()].kind is Element,
    ensures
        chain_of(t, target, true).len() > 0,
        chain_of(t, target, true)[0] == target,
        calls_along(all, chain_of(t, target, true), ty) == calls_along(
            all,
            chain_of(t, target, false),
            ty,
        ) + calls_along(all, chain_of(t, target, true).skip(1), ty),
{
    let up = chain_of(t, target, true);
    assert(up[0] == target);
    assert(up =~= seq![target] + up.skip(1));
    lemma_calls_prefix(all, seq![target], up.skip(1), ty);
}

/// What an event brings along; coordinates are of any type.
pub struct EventInit<N> {
    pub bubbles: bool,
    pub client_x: Option<N>,
    pub client_y: Option<N>,
    pub key: Option<String>,
    pub code: Option<String>,
    pub ctrl: bool,
    pub shift: bool,
    pub alt: bool,
    pub meta: bool,
    pub input_data: Option<String>,
}

impl<N> EventInit<N> {
    /// An event that bubbles and brings nothing.
    pub fn bubbling() -> (r: Self)
        ensures
            r == (EventInit::<N> {
                bubbles: true,
                client_x: None,
                client_y: None,
                key: None,
                code: None,
                ctrl: false,
                shift: false,
                alt: false,
                meta: false,
                input_data: None,
            }),
    {
        EventInit {
            bubbles: true,
            client_x: None,
            client_y: None,
            key: None,
            code: None,
            ctrl: false,
            shift: false,
            alt: false,
            meta: false,
            input_data: None,
        }
    }

    /// An event that stays at its target and brings nothing.
    pub fn non_bubbling() -> (r: Self)
        ensures
            r == (EventInit::<N> {
                bubbles: false,
                client_x: None,
                client_y: None,
                key: None,
                code: None,
                ctrl: false,
                shift: false,
                alt: false,
                meta: false,
                input_data: None,
            }),
    {
        EventInit {
            bubbles: false,
            client_x: None,
            client_y: None,
            key: None,
            code: None,
            ctrl: false,
            shift: false,
            alt: false,
            meta: false,
            input_data: None,
        }
    }
}

/// What a property of an event holds.
pub enum EventValue<N> {
    Text(String),
    Flag(bool),
    Coordinate(N),
    TargetHandle,
    PreventDefault,
    StopPropagation,
}

/// What a property of an event holds, over plain values.
pub enum EventValueView<N> {
    Text(Seq<char>),
    Flag(bool),
    Coordinate(N),
    TargetHandle,
    PreventDefault,
    StopPropagation,
}

impl<N> View for EventValue<N> {
    type V = EventValueView<N>;

    open spec fn view(&self) -> EventValueView<N> {
        match self {
            EventValue::Text(s) => EventValueView::Text(s@),
            EventValue::Flag(b) => EventValueView::Flag(*b),
            EventValue::Coordinate(n) => EventValueView::Coordinate(*n),
            EventValue::TargetHandle => EventValueView::TargetHandle,
            EventValue::PreventDefault => EventValueView::PreventDefault,
            EventValue::StopPropagation => EventValueView::StopPropagation,
        }
    }
}

/// The plain values of properties.
pub open spec fn props_view<N>(v: Seq<(String, EventValue<N>)>) -> Seq<
    (Seq<char>, EventValueView<N>),
> {
    v.map_values(|p: (String, EventValue<N>)| (p.0@, p.1@))
}

/// The properties that every event has.
pub open spec fn common_properties<N>(ty: Seq<char>, bubbles: bool) -> Seq<
    (Seq<char>, EventValueView<N>),
> {
    seq![
        ("type"@, EventValueView::Text(ty)),
        ("target"@, EventValueView::TargetHandle),
        ("currentTarget"@, EventValueView::TargetHandle),
        ("bubbles"@, EventValueView::Flag(bubbles)),
        ("preventDefault"@, EventValueView::PreventDefault),
        ("stopPropagation"@, EventValueView::StopPropagation),
    ]
}

/// The properties of an event of the mouse: only where both coordinates are there.
pub open spec fn mouse_properties<N>(x: Option<N>, y: Option<N>) -> Seq<
    (Seq<char>, EventValueView<N>),
> {
    match (x, y) {
        (Some(x), Some(y)) => seq![
            ("clientX"@, EventValueView::Coordinate(x)),
            ("clientY"@, EventValueView::Coordinate(y)),
            ("pageX"@, EventValueView::Coordinate(x)),
            ("pageY"@, EventValueView::Coordinate(y)),
        ],
        _ => Seq::empty(),
    }
}

/// A property that holds a text, where there is one.
pub open spec fn text_property<N>(name: Seq<char>, s: Option<String>) -> Seq<
    (Seq<char>, EventValueView<N>),
> {
    match s {
        Some(t) => seq![(name, EventValueView::Text(t@))],
        None => Seq::empty(),
    }
}

/// The keys that were held: only where the event names a key.
pub open spec fn modifier_properties<N>(init: EventInit<N>) -> Seq<(Seq<char>, EventValueView<N>)> {
    if init.key is Some || init.code is Some {
        seq![
            ("ctrlKey"@, EventValueView::Flag(init.ctrl)),
            ("shiftKey"@, EventValueView::Flag(init.shift)),
            ("altKey"@, EventValueView::Flag(init.alt)),
            ("metaKey"@, EventValueView::Flag(init.meta)),
        ]
    } else {
        Seq::empty()
    }
}

/// The properties of an event, in order.
pub open spec fn event_properties_of<N>(ty: Seq<char>, init: EventInit<N>) -> Seq<
    (Seq<char>, EventValueView<N>),
> {
    common_properties(ty, init.bubbles) + mouse_properties(init.client_x, init.client_y)
        + text_property("key"@, init.key) + text_property("code"@, init.code)
        + modifier_properties(init) + text_property("data"@, init.input_data)
}

fn add_property<N>(out: &mut Vec<(String, EventValue<N>)>, name: &str, value: EventValue<N>)
    ensures
        props_view(final(out)@) == props_view(old(out)@).push((name@, value@)),
{
    let ghost before = out@;
    let ghost v = value@;
    out.push((text::copy(name), value));
    proof {
        assert(props_view(out@) =~= props_view(before).push((name@, v)));
    }
}

fn add_text<N>(out: &mut Vec<(String, EventValue<N>)>, name: &str, value: &Option<String>)
    ensures
        props_view(final(out)@) == props_view(old(out)@) + text_property(name@, *value),
{
    let ghost before = props_view(out@);
    match value {
        Some(t) => {
            add_property(out, name, EventValue::Text(text::copy(t)));
        },
        None => {},
    }
    proof {
        assert(props_view(out@) =~= before + text_property(name@, *value));
    }
}

fn add_common<N>(out: &mut Vec<(String, EventValue<N>)>, event_type: &str, bubbles: bool)
    ensures
        props_view(final(out)@) == props_view(old(out)@) + common_properties(event_type@, bubbles),
{
    let ghost before = props_view(out@);
    add_property(out, "type", EventValue::Text(text::copy(event_type)));
    add_property(out, "target", EventValue::TargetHandle);
    add_property(out, "currentTarget", EventValue::TargetHandle);
    add_property(out, "bubbles", EventValue::Flag(bubbles));
    add_property(out, "preventDefault", EventValue::PreventDefault);
    add_property(out, "stopPropagation", EventValue::StopPropagation);
    proof {
        assert(props_view(out@) =~= before + common_properties(event_type@, bubbles));
    }
}

fn add_mouse<N: Copy>(out: &mut Vec<(String, EventValue<N>)>, x: Option<N>, y: Option<N>)
    ensures
        props_view(final(out)@) == props_view(old(out)@) + mouse_properties(x, y),
{
    let ghost before = props_view(out@);
    match (x, y) {
        (Some(x), Some(y)) => {
            add_property(out, "clientX", EventValue::Coordinate(x));
            add_property(out, "clientY", EventValue::Coordinate(y));
            add_property(out, "pageX", EventValue::Coordinate(x));
            add_property(out, "pageY", EventValue::Coordinate(y));
        },
        _ => {},
    }
    proof {
        assert(props_view(out@) =~= before + mouse_properties(x, y));
    }
}

fn add_modifiers<N>(out: &mut Vec<(String, EventValue<N>)>, init: &EventInit<N>)
    ensures
        props_view(final(out)@) == props_view(old(out)@) + modifier_properties(*init),
{
    let ghost before = props_view(out@);
    if init.key.is_some() || init.code.is_some() {
        add_property(out, "ctrlKey", EventValue::Flag(init.ctrl));
        add_property(out, "shiftKey", EventValue::Flag(init.shift));
        add_property(out, "altKey", EventValue::Flag(init.alt));
        add_property(out, "metaKey", EventValue::Flag(init.meta));
    }
    proof {
        assert(props_view(out@) =~= before + modifier_properties(*init));
    }
}

/// The properties of an event, in order.
pub fn build_event_object_with<N: Copy>(event_type: &str, init: &EventInit<N>) -> (r: Vec<
    (String, EventValue<N>),
>)
    ensures
        props_view(r@) == event_properties_of(event_type@, *init),
{
    let mut out: Vec<(String, EventValue<N>)> = Vec::new();
    proof {
        assert(props_view(out@) =~= Seq::empty());
        assert(Seq::empty() + common_properties::<N>(event_type@, init.bubbles)
            =~= common_properties::<N>(event_type@, init.bubbles));
    }
    add_common(&mut out, event_type, init.bubbles);
    add_mouse(&mut out, init.client_x, init.client_y);
    add_text(&mut out, "key", &init.key);
    add_text(&mut out, "code", &init.code);
    add_modifiers(&mut out, init);
    add_text(&mut out, "data", &init.input_data);
    out
}

proof fn lemma_elements_up(t: Seq<NodeView>, id: NodeId)
    requires
        tree::wf(t),
        tree::has(t, id),
    ensures
        forall|n: NodeId| #[trigger]
            elements_up(t, id).contains(n) <==> tree::has(t, n) && t[n.at()].kind is Element
                && tree::within(t, n, id),
        elements_up(t, id).no_duplicates(),
        forall|i: int, j: int|
            #![trigger elements_up(t, id)[i], elements_up(t, id)[j]]
            0 <= i < j < elements_up(t, id).len() ==> tree::within(
                t,
                elements_up(t, id)[j],
                elements_up(t, id)[i],
            ),
    decreases tree::top_rank(t) - tree::rank(t, id),
{
    let up = elements_up(t, id);
    tree::lemma_top_rank(t, id);
    assert(tree::within(t, id, id));
    match t[id.at()].parent {
        None => {
            assert forall|n: NodeId| #[trigger]
                up.contains(n) <==> tree::has(t, n) && t[n.at()].kind is Element && tree::within(
                    t,
                    n,
                    id,
                ) by {
                if tree::has(t, n) && tree::within(t, n, id) && n != id {
                    tree::lemma_within_up(t, n, id);
                }
                if n == id && t[id.at()].kind is Element {
                    assert(up[0] == id);
                }
            }
        },
        Some(p) => {
            tree::lemma_parent(t, id);
            tree::lemma_top_rank(t, p);
            lemma_elements_up(t, p);
            let rest = elements_up(t, p);
            let k = if t[id.at()].kind is Element {
                1int
            } else {
                0int
            };
            assert(forall|i: int| 0 <= i < rest.len() ==> up[i + k] == rest[i]);
            assert forall|i: int| 0 <= i < rest.len() implies tree::has(t, #[trigger] rest[i])
                && rest[i] != id && tree::within(t, rest[i], id) by {
                assert(rest.contains(rest[i]));
                tree::lemma_within_down(t, rest[i], id);
                if rest[i] == id {
                    tree::lemma_within_rank(t, id, p);
                }
            }
            assert forall|n: NodeId| #[trigger]
                up.contains(n) <==> tree::has(t, n) && t[n.at()].kind is Element && tree::within(
                    t,
                    n,
                    id,
                ) by {
                if up.contains(n) {
                    let i = choose|i: int| 0 <= i < up.len() && up[i] == n;
                    if i >= k {
                        assert(rest[i - k] == n);
                        assert(rest.contains(n));
                    }
                }
                if tree::has(t, n) && t[n.at()].kind is Element && tree::within(t, n, id) {
                    if n == id {
                        assert(up[0] == id);
                    } else {
                        tree::lemma_within_up(t, n, id);
                        assert(rest.contains(n));
                        let i = choose|i: int| 0 <= i < rest.len() && rest[i] == n;
                        assert(up[i + k] == n);
                    }
                }
            }
            assert forall|i: int, j: int| 0 <= i < j < up.len() implies #[trigger] up[i]
                != #[trigger] up[j] && tree::within(t, up[j], up[i]) by {
                if i >= k {
                    assert(up[i] == rest[i - k] && up[j] == rest[j - k]);
                } else {
                    assert(up[j] == rest[j - k]);
                }
            }
        },
    }
}

/// An event at an element comes to the element and, where it bubbles, to every element above it,
/// to each of them once and to each before those above it. Where it does not bubble it comes to its
/// target alone, and where its target is no element it comes to nothing.
pub proof fn events_bubble_to_the_top(t: Seq<NodeView>, target: NodeId, bubbles: bool)
    requires
        tree::wf(t),
        tree::has(t, target),
    ensures
        forall|n: NodeId| #[trigger]
            chain_of(t, target, bubbles).contains(n) <==> t[target.at()].kind is Element
                && tree::has(t, n) && t[n.at()].kind is Element && (if bubbles {
                tree::within(t, n, target)
            } else {
                n == target
            }),
        chain_of(t, target, bubbles).no_duplicates(),
        forall|i: int, j: int|
            #![trigger chain_of(t, target, bubbles)[i], chain_of(t, target, bubbles)[j]]
            0 <= i < j < chain_of(t, target, bubbles).len() ==> tree::within(
                t,
                chain_of(t, target, bubbles)[j],
                chain_of(t, target, bubbles)[i],
            ),
{
    lemma_elements_up(t, target);
    if !bubbles && t[target.at()].kind is Element {
        assert(chain_of(t, target, bubbles)[0] == target);
    }
}

/// The handlers that an event calls at a node are those that were added for it there, each as often
/// as it was added and in that order: a handler that is added is called last, and one for another
/// node or another event is not called.
pub proof fn added_handler_is_called<C>(
    all: Seq<Listener<C>>,
    l: Listener<C>,
    node: NodeId,
    ty: Seq<char>,
)
    ensures
        calls_at(Seq::<Listener<C>>::empty(), node, ty) == Seq::<(NodeId, C)>::empty(),
        calls_at(all.push(l), node, ty) == (if l.node == node && l.event_type@ == ty {
            calls_at(all, node, ty).push((node, l.callback))
        } else {
            calls_at(all, node, ty)
        }),
{
    reveal(Seq::filter);
    let keep = listens::<C>(node, ty);
    assert(Seq::<Listener<C>>::empty().filter(keep) =~= Seq::empty());
    assert(calls_at(Seq::<Listener<C>>::empty(), node, ty) =~= Seq::empty());
    assert(all.push(l).drop_last() =~= all);
    assert(all.push(l).last() == l);
    if keep(l) {
        assert(calls_of(all.filter(keep).push(l), node) =~= calls_of(all.filter(keep), node).push(
            (node, l.callback),
        ));
    }
}

/// The calls of an event are those at the nodes that it comes to, one node after the other: none
/// at a node that it does not come to, and all at each that it does.
pub proof fn calls_follow_the_chain<C>(
    all: Seq<Listener<C>>,
    chain: Seq<NodeId>,
    ty: Seq<char>,
    node: NodeId,
    callback: C,
)
    ensures
        calls_along(all, chain, ty).contains((node, callback)) <==> chain.contains(node) && exists|
            i: int,
        |
            0 <= i < all.len() && (#[trigger] all[i]).node == node && all[i].event_type@ == ty
                && all[i].callback == callback,
        forall|k: int|
            0 <= k <= chain.len() ==> calls_along(all, chain, ty) == #[trigger] calls_along(
                all,
                chain.take(k),
                ty,
            ) + calls_along(all, chain.skip(k), ty),
    decreases chain.len(),
{
    assert forall|k: int| 0 <= k <= chain.len() implies calls_along(all, chain, ty)
        == #[trigger] calls_along(all, chain.take(k), ty) + calls_along(all, chain.skip(k), ty) by {
        assert(chain.take(k) + chain.skip(k) =~= chain);
        lemma_calls_prefix(all, chain.take(k), chain.skip(k), ty);
    }
    if chain.len() > 0 {
        let first = calls_at(all, chain[0], ty);
        let rest = calls_along(all, chain.skip(1), ty);
        let both = calls_along(all, chain, ty);
        let call = (node, callback);
        calls_follow_the_chain(all, chain.skip(1), ty, node, callback);
        lemma_calls_at(all, chain[0], ty, callback);
        if both.contains(call) {
            let i = both.index_of(call);
            if i < first.len() {
                assert(first[i] == call);
                assert(chain[0] == node);
            } else {
                assert(rest[i - first.len()] == call);
                assert(rest.contains(call));
                let j = chain.skip(1).index_of(node);
                assert(chain[j + 1] == node);
            }
        }
        if chain.contains(node) && exists|i: int|
            0 <= i < all.len() && (#[trigger] all[i]).node == node && all[i].event_type@ == ty
                && all[i].callback == callback {
            if chain[0] == node {
                assert(first.contains(call));
                let i = first.index_of(call);
                assert(both[i] == call);
            } else {
                let j = chain.index_of(node);
                assert(chain.skip(1)[j - 1] == node);
                assert(rest.contains(call));
                let i = rest.index_of(call);
                assert(both[i + first.len()] == call);
            }
        }
    }
}

proof fn lemma_calls_at<C>(all: Seq<Listener<C>>, node: NodeId, ty: Seq<char>, callback: C)
    ensures
        calls_at(all, node, ty).contains((node, callback)) <==> exists|i: int|
            0 <= i < all.len() && (#[trigger] all[i]).node == node && all[i].event_type@ == ty
                && all[i].callback == callback,
        forall|i: int|
            0 <= i < calls_at(all, node, ty).len() ==> (#[trigger] calls_at(all, node, ty)[i]).0
                == node,
{
    let keep = listens::<C>(node, ty);
    let v = all.filter(keep);
    let calls = calls_at(all, node, ty);
    if calls.contains((node, callback)) {
        let i = calls.index_of((node, callback));
        assert(calls[i] == (node, v[i].callback));
        all.lemma_filter_pred(keep, i);
        all.lemma_filter_contains_rev(keep, v[i]);
        let j = all.index_of(v[i]);
        assert(all[j].node == node);
    }
    if exists|i: int|
        0 <= i < all.len() && (#[trigger] all[i]).node == node && all[i].event_type@ == ty
            && all[i].callback == callback {
        let i = choose|i: int|
            0 <= i < all.len() && (#[trigger] all[i]).node == node && all[i].event_type@ == ty
                && all[i].callback == callback;
        all.lemma_filter_contains(keep, i);
        let j = v.index_of(all[i]);
        assert(calls[j] == (node, callback));
    }
}

/// Every event tells its type, its target and whether it bubbles, and can be prevented and stopped. It
/// has coordinates just where both are given, the same in the page as in the window, the key, its code
/// and what is typed just where these are given, and the held keys just where a key or a code is.
pub proof fn events_have_their_properties<N>(ty: Seq<char>, init: EventInit<N>, x: N, y: N)
    ensures
        common_properties::<N>(ty, init.bubbles).contains(("type"@, EventValueView::Text(ty))),
        common_properties::<N>(ty, init.bubbles).contains(
            ("bubbles"@, EventValueView::Flag(init.bubbles)),
        ),
        mouse_properties(Some(x), None::<N>).len() == 0,
        mouse_properties(None::<N>, Some(y)).len() == 0,
        mouse_properties(Some(x), Some(y)).contains(("clientX"@, EventValueView::Coordinate(x))),
        mouse_properties(Some(x), Some(y)).contains(("clientY"@, EventValueView::Coordinate(y))),
        mouse_properties(Some(x), Some(y)).contains(("pageX"@, EventValueView::Coordinate(x))),
        mouse_properties(Some(x), Some(y)).contains(("pageY"@, EventValueView::Coordinate(y))),
        init.key is None && init.code is None ==> modifier_properties(init).len() == 0,
        init.key is Some || init.code is Some ==> {
            let m = modifier_properties(init);
            &&& m.contains(("ctrlKey"@, EventValueView::Flag(init.ctrl)))
            &&& m.contains(("shiftKey"@, EventValueView::Flag(init.shift)))
            &&& m.contains(("altKey"@, EventValueView::Flag(init.alt)))
            &&& m.contains(("metaKey"@, EventValueView::Flag(init.meta)))
            &&& m.len() == 4
        },
        init.key matches Some(k) ==> text_property::<N>("key"@, init.key) == seq![
            ("key"@, EventValueView::<N>::Text(k@)),
        ],
        text_property::<N>("key"@, None).len() == 0,
        event_properties_of(ty, init).take(6) == common_properties::<N>(ty, init.bubbles),
        event_properties_of(ty, init).len() == 6 + mouse_properties(
            init.client_x,
            init.client_y,
        ).len() + text_property::<N>("key"@, init.key).len() + text_property::<N>(
            "code"@,
            init.code,
        ).len() + modifier_properties(init).len() + text_property::<N>(
            "data"@,
            init.input_data,
        ).len(),
        init.input_data matches Some(d) ==> event_properties_of(ty, init).last() == (
            "data"@,
            EventValueView::<N>::Text(d@),
        ),
{
    let c = common_properties::<N>(ty, init.bubbles);
    assert(c[0] == ("type"@, EventValueView::<N>::Text(ty)));
    assert(c[3] == ("bubbles"@, EventValueView::<N>::Flag(init.bubbles)));
    let m = mouse_properties(Some(x), Some(y));
    assert(m[0] == ("clientX"@, EventValueView::Coordinate(x)));
    assert(m[1] == ("clientY"@, EventValueView::Coordinate(y)));
    assert(m[2] == ("pageX"@, EventValueView::Coordinate(x)));
    assert(m[3] == ("pageY"@, EventValueView::Coordinate(y)));
    if init.key is Some || init.code is Some {
        let h = modifier_properties(init);
        assert(h[0] == ("ctrlKey"@, EventValueView::<N>::Flag(init.ctrl)));
        assert(h[1] == ("shiftKey"@, EventValueView::<N>::Flag(init.shift)));
        assert(h[2] == ("altKey"@, EventValueView::<N>::Flag(init.alt)));
        assert(h[3] == ("metaKey"@, EventValueView::<N>::Flag(init.meta)));
    }
    assert(event_properties_of(ty, init).take(6) =~= c);
}

} // verus!
