//! The document tree: nodes in one list, each with its parent and its children.
use crate::pairs;
use crate::text;
use vstd::prelude::*;

verus! {

/// A node's place in the list of nodes.
#[derive(Clone, Copy, PartialEq, Eq, Structural, Hash, Debug)]
pub struct NodeId {
    pub raw: u32,
}

impl NodeId {
    /// The place as a number.
    pub open spec fn at(self) -> int {
        self.raw as int
    }

    /// The node at a place.
    pub fn from_raw(raw: u32) -> (r: NodeId)
        ensures
            r.raw == raw,
    {
        NodeId { raw }
    }

    /// The place of the node.
    pub fn index(self) -> (r: usize)
        ensures
            r == self.raw,
    {
        self.raw as usize
    }
}

/// What a node is, with what it holds besides its children.
pub enum NodeKind {
    Document,
    Doctype(String),
    Comment(String),
    Text(String),
    Element { tag: String, attrs: Vec<(String, String)> },
}

/// What a node is, over plain characters.
pub enum KindView {
    Document,
    Doctype(Seq<char>),
    Comment(Seq<char>),
    Text(Seq<char>),
    Element { tag: Seq<char>, attrs: Seq<(Seq<char>, Seq<char>)> },
}

impl View for NodeKind {
    type V = KindView;

    open spec fn view(&self) -> KindView {
        match self {
            NodeKind::Document => KindView::Document,
            NodeKind::Doctype(s) => KindView::Doctype(s@),
            NodeKind::Comment(s) => KindView::Comment(s@),
            NodeKind::Text(s) => KindView::Text(s@),
            NodeKind::Element { tag, attrs } => KindView::Element {
                tag: tag@,
                attrs: text::pair_texts(attrs@),
            },
        }
    }
}

/// A node of the document.
pub struct Node {
    pub kind: NodeKind,
    pub parent: Option<NodeId>,
    pub children: Vec<NodeId>,
}

/// A node of the document, over plain values.
pub struct NodeView {
    pub kind: KindView,
    pub parent: Option<NodeId>,
    pub children: Seq<NodeId>,
}

impl View for Node {
    type V = NodeView;

    open spec fn view(&self) -> NodeView {
        NodeView { kind: self.kind@, parent: self.parent, children: self.children@ }
    }
}

/// Whether the list has the node.
pub open spec fn has(t: Seq<NodeView>, id: NodeId) -> bool {
    id.raw < t.len()
}

/// Whether each node ranks above its children.
pub open spec fn ranks(t: Seq<NodeView>, r: Seq<nat>) -> bool {
    &&& r.len() == t.len()
    &&& forall|i: int, k: int|
        #![trigger t[i].children[k]]
        0 <= i < t.len() && 0 <= k < t[i].children.len() ==> r[t[i].children[k].at()] < r[i]
}

/// Whether parents and children agree: a node's children name it as their parent, and a node's
/// parent counts it among its children, once.
pub open spec fn linked(t: Seq<NodeView>) -> bool {
    &&& forall|i: int, k: int|
        #![trigger t[i].children[k]]
        0 <= i < t.len() && 0 <= k < t[i].children.len() ==> has(t, t[i].children[k])
            && t[t[i].children[k].at()].parent == Some(NodeId { raw: i as u32 })
    &&& forall|i: int|
        0 <= i < t.len() && (#[trigger] t[i]).parent is Some ==> has(t, t[i].parent->0)
            && t[t[i].parent->0.at()].children.contains(NodeId { raw: i as u32 })
    &&& forall|i: int| 0 <= i < t.len() ==> (#[trigger] t[i]).children.no_duplicates()
}

/// A document tree is well formed where its first node is the document, parents and children
/// agree, and no node is below itself.
pub open spec fn wf(t: Seq<NodeView>) -> bool {
    &&& 1 <= t.len() <= u32::MAX
    &&& t[0].kind is Document
    &&& linked(t)
    &&& exists|r: Seq<nat>| ranks(t, r)
}

/// The rank of a node: a number larger than that of each of its children.
pub open spec fn rank(t: Seq<NodeView>, id: NodeId) -> nat {
    (choose|r: Seq<nat>| ranks(t, r))[id.at()]
}

/// A child of a node of a well-formed tree is in the list, names the node as its parent and
/// ranks below it.
pub proof fn lemma_child(t: Seq<NodeView>, id: NodeId, k: int)
    requires
        wf(t),
        has(t, id),
        0 <= k < t[id.at()].children.len(),
    ensures
        has(t, t[id.at()].children[k]),
        t[t[id.at()].children[k].at()].parent == Some(id),
        rank(t, t[id.at()].children[k]) < rank(t, id),
{
    let r = choose|r: Seq<nat>| ranks(t, r);
    assert(ranks(t, r));
    let c = t[id.at()].children[k];
}

/// The parent of a node of a well-formed tree is in the list and ranks above it.
pub proof fn lemma_parent(t: Seq<NodeView>, id: NodeId)
    requires
        wf(t),
        has(t, id),
        t[id.at()].parent is Some,
    ensures
        has(t, t[id.at()].parent->0),
        t[t[id.at()].parent->0.at()].children.contains(id),
        rank(t, id) < rank(t, t[id.at()].parent->0),
{
    let p = t[id.at()].parent->0;
    assert(NodeId { raw: id.at() as u32 } == id);
    let k = choose|k: int|
        0 <= k < t[p.at()].children.len() && t[p.at()].children[k] == id;
    lemma_child(t, p, k);
}

/// A node and all below it, each node before its children and these in order.
pub open spec fn subtree(t: Seq<NodeView>, id: NodeId) -> Seq<NodeId>
    decreases rank(t, id), t[id.at()].children.len() + 1,
    when wf(t) && has(t, id)
{
    seq![id] + subtrees_below(t, id, t[id.at()].children.len() as int)
}

/// The subtrees of the first children of a node, one after the other.
pub open spec fn subtrees_below(t: Seq<NodeView>, id: NodeId, n: int) -> Seq<NodeId>
    decreases rank(t, id), n,
    when wf(t) && has(t, id) && 0 <= n <= t[id.at()].children.len()
    via subtrees_below_decreases
{
    if n <= 0 {
        Seq::empty()
    } else {
        subtrees_below(t, id, n - 1) + subtree(t, t[id.at()].children[n - 1])
    }
}

#[via_fn]
proof fn subtrees_below_decreases(t: Seq<NodeView>, id: NodeId, n: int) {
    if n > 0 {
        lemma_child(t, id, n - 1);
    }
}

/// Whether a node is another or below it.
pub open spec fn within(t: Seq<NodeView>, top: NodeId, id: NodeId) -> bool
    decreases rank(t, top),
    when wf(t) && has(t, top)
    via within_decreases
{
    top == id || exists|k: int|
        0 <= k < t[top.at()].children.len() && within(t, #[trigger] t[top.at()].children[k], id)
}

#[via_fn]
proof fn within_decreases(t: Seq<NodeView>, top: NodeId, id: NodeId) {
    assert forall|k: int| 0 <= k < t[top.at()].children.len() implies rank(
        t,
        #[trigger] t[top.at()].children[k],
    ) < rank(t, top) by {
        lemma_child(t, top, k);
    }
}

/// A node below another has a parent, which is that other or below it.
pub proof fn lemma_within_up(t: Seq<NodeView>, top: NodeId, id: NodeId)
    requires
        wf(t),
        has(t, top),
        within(t, top, id),
        top != id,
    ensures
        has(t, id),
        t[id.at()].parent is Some,
        within(t, top, t[id.at()].parent->0),
    decreases rank(t, top),
{
    let k = choose|k: int|
        0 <= k < t[top.at()].children.len() && within(t, #[trigger] t[top.at()].children[k], id);
    let c = t[top.at()].children[k];
    lemma_child(t, top, k);
    if c == id {
        assert(within(t, top, top));
    } else {
        lemma_within_up(t, c, id);
        assert(within(t, t[top.at()].children[k], t[id.at()].parent->0));
    }
}

/// A child of a node that is within a subtree is within it too.
pub proof fn lemma_within_down(t: Seq<NodeView>, top: NodeId, id: NodeId)
    requires
        wf(t),
        has(t, top),
        has(t, id),
        t[id.at()].parent is Some,
        within(t, top, t[id.at()].parent->0),
    ensures
        within(t, top, id),
    decreases rank(t, top),
{
    let p = t[id.at()].parent->0;
    lemma_parent(t, id);
    if top == p {
        let k = choose|k: int| 0 <= k < t[p.at()].children.len() && t[p.at()].children[k] == id;
        assert(within(t, t[p.at()].children[k], id));
    } else {
        let k = choose|k: int|
            0 <= k < t[top.at()].children.len() && within(t, #[trigger] t[top.at()].children[k], p);
        let c = t[top.at()].children[k];
        lemma_child(t, top, k);
        lemma_within_down(t, c, id);
        assert(within(t, t[top.at()].children[k], id));
    }
}

/// What is within a node ranks no higher.
pub proof fn lemma_within_rank(t: Seq<NodeView>, top: NodeId, id: NodeId)
    requires
        wf(t),
        has(t, top),
        within(t, top, id),
    ensures
        has(t, id),
        rank(t, id) <= rank(t, top),
    decreases rank(t, top),
{
    if top != id {
        let k = choose|k: int|
            0 <= k < t[top.at()].children.len() && within(t, #[trigger] t[top.at()].children[k], id);
        lemma_child(t, top, k);
        lemma_within_rank(t, t[top.at()].children[k], id);
    }
}

/// Of two nodes that a third is within, one is within the other.
pub proof fn lemma_within_chain(t: Seq<NodeView>, a: NodeId, b: NodeId, id: NodeId)
    requires
        wf(t),
        has(t, a),
        has(t, b),
        within(t, a, id),
        within(t, b, id),
    ensures
        within(t, a, b) || within(t, b, a),
    decreases top_rank(t) - rank(t, id),
{
    if a != id && b != id {
        lemma_within_up(t, a, id);
        lemma_within_up(t, b, id);
        let p = t[id.at()].parent->0;
        lemma_parent(t, id);
        lemma_top_rank(t, id);
        lemma_top_rank(t, p);
        lemma_within_chain(t, a, b, p);
    }
}

/// No node is within two children of a node.
pub proof fn lemma_apart(t: Seq<NodeView>, id: NodeId, i: int, j: int, x: NodeId)
    requires
        wf(t),
        has(t, id),
        0 <= i < t[id.at()].children.len(),
        0 <= j < t[id.at()].children.len(),
        i != j,
        within(t, t[id.at()].children[i], x),
    ensures
        !within(t, t[id.at()].children[j], x),
{
    let a = t[id.at()].children[i];
    let b = t[id.at()].children[j];
    lemma_child(t, id, i);
    lemma_child(t, id, j);
    assert(t[id.at()].children.no_duplicates());
    assert(a != b);
    if within(t, b, x) {
        lemma_within_chain(t, a, b, x);
        if within(t, a, b) {
            lemma_within_up(t, a, b);
            lemma_within_rank(t, a, id);
        } else {
            lemma_within_up(t, b, a);
            lemma_within_rank(t, b, id);
        }
    }
}

/// A node with all below it lists each of them once, and nothing else.
pub proof fn subtree_lists_each_once(t: Seq<NodeView>, id: NodeId)
    requires
        wf(t),
        has(t, id),
    ensures
        subtree(t, id).no_duplicates(),
        forall|x: NodeId| #[trigger] subtree(t, id).contains(x) <==> within(t, id, x),
    decreases rank(t, id), t[id.at()].children.len() + 1,
{
    let n = t[id.at()].children.len() as int;
    let v = subtrees_below(t, id, n);
    lemma_below_lists_once(t, id, n);
    assert(subtree(t, id) == seq![id] + v);
    assert forall|i: int| 0 <= i < v.len() implies #[trigger] v[i] != id by {
        assert(v.contains(v[i]));
        let k = choose|k: int| 0 <= k < n && within(t, #[trigger] t[id.at()].children[k], v[i]);
        lemma_child(t, id, k);
        lemma_within_rank(t, t[id.at()].children[k], v[i]);
    }
    assert forall|x: NodeId| #[trigger] subtree(t, id).contains(x) <==> within(t, id, x) by {
        if subtree(t, id).contains(x) && x != id {
            let i = choose|i: int| 0 <= i < subtree(t, id).len() && subtree(t, id)[i] == x;
            assert(v[i - 1] == x);
            assert(v.contains(x));
        }
        if within(t, id, x) {
            if x == id {
                assert(subtree(t, id)[0] == id);
            } else {
                assert(v.contains(x));
                let i = choose|i: int| 0 <= i < v.len() && v[i] == x;
                assert(subtree(t, id)[i + 1] == x);
            }
        }
    }
}

proof fn lemma_below_lists_once(t: Seq<NodeView>, id: NodeId, n: int)
    requires
        wf(t),
        has(t, id),
        0 <= n <= t[id.at()].children.len(),
    ensures
        subtrees_below(t, id, n).no_duplicates(),
        forall|x: NodeId| #[trigger]
            subtrees_below(t, id, n).contains(x) <==> exists|k: int|
                0 <= k < n && within(t, #[trigger] t[id.at()].children[k], x),
    decreases rank(t, id), n,
{
    let v = subtrees_below(t, id, n);
    if n > 0 {
        let c = t[id.at()].children[n - 1];
        lemma_child(t, id, n - 1);
        lemma_below_lists_once(t, id, n - 1);
        subtree_lists_each_once(t, c);
        let a = subtrees_below(t, id, n - 1);
        let b = subtree(t, c);
        assert(v == a + b);
        assert forall|i: int, j: int| 0 <= i < a.len() && 0 <= j < b.len() implies #[trigger] a[i]
            != #[trigger] b[j] by {
            assert(a.contains(a[i]));
            assert(b.contains(b[j]));
            let k = choose|k: int|
                0 <= k < n - 1 && within(t, #[trigger] t[id.at()].children[k], a[i]);
            lemma_apart(t, id, k, n - 1, a[i]);
        }
        assert forall|x: NodeId| #[trigger] v.contains(x) <==> exists|k: int|
            0 <= k < n && within(t, #[trigger] t[id.at()].children[k], x) by {
            if v.contains(x) {
                let i = choose|i: int| 0 <= i < v.len() && v[i] == x;
                if i < a.len() {
                    assert(a[i] == x);
                    assert(a.contains(x));
                } else {
                    assert(b[i - a.len()] == x);
                    assert(b.contains(x));
                    assert(within(t, t[id.at()].children[n - 1], x));
                }
            }
            if exists|k: int| 0 <= k < n && within(t, #[trigger] t[id.at()].children[k], x) {
                let k = choose|k: int|
                    0 <= k < n && within(t, #[trigger] t[id.at()].children[k], x);
                if k < n - 1 {
                    assert(a.contains(x));
                    let i = choose|i: int| 0 <= i < a.len() && a[i] == x;
                    assert(v[i] == x);
                } else {
                    assert(b.contains(x));
                    let i = choose|i: int| 0 <= i < b.len() && b[i] == x;
                    assert(v[a.len() + i] == x);
                }
            }
        }
    }
}

/// What is within a node that is within another is within that other.
pub proof fn lemma_within_transitive(t: Seq<NodeView>, top: NodeId, mid: NodeId, id: NodeId)
    requires
        wf(t),
        has(t, top),
        t[mid.at()].parent == Some(top),
        has(t, mid),
        within(t, mid, id),
    ensures
        within(t, top, id),
{
    lemma_parent(t, mid);
    let k = choose|k: int| 0 <= k < t[top.at()].children.len() && t[top.at()].children[k] == mid;
    assert(within(t, t[top.at()].children[k], id));
}

/// A number that no rank passes.
pub open spec fn top_rank(t: Seq<NodeView>) -> nat {
    highest(choose|r: Seq<nat>| ranks(t, r))
}

/// The highest number of a list.
pub open spec fn highest(r: Seq<nat>) -> nat
    decreases r.len(),
{
    if r.len() == 0 {
        0
    } else {
        let h = highest(r.drop_last());
        if r.last() > h {
            r.last()
        } else {
            h
        }
    }
}

proof fn lemma_highest(r: Seq<nat>, i: int)
    requires
        0 <= i < r.len(),
    ensures
        r[i] <= highest(r),
    decreases r.len(),
{
    if i < r.len() - 1 {
        lemma_highest(r.drop_last(), i);
    }
}

/// No rank passes the top rank.
pub proof fn lemma_top_rank(t: Seq<NodeView>, id: NodeId)
    requires
        wf(t),
        has(t, id),
    ensures
        rank(t, id) <= top_rank(t),
{
    let r = choose|r: Seq<nat>| ranks(t, r);
    assert(ranks(t, r));
    lemma_highest(r, id.at());
}

/// What is left to visit: the subtree of the topmost node of a stack, and so on down to its
/// bottom.
pub open spec fn pending(t: Seq<NodeView>, stack: Seq<NodeId>) -> Seq<NodeId>
    decreases stack.len(),
{
    if stack.len() == 0 {
        Seq::empty()
    } else {
        subtree(t, stack.last()) + pending(t, stack.drop_last())
    }
}

/// Pushing the last children of a node in reverse leaves their subtrees, in order, on top.
pub proof fn lemma_pending_children(t: Seq<NodeView>, id: NodeId, rest: Seq<NodeId>, n: int, stack: Seq<NodeId>)
    requires
        wf(t),
        has(t, id),
        0 <= n <= t[id.at()].children.len(),
        stack == rest + t[id.at()].children.skip(n).reverse(),
    ensures
        subtrees_below(t, id, n) + pending(t, stack) == subtrees_below(
            t,
            id,
            t[id.at()].children.len() as int,
        ) + pending(t, rest),
    decreases t[id.at()].children.len() - n,
{
    let kids = t[id.at()].children;
    if n == kids.len() {
        assert(stack =~= rest);
    } else {
        lemma_child(t, id, n);
        let lower = rest + kids.skip(n + 1).reverse();
        assert(stack.drop_last() =~= lower);
        assert(stack.last() == kids[n]);
        lemma_pending_children(t, id, rest, n + 1, lower);
        assert(subtrees_below(t, id, n + 1) == subtrees_below(t, id, n) + subtree(t, kids[n]));
        assert(subtrees_below(t, id, n) + (subtree(t, kids[n]) + pending(t, lower)) =~= (
        subtrees_below(t, id, n) + subtree(t, kids[n])) + pending(t, lower));
    }
}

/// A document: its nodes, the first of which is the document itself, and whether it was changed
/// since it was last marked as unchanged.
pub struct Dom {
    nodes: Vec<Node>,
    changed: bool,
}

impl View for Dom {
    type V = Seq<NodeView>;

    closed spec fn view(&self) -> Seq<NodeView> {
        self.nodes@.map_values(|n: Node| n@)
    }
}

/// A copy of a list of node ids.
pub fn copy_ids(ids: &Vec<NodeId>) -> (r: Vec<NodeId>)
    ensures
        r@ == ids@,
{
    let mut out: Vec<NodeId> = Vec::new();
    let mut i: usize = 0;
    while i < ids.len()
        invariant
            i <= ids@.len(),
            out@ == ids@.take(i as int),
        decreases ids@.len() - i,
    {
        out.push(ids[i]);
        proof {
            assert(ids@.take(i + 1) =~= ids@.take(i as int).push(ids@[i as int]));
        }
        i = i + 1;
    }
    proof {
        assert(ids@.take(ids@.len() as int) =~= ids@);
    }
    out
}

impl Dom {
    /// Whether the document was changed since it was last marked as unchanged.
    pub closed spec fn touched(&self) -> bool {
        self.changed
    }

    /// Whether the document was changed since it was last marked as unchanged.
    pub fn is_touched(&self) -> (r: bool)
        ensures
            r == self.touched(),
    {
        self.changed
    }

    /// Marks the document as unchanged.
    pub fn mark_unchanged(&mut self)
        ensures
            final(self)@ == old(self)@,
            !final(self).touched(),
    {
        self.changed = false;
    }

    /// An empty document.
    pub fn new() -> (r: Dom)
        ensures
            wf(r@),
            !r.touched(),
            r@ == seq![
                NodeView { kind: KindView::Document, parent: None, children: Seq::empty() },
            ],
    {
        let mut nodes: Vec<Node> = Vec::new();
        let children: Vec<NodeId> = Vec::new();
        nodes.push(Node { kind: NodeKind::Document, parent: None, children });
        let r = Dom { nodes, changed: false };
        proof {
            assert(r@ =~= seq![
                NodeView { kind: KindView::Document, parent: None, children: Seq::empty() },
            ]);
            assert(ranks(r@, seq![0nat]));
        }
        r
    }

    /// The document node.
    pub fn document(&self) -> (r: NodeId)
        ensures
            r == (NodeId { raw: 0 }),
    {
        NodeId { raw: 0 }
    }

    /// How many nodes there are, detached ones among them.
    pub fn node_count(&self) -> (r: usize)
        ensures
            r == self@.len(),
    {
        self.nodes.len()
    }

    /// A node.
    pub fn node(&self, id: NodeId) -> (r: &Node)
        requires
            has(self@, id),
        ensures
            r@ == self@[id.at()],
    {
        &self.nodes[id.raw as usize]
    }

    /// The children of a node, in order.
    pub fn children(&self, id: NodeId) -> (r: Vec<NodeId>)
        requires
            has(self@, id),
        ensures
            r@ == self@[id.at()].children,
    {
        copy_ids(&self.nodes[id.raw as usize].children)
    }

    /// A node and all below it, each node before its children and these in order.
    pub fn preorder(&self, root: NodeId) -> (r: Vec<NodeId>)
        requires
            wf(self@),
            has(self@, root),
        ensures
            r@ == subtree(self@, root),
            forall|i: int| 0 <= i < r@.len() ==> has(self@, #[trigger] r@[i]),
    {
        let ghost t = self@;
        let mut out: Vec<NodeId> = Vec::new();
        let mut stack: Vec<NodeId> = Vec::new();
        stack.push(root);
        proof {
            assert(stack@.drop_last() =~= Seq::empty());
            assert(pending(t, stack@.drop_last()) =~= Seq::empty());
            assert(pending(t, stack@) =~= subtree(t, root));
            assert(out@ + pending(t, stack@) =~= subtree(t, root));
        }
        while stack.len() > 0
            invariant
                t == self@,
                wf(t),
                has(t, root),
                out@ + pending(t, stack@) == subtree(t, root),
                forall|i: int| 0 <= i < stack@.len() ==> has(t, #[trigger] stack@[i]),
                forall|i: int| 0 <= i < out@.len() ==> has(t, #[trigger] out@[i]),
            decreases pending(t, stack@).len(),
        {
            let ghost before = stack@;
            let ghost visited = out@;
            let n: NodeId = stack.pop().unwrap();
            let ghost rest = stack@;
            proof {
                assert(before.drop_last() =~= rest);
                assert(n == before[before.len() - 1]);
            }
            out.push(n);
            let kids = self.children(n);
            let mut k: usize = kids.len();
            while k > 0
                invariant
                    t == self@,
                    wf(t),
                    has(t, n),
                    kids@ == t[n.at()].children,
                    0 <= k <= kids@.len(),
                    stack@ == rest + kids@.skip(k as int).reverse(),
                    forall|i: int| 0 <= i < stack@.len() ==> has(t, #[trigger] stack@[i]),
                decreases k,
            {
                k = k - 1;
                proof {
                    lemma_child(t, n, k as int);
                }
                stack.push(kids[k]);
                proof {
                    assert(stack@ =~= rest + kids@.skip(k as int).reverse());
                }
            }
            proof {
                assert(kids@.skip(0) =~= kids@);
                lemma_pending_children(t, n, rest, 0, stack@);
                assert(subtrees_below(t, n, 0) =~= Seq::empty());
                assert(subtrees_below(t, n, 0) + pending(t, stack@) =~= pending(t, stack@));
                assert(pending(t, before) == subtree(t, n) + pending(t, rest));
                assert(out@ + pending(t, stack@) =~= visited + pending(t, before));
            }
        }
        out
    }
}

/// The tree with one more node, which has no parent and no children.
pub open spec fn with_node(t: Seq<NodeView>, kind: KindView) -> Seq<NodeView> {
    t.push(NodeView { kind, parent: None, children: Seq::empty() })
}

/// The tree with a node's kind replaced.
pub open spec fn with_kind(t: Seq<NodeView>, id: NodeId, kind: KindView) -> Seq<NodeView> {
    t.update(id.at(), NodeView { kind, ..t[id.at()] })
}

/// The tree with a node made a child of another, at a position among its children.
pub open spec fn placed(t: Seq<NodeView>, p: NodeId, c: NodeId, i: int) -> Seq<NodeView> {
    t.update(
        p.at(),
        NodeView { children: t[p.at()].children.insert(i, c), ..t[p.at()] },
    ).update(c.at(), NodeView { parent: Some(p), ..t[c.at()] })
}

/// The tree with a node taken away from its parent, where it has one.
pub open spec fn detached(t: Seq<NodeView>, c: NodeId) -> Seq<NodeView> {
    match t[c.at()].parent {
        None => t,
        Some(p) => t.update(
            p.at(),
            NodeView {
                children: t[p.at()].children.remove(t[p.at()].children.index_of(c)),
                ..t[p.at()]
            },
        ).update(c.at(), NodeView { parent: None, ..t[c.at()] }),
    }
}

/// A node more keeps a tree well formed.
pub proof fn lemma_with_node_wf(t: Seq<NodeView>, kind: KindView)
    requires
        wf(t),
        t.len() < u32::MAX,
    ensures
        wf(with_node(t, kind)),
{
    let u = with_node(t, kind);
    let r = choose|r: Seq<nat>| ranks(t, r);
    assert(ranks(t, r));
    assert(ranks(u, r.push(0)));
    assert forall|i: int| 0 <= i < u.len() && (#[trigger] u[i]).parent is Some implies has(
        u,
        u[i].parent->0,
    ) && u[u[i].parent->0.at()].children.contains(NodeId { raw: i as u32 }) by {
        assert(u[i] == t[i]);
        assert(u[t[i].parent->0.at()] == t[t[i].parent->0.at()]);
    }
    assert forall|i: int, k: int|
        #![trigger u[i].children[k]]
        0 <= i < u.len() && 0 <= k < u[i].children.len() implies has(u, u[i].children[k])
        && u[u[i].children[k].at()].parent == Some(NodeId { raw: i as u32 }) by {
        assert(u[i] == t[i]);
        assert(has(t, t[i].children[k]));
        assert(u[t[i].children[k].at()] == t[t[i].children[k].at()]);
    }
}

/// A change of kind keeps a tree well formed, where the document stays the document.
pub proof fn lemma_with_kind_wf(t: Seq<NodeView>, id: NodeId, kind: KindView)
    requires
        wf(t),
        has(t, id),
        id.at() == 0 ==> kind is Document,
    ensures
        wf(with_kind(t, id, kind)),
{
    let u = with_kind(t, id, kind);
    let r = choose|r: Seq<nat>| ranks(t, r);
    assert(ranks(t, r));
    assert(forall|i: int| 0 <= i < t.len() ==> u[i].children == (#[trigger] t[i]).children && u[i].parent == t[i].parent);
    assert(ranks(u, r)) by {
        assert forall|i: int, k: int|
            #![trigger u[i].children[k]]
            0 <= i < u.len() && 0 <= k < u[i].children.len() implies r[u[i].children[k].at()] < r[i] by {
            assert(u[i].children[k] == t[i].children[k]);
        }
    }
    assert forall|i: int, k: int|
        #![trigger u[i].children[k]]
        0 <= i < u.len() && 0 <= k < u[i].children.len() implies has(u, u[i].children[k])
        && u[u[i].children[k].at()].parent == Some(NodeId { raw: i as u32 }) by {
        assert(u[i].children[k] == t[i].children[k]);
        assert(has(t, t[i].children[k]));
    }
    assert forall|i: int| 0 <= i < u.len() && (#[trigger] u[i]).parent is Some implies has(
        u,
        u[i].parent->0,
    ) && u[u[i].parent->0.at()].children.contains(NodeId { raw: i as u32 }) by {
        assert(t[i].parent == u[i].parent);
    }
    assert forall|i: int| 0 <= i < u.len() implies (#[trigger] u[i]).children.no_duplicates() by {
        assert(u[i].children == t[i].children);
    }
}

/// Placing a parentless node under another that is not below it keeps a tree well formed.
pub proof fn lemma_placed_wf(t: Seq<NodeView>, p: NodeId, c: NodeId, i: int)
    requires
        wf(t),
        has(t, p),
        has(t, c),
        t[c.at()].parent is None,
        !within(t, c, p),
        0 <= i <= t[p.at()].children.len(),
    ensures
        wf(placed(t, p, c, i)),
{
    let u = placed(t, p, c, i);
    assert(c != p);
    let kids = t[p.at()].children;
    let r = choose|r: Seq<nat>| ranks(t, r);
    assert(ranks(t, r));
    assert(!kids.contains(c)) by {
        if kids.contains(c) {
            let k = choose|k: int| 0 <= k < kids.len() && kids[k] == c;
            lemma_child(t, p, k);
        }
    }
    assert(u.len() == t.len());
    assert(u[p.at()].children == kids.insert(i, c));
    assert forall|j: int| 0 <= j < u.len() && j != p.at() implies (#[trigger] u[j]).children
        == t[j].children by {}
    assert forall|j: int| 0 <= j < u.len() && j != c.at() implies (#[trigger] u[j]).parent
        == t[j].parent by {}
    // Each child of the new tree is the child that was placed or a child of the old tree.
    assert forall|j: int, k: int|
        #![trigger u[j].children[k]]
        0 <= j < u.len() && 0 <= k < u[j].children.len() implies (j == p.at() && u[j].children[k]
        == c) || (exists|m: int|
        0 <= m < t[j].children.len() && #[trigger] t[j].children[m] == u[j].children[k]) by {
        if j == p.at() {
            if k < i {
                assert(u[j].children[k] == t[j].children[k]);
            } else if k > i {
                assert(u[j].children[k] == t[j].children[k - 1]);
            }
        } else {
            assert(u[j].children[k] == t[j].children[k]);
        }
    }
    // Ranks: what is above the new parent moves up past what is placed.
    let bump = r[c.at()] + 1;
    let s = Seq::new(
        t.len(),
        |x: int| if within(t, NodeId { raw: x as u32 }, p) {
            r[x] + bump
        } else {
            r[x]
        },
    );
    assert(ranks(u, s)) by {
        assert forall|j: int, k: int|
            #![trigger u[j].children[k]]
            0 <= j < u.len() && 0 <= k < u[j].children.len() implies s[u[j].children[k].at()]
            < s[j] by {
            let jj = NodeId { raw: j as u32 };
            if j == p.at() && u[j].children[k] == c {
                assert(NodeId { raw: c.at() as u32 } == c);
                assert(jj == p);
                assert(within(t, p, p));
                assert(s[c.at()] == r[c.at()]);
            } else {
                let m = choose|m: int|
                    0 <= m < t[j].children.len() && #[trigger] t[j].children[m]
                        == u[j].children[k];
                let x = t[j].children[m];
                lemma_child(t, jj, m);
                assert(NodeId { raw: x.at() as u32 } == x);
                assert(r[x.at()] < r[j]);
                if within(t, x, p) {
                    assert(within(t, t[jj.at()].children[m], p));
                    assert(within(t, jj, p));
                }
            }
        }
    }
    assert forall|j: int, k: int|
        #![trigger u[j].children[k]]
        0 <= j < u.len() && 0 <= k < u[j].children.len() implies has(u, u[j].children[k])
        && u[u[j].children[k].at()].parent == Some(NodeId { raw: j as u32 }) by {
        if j == p.at() && u[j].children[k] == c {
            assert(NodeId { raw: j as u32 } == p);
        } else {
            let m = choose|m: int|
                0 <= m < t[j].children.len() && #[trigger] t[j].children[m] == u[j].children[k];
            let x = t[j].children[m];
            lemma_child(t, NodeId { raw: j as u32 }, m);
            assert(x != c);
        }
    }
    assert forall|j: int| 0 <= j < u.len() && (#[trigger] u[j]).parent is Some implies has(
        u,
        u[j].parent->0,
    ) && u[u[j].parent->0.at()].children.contains(NodeId { raw: j as u32 }) by {
        let x = NodeId { raw: j as u32 };
        if j == c.at() {
            assert(x == c);
            assert(u[p.at()].children[i] == c);
        } else {
            assert(t[j].parent == u[j].parent);
            let q = t[j].parent->0;
            let m = choose|m: int| 0 <= m < t[q.at()].children.len() && t[q.at()].children[m] == x;
            if q == p {
                if m < i {
                    assert(u[p.at()].children[m] == x);
                } else {
                    assert(u[p.at()].children[m + 1] == x);
                }
            } else {
                assert(u[q.at()].children[m] == x);
            }
        }
    }
    assert forall|j: int| 0 <= j < u.len() implies (#[trigger] u[j]).children.no_duplicates() by {
        if j == p.at() {
            let v = u[j].children;
            assert(kids.no_duplicates());
            assert forall|a: int, b: int| 0 <= a < b < v.len() implies v[a] != v[b] by {
                if a == i {
                    assert(v[b] == kids[b - 1]);
                } else if b == i {
                    assert(v[a] == kids[a]);
                } else {
                    let a0 = if a < i { a } else { a - 1 };
                    let b0 = if b < i { b } else { b - 1 };
                    assert(v[a] == kids[a0]);
                    assert(v[b] == kids[b0]);
                }
            }
        } else {
            assert(u[j].children == t[j].children);
        }
    }
}

/// Taking a node away from its parent keeps a tree well formed.
pub proof fn lemma_detached_wf(t: Seq<NodeView>, c: NodeId)
    requires
        wf(t),
        has(t, c),
    ensures
        wf(detached(t, c)),
        detached(t, c).len() == t.len(),
        detached(t, c)[c.at()].parent is None,
{
    if t[c.at()].parent is Some {
        let u = detached(t, c);
        let p = t[c.at()].parent->0;
        lemma_parent(t, c);
        let kids = t[p.at()].children;
        let i = kids.index_of(c);
        assert(0 <= i < kids.len() && kids[i] == c);
        let rest = kids.remove(i);
        assert(p != c);
        let r = choose|r: Seq<nat>| ranks(t, r);
        assert(ranks(t, r));
        assert(u[p.at()].children == rest);
        assert forall|j: int| 0 <= j < u.len() && j != p.at() implies (#[trigger] u[j]).children
            == t[j].children by {}
        assert forall|j: int| 0 <= j < u.len() && j != c.at() implies (#[trigger] u[j]).parent
            == t[j].parent by {}
        assert forall|j: int, k: int|
            #![trigger u[j].children[k]]
            0 <= j < u.len() && 0 <= k < u[j].children.len() implies u[j].children[k] != c && exists|
            m: int,
        |
            0 <= m < t[j].children.len() && #[trigger] t[j].children[m] == u[j].children[k] by {
            if j == p.at() {
                let m = if k < i { k } else { k + 1 };
                assert(u[j].children[k] == t[j].children[m]);
                assert(kids.no_duplicates());
            } else {
                assert(u[j].children[k] == t[j].children[k]);
                lemma_child(t, NodeId { raw: j as u32 }, k);
            }
        }
        assert(ranks(u, r)) by {
            assert forall|j: int, k: int|
                #![trigger u[j].children[k]]
                0 <= j < u.len() && 0 <= k < u[j].children.len() implies r[u[j].children[k].at()]
                < r[j] by {
                let m = choose|m: int|
                    0 <= m < t[j].children.len() && #[trigger] t[j].children[m]
                        == u[j].children[k];
            }
        }
        assert forall|j: int, k: int|
            #![trigger u[j].children[k]]
            0 <= j < u.len() && 0 <= k < u[j].children.len() implies has(u, u[j].children[k])
            && u[u[j].children[k].at()].parent == Some(NodeId { raw: j as u32 }) by {
            let m = choose|m: int|
                0 <= m < t[j].children.len() && #[trigger] t[j].children[m] == u[j].children[k];
            lemma_child(t, NodeId { raw: j as u32 }, m);
        }
        assert forall|j: int| 0 <= j < u.len() && (#[trigger] u[j]).parent is Some implies has(
            u,
            u[j].parent->0,
        ) && u[u[j].parent->0.at()].children.contains(NodeId { raw: j as u32 }) by {
            let x = NodeId { raw: j as u32 };
            assert(t[j].parent == u[j].parent);
            let q = t[j].parent->0;
            let m = choose|m: int| 0 <= m < t[q.at()].children.len() && t[q.at()].children[m] == x;
            if q == p {
                if m < i {
                    assert(u[p.at()].children[m] == x);
                } else {
                    assert(m != i);
                    assert(u[p.at()].children[m - 1] == x);
                }
            } else {
                assert(u[q.at()].children[m] == x);
            }
        }
        assert forall|j: int| 0 <= j < u.len() implies (
        #[trigger] u[j]).children.no_duplicates() by {
            if j == p.at() {
                assert(kids.no_duplicates());
                let v = u[j].children;
                assert forall|a: int, b: int| 0 <= a < b < v.len() implies v[a] != v[b] by {
                    let a0 = if a < i { a } else { a + 1 };
                    let b0 = if b < i { b } else { b + 1 };
                    assert(v[a] == kids[a0]);
                    assert(v[b] == kids[b0]);
                }
            } else {
                assert(u[j].children == t[j].children);
            }
        }
    }
}

impl Dom {
    /// Adds a node of the given kind, without parent and children.
    pub fn create(&mut self, kind: NodeKind) -> (r: NodeId)
        requires
            wf(old(self)@),
            old(self)@.len() < u32::MAX,
        ensures
            final(self)@ == with_node(old(self)@, kind@),
            wf(final(self)@),
            r.at() == old(self)@.len(),
            final(self).touched(),
    {
        let ghost t = self@;
        let ghost kv = kind@;
        let id = NodeId { raw: self.nodes.len() as u32 };
        let children: Vec<NodeId> = Vec::new();
        self.nodes.push(Node { kind, parent: None, children });
        self.changed = true;
        proof {
            assert(self@ =~= with_node(t, kv));
            lemma_with_node_wf(t, kv);
        }
        id
    }

    /// Adds an element, without parent and children.
    pub fn create_element(&mut self, tag: String, attrs: Vec<(String, String)>) -> (r: NodeId)
        requires
            wf(old(self)@),
            old(self)@.len() < u32::MAX,
        ensures
            final(self)@ == with_node(
                old(self)@,
                (KindView::Element { tag: tag@, attrs: text::pair_texts(attrs@) }),
            ),
            wf(final(self)@),
            r.at() == old(self)@.len(),
            final(self).touched(),
    {
        self.create(NodeKind::Element { tag, attrs })
    }

    /// Adds a text node, without parent.
    pub fn create_text(&mut self, content: String) -> (r: NodeId)
        requires
            wf(old(self)@),
            old(self)@.len() < u32::MAX,
        ensures
            final(self)@ == with_node(old(self)@, KindView::Text(content@)),
            wf(final(self)@),
            r.at() == old(self)@.len(),
            final(self).touched(),
    {
        self.create(NodeKind::Text(content))
    }

    /// Whether a node is another or below it.
    pub fn contains(&self, top: NodeId, id: NodeId) -> (r: bool)
        requires
            wf(self@),
            has(self@, top),
            has(self@, id),
        ensures
            r == within(self@, top, id),
    {
        let ghost t = self@;
        let mut cur: NodeId = id;
        loop
            invariant
                t == self@,
                wf(t),
                has(t, top),
                has(t, cur),
                within(t, top, id) == within(t, top, cur),
            decreases top_rank(t) - rank(t, cur),
        {
            if cur.raw == top.raw {
                return true;
            }
            let next: Option<NodeId> = self.nodes[cur.raw as usize].parent;
            proof {
                assert(t[cur.at()].parent == next);
                lemma_top_rank(t, cur);
            }
            match next {
                None => {
                    proof {
                        if within(t, top, cur) {
                            lemma_within_up(t, top, cur);
                        }
                    }
                    return false;
                },
                Some(p) => {
                    proof {
                        lemma_parent(t, cur);
                        lemma_top_rank(t, p);
                        if within(t, top, cur) {
                            lemma_within_up(t, top, cur);
                        }
                        if within(t, top, p) {
                            lemma_within_down(t, top, cur);
                        }
                    }
                    cur = p;
                },
            }
        }
    }

    /// Makes a parentless node a child of another, at a position among its children.
    fn place(&mut self, p: NodeId, c: NodeId, i: usize)
        requires
            wf(old(self)@),
            has(old(self)@, p),
            has(old(self)@, c),
            old(self)@[c.at()].parent is None,
            !within(old(self)@, c, p),
            i <= old(self)@[p.at()].children.len(),
        ensures
            final(self)@ == placed(old(self)@, p, c, i as int),
            wf(final(self)@),
            final(self).touched(),
    {
        let ghost t = self@;
        proof {
            lemma_placed_wf(t, p, c, i as int);
            assert(c != p);
        }
        let pi: usize = p.raw as usize;
        let ci: usize = c.raw as usize;
        self.nodes[pi].children.insert(i, c);
        self.nodes[ci].parent = Some(p);
        self.changed = true;
        proof {
            assert(self@ =~= placed(t, p, c, i as int));
        }
    }

    /// Makes a parentless node the last child of another that is not below it.
    pub fn append_child(&mut self, p: NodeId, c: NodeId)
        requires
            wf(old(self)@),
            has(old(self)@, p),
            has(old(self)@, c),
            old(self)@[c.at()].parent is None,
            !within(old(self)@, c, p),
        ensures
            final(self)@ == placed(old(self)@, p, c, old(self)@[p.at()].children.len() as int),
            wf(final(self)@),
            final(self).touched(),
    {
        let n: usize = self.nodes[p.raw as usize].children.len();
        proof {
            assert(self@[p.at()] == self.nodes@[p.at()]@);
        }
        self.place(p, c, n);
    }

    /// The position of a child among the children of a node.
    fn child_position(&self, p: NodeId, c: NodeId) -> (r: usize)
        requires
            wf(self@),
            has(self@, p),
            self@[p.at()].children.contains(c),
        ensures
            r == self@[p.at()].children.index_of(c),
            r < self@[p.at()].children.len(),
            self@[p.at()].children[r as int] == c,
    {
        let ghost kids = self@[p.at()].children;
        let n: usize = self.nodes[p.raw as usize].children.len();
        let mut k: usize = 0;
        proof {
            assert(self@[p.at()] == self.nodes@[p.at()]@);
        }
        while k < n && self.nodes[p.raw as usize].children[k].raw != c.raw
            invariant
                has(self@, p),
                kids == self.nodes@[p.at()].children@,
                n == kids.len(),
                k <= n,
                self@.len() == self.nodes@.len(),
                forall|j: int| 0 <= j < k ==> kids[j] != c,
            decreases n - k,
        {
            k = k + 1;
        }
        proof {
            let w = choose|w: int| 0 <= w < kids.len() && kids[w] == c;
            assert(k <= w);
            assert(kids[k as int] == c);
            assert(kids.no_duplicates());
            let m = kids.index_of(c);
            assert(kids[m] == c);
        }
        k
    }

    /// Makes a parentless node a child of another, just before one of its children.
    pub fn insert_before(&mut self, p: NodeId, c: NodeId, before: NodeId)
        requires
            wf(old(self)@),
            has(old(self)@, p),
            has(old(self)@, c),
            old(self)@[c.at()].parent is None,
            !within(old(self)@, c, p),
            old(self)@[p.at()].children.contains(before),
        ensures
            final(self)@ == placed(
                old(self)@,
                p,
                c,
                old(self)@[p.at()].children.index_of(before),
            ),
            wf(final(self)@),
            final(self).touched(),
    {
        let k = self.child_position(p, before);
        self.place(p, c, k);
    }

    /// Takes a node away from its parent, where it has one.
    pub fn detach(&mut self, c: NodeId)
        requires
            wf(old(self)@),
            has(old(self)@, c),
        ensures
            final(self)@ == detached(old(self)@, c),
            wf(final(self)@),
            final(self).touched() == (old(self).touched() || old(self)@[c.at()].parent is Some),
    {
        let ghost t = self@;
        proof {
            lemma_detached_wf(t, c);
            assert(t[c.at()] == self.nodes@[c.at()]@);
        }
        let ci: usize = c.raw as usize;
        let parent: Option<NodeId> = self.nodes[ci].parent;
        match parent {
            None => {},
            Some(p) => {
                proof {
                    lemma_parent(t, c);
                }
                let k = self.child_position(p, c);
                let pi: usize = p.raw as usize;
                self.nodes[pi].children.remove(k);
                self.nodes[ci].parent = None;
                self.changed = true;
                proof {
                    assert(self@ =~= detached(t, c));
                }
            },
        }
    }
}

/// The attributes of a node: those of an element, none of any other node.
pub open spec fn attrs_of(kind: KindView) -> Seq<(Seq<char>, Seq<char>)> {
    match kind {
        KindView::Element { tag, attrs } => attrs,
        _ => Seq::empty(),
    }
}

/// The tree with an attribute of a node set. Only elements have attributes.
pub open spec fn with_attr(t: Seq<NodeView>, id: NodeId, k: Seq<char>, v: Seq<char>) -> Seq<
    NodeView,
> {
    match t[id.at()].kind {
        KindView::Element { tag, attrs } => with_kind(
            t,
            id,
            KindView::Element { tag, attrs: pairs::with_value(attrs, k, v) },
        ),
        _ => t,
    }
}

/// The tree with an attribute of a node removed.
pub open spec fn without_attr(t: Seq<NodeView>, id: NodeId, k: Seq<char>) -> Seq<NodeView> {
    match t[id.at()].kind {
        KindView::Element { tag, attrs } => with_kind(
            t,
            id,
            KindView::Element { tag, attrs: pairs::without(attrs, k) },
        ),
        _ => t,
    }
}

/// The tree with all but the first children of a node detached.
pub open spec fn cropped(t: Seq<NodeView>, id: NodeId, n: int) -> Seq<NodeView> {
    let kept = t[id.at()].children.take(n);
    Seq::new(
        t.len(),
        |i: int|
            NodeView {
                kind: t[i].kind,
                parent: if t[i].parent == Some(id) && !kept.contains(NodeId { raw: i as u32 }) {
                    None
                } else {
                    t[i].parent
                },
                children: if i == id.at() {
                    kept
                } else {
                    t[i].children
                },
            },
    )
}

/// The tree with the text of a node replaced. A text or comment takes the text itself, a
/// doctype keeps its own, and any other node has its children replaced by one text node.
pub open spec fn with_text(t: Seq<NodeView>, id: NodeId, s: Seq<char>) -> Seq<NodeView> {
    match t[id.at()].kind {
        KindView::Text(_) => with_kind(t, id, KindView::Text(s)),
        KindView::Comment(_) => with_kind(t, id, KindView::Comment(s)),
        KindView::Doctype(_) => t,
        _ => placed(
            with_node(cropped(t, id, 0), KindView::Text(s)),
            id,
            NodeId { raw: t.len() as u32 },
            0,
        ),
    }
}

/// Detaching the last child that is left leaves one child fewer.
proof fn lemma_cropped_step(t: Seq<NodeView>, id: NodeId, n: int)
    requires
        wf(t),
        has(t, id),
        0 < n <= t[id.at()].children.len(),
    ensures
        detached(cropped(t, id, n), t[id.at()].children[n - 1]) == cropped(t, id, n - 1),
        has(t, t[id.at()].children[n - 1]),
{
    let kids = t[id.at()].children;
    let c = kids[n - 1];
    lemma_child(t, id, n - 1);
    let u = cropped(t, id, n);
    assert(kids.no_duplicates());
    assert(kids.take(n)[n - 1] == c);
    assert(kids.take(n).contains(c));
    assert(NodeId { raw: c.at() as u32 } == c);
    assert(u[c.at()].parent == Some(id));
    assert(c != id);
    let i = kids.take(n).index_of(c);
    assert(kids.take(n)[i] == c);
    assert(i == n - 1);
    let head = kids.take(n);
    let less = kids.take(n - 1);
    assert(head.remove(n - 1) =~= less);
    let v = detached(u, c);
    let w = cropped(t, id, n - 1);
    assert forall|j: int| 0 <= j < t.len() implies v[j] == w[j] by {
        let x = NodeId { raw: j as u32 };
        if x == c {
            assert(!less.contains(c)) by {
                if less.contains(c) {
                    let m = choose|m: int| 0 <= m < less.len() && less[m] == c;
                    assert(kids[m] == c);
                }
            }
        } else {
            assert(head.contains(x) == less.contains(x)) by {
                if head.contains(x) {
                    let m = choose|m: int| 0 <= m < head.len() && head[m] == x;
                    assert(less[m] == x);
                }
                if less.contains(x) {
                    let m = choose|m: int| 0 <= m < less.len() && less[m] == x;
                    assert(head[m] == x);
                }
            }
        }
    }
    assert(v =~= w);
}

/// With all its children kept, a tree is itself.
proof fn lemma_cropped_all(t: Seq<NodeView>, id: NodeId)
    requires
        wf(t),
        has(t, id),
    ensures
        cropped(t, id, t[id.at()].children.len() as int) == t,
{
    let kids = t[id.at()].children;
    let u = cropped(t, id, kids.len() as int);
    assert(kids.take(kids.len() as int) =~= kids);
    assert forall|j: int| 0 <= j < t.len() implies u[j] == t[j] by {
        if t[j].parent == Some(id) {
            lemma_parent(t, NodeId { raw: j as u32 });
        }
    }
    assert(u =~= t);
}

/// A copy of a node's kind.
pub fn copy_kind(k: &NodeKind) -> (r: NodeKind)
    ensures
        r@ == k@,
{
    match k {
        NodeKind::Document => NodeKind::Document,
        NodeKind::Doctype(s) => NodeKind::Doctype(text::copy(s)),
        NodeKind::Comment(s) => NodeKind::Comment(text::copy(s)),
        NodeKind::Text(s) => NodeKind::Text(text::copy(s)),
        NodeKind::Element { tag, attrs } => NodeKind::Element {
            tag: text::copy(tag),
            attrs: pairs::copy_pairs(attrs),
        },
    }
}

impl Dom {
    /// Replaces the kind of a node; the document stays the document.
    pub fn set_kind(&mut self, id: NodeId, kind: NodeKind)
        requires
            wf(old(self)@),
            has(old(self)@, id),
            id.at() == 0 ==> kind is Document,
        ensures
            final(self)@ == with_kind(old(self)@, id, kind@),
            wf(final(self)@),
            final(self).touched(),
    {
        let ghost t = self@;
        let ghost kv = kind@;
        proof {
            lemma_with_kind_wf(t, id, kv);
        }
        let i: usize = id.raw as usize;
        self.nodes[i].kind = kind;
        self.changed = true;
        proof {
            assert(self@ =~= with_kind(t, id, kv));
        }
    }

    /// Sets an attribute of an element; other nodes stay as they are.
    pub fn set_attribute(&mut self, id: NodeId, name: &str, value: String)
        requires
            wf(old(self)@),
            has(old(self)@, id),
        ensures
            final(self)@ == with_attr(old(self)@, id, name@, value@),
            wf(final(self)@),
            final(self).touched() == (old(self).touched() || old(self)@[id.at()].kind is Element),
    {
        let i: usize = id.raw as usize;
        proof {
            assert(self@[id.at()] == self.nodes@[id.at()]@);
        }
        let kind: NodeKind = match &self.nodes[i].kind {
            NodeKind::Element { tag, attrs } => {
                let mut list = pairs::copy_pairs(attrs);
                pairs::set_value(&mut list, name, value);
                NodeKind::Element { tag: text::copy(tag), attrs: list }
            },
            _ => {
                return ;
            },
        };
        self.set_kind(id, kind);
    }

    /// Removes an attribute of an element; other nodes stay as they are.
    pub fn remove_attribute(&mut self, id: NodeId, name: &str)
        requires
            wf(old(self)@),
            has(old(self)@, id),
        ensures
            final(self)@ == without_attr(old(self)@, id, name@),
            wf(final(self)@),
            final(self).touched() == (old(self).touched() || old(self)@[id.at()].kind is Element),
    {
        let i: usize = id.raw as usize;
        proof {
            assert(self@[id.at()] == self.nodes@[id.at()]@);
        }
        let kind: NodeKind = match &self.nodes[i].kind {
            NodeKind::Element { tag, attrs } => NodeKind::Element {
                tag: text::copy(tag),
                attrs: pairs::drop_name(attrs, name),
            },
            _ => {
                return ;
            },
        };
        self.set_kind(id, kind);
    }

    /// Detaches all children of a node.
    pub fn detach_children(&mut self, id: NodeId)
        requires
            wf(old(self)@),
            has(old(self)@, id),
        ensures
            final(self)@ == cropped(old(self)@, id, 0),
            wf(final(self)@),
            final(self).touched() == (old(self).touched() || old(self)@[id.at()].children.len() > 0),
    {
        let ghost t = self@;
        let kids = self.children(id);
        let mut n: usize = kids.len();
        proof {
            lemma_cropped_all(t, id);
        }
        while n > 0
            invariant
                wf(t),
                has(t, id),
                kids@ == t[id.at()].children,
                n <= kids@.len(),
                self@ == cropped(t, id, n as int),
                wf(self@),
                self.touched() == (old(self).touched() || n < kids@.len()),
            decreases n,
        {
            proof {
                lemma_cropped_step(t, id, n as int);
            }
            n = n - 1;
            proof {
                lemma_child(self@, id, n as int);
                assert(self@[id.at()].children[n as int] == kids@[n as int]);
            }
            self.detach(kids[n]);
        }
    }

    /// Replaces the text of a node.
    pub fn set_text_content(&mut self, id: NodeId, content: String)
        requires
            wf(old(self)@),
            has(old(self)@, id),
            old(self)@.len() < u32::MAX,
        ensures
            final(self)@ == with_text(old(self)@, id, content@),
            wf(final(self)@),
            final(self).touched() == (old(self).touched() || !(old(self)@[id.at()].kind is Doctype)),
    {
        let ghost t = self@;
        let i: usize = id.raw as usize;
        proof {
            assert(t[id.at()] == self.nodes@[id.at()]@);
        }
        match &self.nodes[i].kind {
            NodeKind::Text(_) => {
                self.set_kind(id, NodeKind::Text(content));
            },
            NodeKind::Comment(_) => {
                self.set_kind(id, NodeKind::Comment(content));
            },
            NodeKind::Doctype(_) => {},
            _ => {
                self.detach_children(id);
                let ghost u = self@;
                let c = self.create_text(content);
                proof {
                    assert(self@[c.at()].children.len() == 0);
                    assert(!within(self@, c, id));
                    assert(self@[id.at()].children =~= Seq::empty());
                }
                self.append_child(id, c);
            },
        }
    }
}

/// Whether two nodes, each of its own tree, have the same kind and, one by one, children for
/// which the same holds.
pub open spec fn same_shape(s: Seq<NodeView>, a: NodeId, t: Seq<NodeView>, b: NodeId) -> bool
    decreases rank(s, a),
    when wf(s) && has(s, a)
    via same_shape_decreases
{
    &&& has(t, b)
    &&& s[a.at()].kind == t[b.at()].kind
    &&& s[a.at()].children.len() == t[b.at()].children.len()
    &&& forall|k: int|
        0 <= k < s[a.at()].children.len() ==> same_shape(
            s,
            #[trigger] s[a.at()].children[k],
            t,
            t[b.at()].children[k],
        )
}

#[via_fn]
proof fn same_shape_decreases(s: Seq<NodeView>, a: NodeId, t: Seq<NodeView>, b: NodeId) {
    assert forall|k: int| 0 <= k < s[a.at()].children.len() implies rank(
        s,
        #[trigger] s[a.at()].children[k],
    ) < rank(s, a) by {
        lemma_child(s, a, k);
    }
}

/// Whether the children of each node from a place on come after it.
pub open spec fn forward(t: Seq<NodeView>, lo: int) -> bool {
    forall|i: int, k: int|
        #![trigger t[i].children[k]]
        lo <= i < t.len() && 0 <= k < t[i].children.len() ==> i < t[i].children[k].at()
}

/// What is within a node of a forward stretch does not come before it.
pub proof fn lemma_forward_within(t: Seq<NodeView>, lo: int, top: NodeId, id: NodeId)
    requires
        wf(t),
        has(t, top),
        forward(t, lo),
        lo <= top.at(),
        within(t, top, id),
    ensures
        top.at() <= id.at(),
    decreases rank(t, top),
{
    if top != id {
        let k = choose|k: int|
            0 <= k < t[top.at()].children.len() && within(t, #[trigger] t[top.at()].children[k], id);
        lemma_child(t, top, k);
        lemma_forward_within(t, lo, t[top.at()].children[k], id);
    }
}

/// A shape stays where the kinds and children from a place on stay.
pub proof fn lemma_shape_frame(s: Seq<NodeView>, a: NodeId, t: Seq<NodeView>, u: Seq<NodeView>, b: NodeId)
    requires
        wf(s),
        has(s, a),
        same_shape(s, a, t, b),
        forward(t, b.at()),
        t.len() <= u.len(),
        forall|i: int|
            b.at() <= i < t.len() ==> (#[trigger] u[i]).kind == t[i].kind && u[i].children
                == t[i].children,
    ensures
        same_shape(s, a, u, b),
    decreases rank(s, a),
{
    assert(u[b.at()].kind == t[b.at()].kind);
    assert forall|k: int| 0 <= k < s[a.at()].children.len() implies same_shape(
        s,
        #[trigger] s[a.at()].children[k],
        u,
        u[b.at()].children[k],
    ) by {
        lemma_child(s, a, k);
        assert(same_shape(s, s[a.at()].children[k], t, t[b.at()].children[k]));
        lemma_shape_frame(s, s[a.at()].children[k], t, u, t[b.at()].children[k]);
    }
}

/// Sameness of shape carries over.
pub proof fn lemma_shape_transitive(
    s: Seq<NodeView>,
    a: NodeId,
    t: Seq<NodeView>,
    b: NodeId,
    u: Seq<NodeView>,
    c: NodeId,
)
    requires
        wf(s),
        has(s, a),
        wf(t),
        same_shape(s, a, t, b),
        same_shape(t, b, u, c),
    ensures
        same_shape(s, a, u, c),
    decreases rank(s, a),
{
    assert forall|k: int| 0 <= k < s[a.at()].children.len() implies same_shape(
        s,
        #[trigger] s[a.at()].children[k],
        u,
        u[c.at()].children[k],
    ) by {
        lemma_child(s, a, k);
        lemma_child(t, b, k);
        assert(same_shape(s, s[a.at()].children[k], t, t[b.at()].children[k]));
        assert(same_shape(t, t[b.at()].children[k], u, u[c.at()].children[k]));
        lemma_shape_transitive(
            s,
            s[a.at()].children[k],
            t,
            t[b.at()].children[k],
            u,
            u[c.at()].children[k],
        );
    }
}

/// Nodes of the same shape have subtrees of the same size.
pub proof fn lemma_shape_size(s: Seq<NodeView>, a: NodeId, t: Seq<NodeView>, b: NodeId)
    requires
        wf(s),
        has(s, a),
        wf(t),
        same_shape(s, a, t, b),
    ensures
        subtree(s, a).len() == subtree(t, b).len(),
{
    lemma_shape_below(s, a, t, b, s[a.at()].children.len() as int);
}

proof fn lemma_shape_below(s: Seq<NodeView>, a: NodeId, t: Seq<NodeView>, b: NodeId, n: int)
    requires
        wf(s),
        has(s, a),
        wf(t),
        same_shape(s, a, t, b),
        0 <= n <= s[a.at()].children.len(),
    ensures
        subtrees_below(s, a, n).len() == subtrees_below(t, b, n).len(),
    decreases rank(s, a), n,
{
    if n > 0 {
        lemma_shape_below(s, a, t, b, n - 1);
        lemma_child(s, a, n - 1);
        lemma_child(t, b, n - 1);
        let c = s[a.at()].children[n - 1];
        let d = t[b.at()].children[n - 1];
        assert(same_shape(s, c, t, d));
        lemma_shape_below(s, c, t, d, s[c.at()].children.len() as int);
        assert(subtree(s, c) == seq![c] + subtrees_below(s, c, s[c.at()].children.len() as int));
        assert(subtree(t, d) == seq![d] + subtrees_below(t, d, t[d.at()].children.len() as int));
    }
}

/// The first children of a node have no more below them than all of its children.
proof fn lemma_below_grows(t: Seq<NodeView>, id: NodeId, n: int, m: int)
    requires
        wf(t),
        has(t, id),
        0 <= n <= m <= t[id.at()].children.len(),
    ensures
        subtrees_below(t, id, n).len() <= subtrees_below(t, id, m).len(),
    decreases m - n,
{
    if n < m {
        lemma_below_grows(t, id, n, m - 1);
    }
}

impl Dom {
    /// Copies a node of another document, with all below it. The copy has no parent.
    pub fn adopt_subtree(&mut self, src: &Dom, n: NodeId) -> (r: NodeId)
        requires
            wf(old(self)@),
            wf(src@),
            has(src@, n),
            old(self)@.len() + subtree(src@, n).len() <= u32::MAX,
        ensures
            wf(final(self)@),
            final(self)@.len() == old(self)@.len() + subtree(src@, n).len(),
            final(self)@.take(old(self)@.len() as int) == old(self)@,
            r.at() == old(self)@.len(),
            final(self)@[r.at()].parent is None,
            same_shape(src@, n, final(self)@, r),
            forward(final(self)@, old(self)@.len() as int),
            final(self).touched(),
        decreases rank(src@, n),
    {
        let ghost t0 = self@;
        let ghost s = src@;
        let kids = src.children(n);
        proof {
            lemma_below_grows(s, n, 0, kids@.len() as int);
        }
        let m = self.create(copy_kind(&src.node(n).kind));
        let mut k: usize = 0;
        proof {
            assert(subtrees_below(s, n, 0).len() == 0);
            assert(self@.take(t0.len() as int) =~= t0);
        }
        while k < kids.len()
            invariant
                s == src@,
                wf(s),
                has(s, n),
                kids@ == s[n.at()].children,
                k <= kids@.len(),
                t0.len() + subtree(s, n).len() <= u32::MAX,
                wf(self@),
                self@.len() == t0.len() + 1 + subtrees_below(s, n, k as int).len(),
                self@.take(t0.len() as int) == t0,
                m.at() == t0.len(),
                self@[m.at()].parent is None,
                self@[m.at()].kind == s[n.at()].kind,
                self@[m.at()].children.len() == k,
                forall|j: int|
                    0 <= j < k ==> same_shape(
                        s,
                        #[trigger] s[n.at()].children[j],
                        self@,
                        self@[m.at()].children[j],
                    ),
                forward(self@, t0.len() as int),
                self.touched(),
            decreases kids@.len() - k,
        {
            let ghost t1 = self@;
            proof {
                lemma_child(s, n, k as int);
                lemma_below_grows(s, n, k + 1, kids@.len() as int);
            }
            let c = self.adopt_subtree(src, kids[k]);
            let ghost t2 = self@;
            proof {
                assert forall|i: int| 0 <= i < t1.len() implies t2[i] == t1[i] by {
                    assert(t2.take(t1.len() as int)[i] == t1[i]);
                }
                assert(t2[m.at()] == t1[m.at()]);
                assert(forward(t2, t0.len() as int)) by {
                    assert forall|i: int, q: int|
                        #![trigger t2[i].children[q]]
                        t0.len() <= i < t2.len() && 0 <= q < t2[i].children.len() implies i
                        < t2[i].children[q].at() by {
                        if i < t1.len() {
                            assert(t2[i] == t1[i]);
                            assert(i < t1[i].children[q].at());
                        }
                    }
                }
                if within(t2, c, m) {
                    lemma_forward_within(t2, t1.len() as int, c, m);
                }
            }
            self.append_child(m, c);
            proof {
                let t3 = self@;
                assert forall|i: int| 0 <= i < t3.len() && i != m.at() implies (
                #[trigger] t3[i]).children == t2[i].children && t3[i].kind == t2[i].kind by {}
                assert(t3[m.at()].children == t2[m.at()].children.insert(k as int, c));
                assert(t3[m.at()].children =~= t1[m.at()].children.push(c));
                assert forall|j: int| 0 <= j < k + 1 implies same_shape(
                    s,
                    #[trigger] s[n.at()].children[j],
                    t3,
                    t3[m.at()].children[j],
                ) by {
                    let a = s[n.at()].children[j];
                    lemma_child(s, n, j);
                    if j < k {
                        let b = t1[m.at()].children[j];
                        assert(same_shape(s, s[n.at()].children[j], t1, t1[m.at()].children[j]));
                        assert(m.at() < b.at());
                        lemma_shape_frame(s, a, t1, t3, b);
                    } else {
                        lemma_shape_frame(s, a, t2, t3, c);
                    }
                }
                assert(forward(t3, t0.len() as int)) by {
                    assert forall|i: int, q: int|
                        #![trigger t3[i].children[q]]
                        t0.len() <= i < t3.len() && 0 <= q < t3[i].children.len() implies i
                        < t3[i].children[q].at() by {
                        if i == m.at() {
                            if q < k {
                                assert(t3[i].children[q] == t1[i].children[q]);
                                assert(i < t1[i].children[q].at());
                            }
                        } else {
                            assert(t3[i].children == t2[i].children);
                            assert(i < t2[i].children[q].at());
                        }
                    }
                }
                assert(t3.take(t0.len() as int) =~= t0) by {
                    assert forall|i: int| 0 <= i < t0.len() implies t3[i] == t0[i] by {
                        assert(t1.take(t0.len() as int)[i] == t0[i]);
                        assert(t1[i] == t0[i]);
                        assert(t2[i] == t1[i]);
                    }
                }
            }
            k = k + 1;
        }
        m
    }

    /// Copies a node of this document, with all below it. The copy has no parent.
    pub fn clone_subtree(&mut self, n: NodeId) -> (r: NodeId)
        requires
            wf(old(self)@),
            has(old(self)@, n),
            old(self)@.len() + subtree(old(self)@, n).len() <= u32::MAX,
        ensures
            wf(final(self)@),
            final(self)@.len() == old(self)@.len() + subtree(old(self)@, n).len(),
            final(self)@.take(old(self)@.len() as int) == old(self)@,
            r.at() == old(self)@.len(),
            final(self)@[r.at()].parent is None,
            same_shape(old(self)@, n, final(self)@, r),
            final(self).touched(),
    {
        let ghost t = self@;
        let mut copy = Dom::new();
        let m = copy.adopt_subtree(self, n);
        proof {
            lemma_shape_size(t, n, copy@, m);
        }
        let r = self.adopt_subtree(&copy, m);
        proof {
            lemma_shape_transitive(t, n, copy@, m, self@, r);
        }
        r
    }
}

/// Taking a node away from its parent puts nothing within a node that was not within it.
pub proof fn lemma_detached_within(t: Seq<NodeView>, c: NodeId, top: NodeId, id: NodeId)
    requires
        wf(t),
        has(t, c),
        has(t, top),
        within(detached(t, c), top, id),
    ensures
        within(t, top, id),
    decreases rank(detached(t, c), top),
{
    let u = detached(t, c);
    lemma_detached_wf(t, c);
    if top != id {
        let k = choose|k: int|
            0 <= k < u[top.at()].children.len() && within(u, #[trigger] u[top.at()].children[k], id);
        let x = u[top.at()].children[k];
        lemma_child(u, top, k);
        lemma_detached_within(t, c, x, id);
        assert(exists|m: int|
            0 <= m < t[top.at()].children.len() && #[trigger] t[top.at()].children[m] == x) by {
            if t[c.at()].parent is Some && top == t[c.at()].parent->0 {
                lemma_parent(t, c);
                let i = t[top.at()].children.index_of(c);
                assert(0 <= i < t[top.at()].children.len());
                if k < i {
                    assert(t[top.at()].children[k] == x);
                } else {
                    assert(t[top.at()].children[k + 1] == x);
                }
            } else {
                assert(t[top.at()].children[k] == x);
            }
        }
        let m = choose|m: int|
            0 <= m < t[top.at()].children.len() && #[trigger] t[top.at()].children[m] == x;
        assert(within(t, t[top.at()].children[m], id));
    }
}

/// A node that was placed and is taken away again leaves the tree as it was.
pub proof fn placed_then_detached(t: Seq<NodeView>, p: NodeId, c: NodeId, i: int)
    requires
        wf(t),
        has(t, p),
        has(t, c),
        t[c.at()].parent is None,
        !within(t, c, p),
        0 <= i <= t[p.at()].children.len(),
    ensures
        detached(placed(t, p, c, i), c) == t,
{
    let u = placed(t, p, c, i);
    lemma_placed_wf(t, p, c, i);
    assert(c != p) by {
        assert(within(t, c, c));
    }
    let kids = u[p.at()].children;
    assert(kids[i] == c);
    assert(kids.contains(c));
    assert(kids.no_duplicates());
    assert(kids[kids.index_of(c)] == c);
    assert(kids.index_of(c) == i);
    assert(kids.remove(i) =~= t[p.at()].children);
    assert(detached(u, c) =~= t);
}

/// A node that is placed becomes a child of its new parent, at its position and with the others around
/// it in order. No node is added or lost, each keeps its kind, and all others keep their parents and
/// children.
pub proof fn placed_children_stand_in_order(
    t: Seq<NodeView>,
    p: NodeId,
    c: NodeId,
    i: int,
    x: int,
)
    requires
        has(t, p),
        has(t, c),
        p != c,
        0 <= i <= t[p.at()].children.len(),
        0 <= x < t.len(),
    ensures
        ({
            let u = placed(t, p, c, i);
            &&& u.len() == t.len()
            &&& u[x].kind == t[x].kind
            &&& u[c.at()].parent == Some(p)
            &&& u[p.at()].children == t[p.at()].children.take(i).push(c)
                + t[p.at()].children.skip(i)
            &&& x != c.at() ==> u[x].parent == t[x].parent
            &&& x != p.at() ==> u[x].children == t[x].children
        }),
{
    assert(t[p.at()].children.insert(i, c) =~= t[p.at()].children.take(i).push(c)
        + t[p.at()].children.skip(i));
}

/// A node that is taken away is a child of no node, while its own children stay with it. All other
/// nodes keep their parents, and their other children in order.
pub proof fn detached_nodes_stand_alone(t: Seq<NodeView>, c: NodeId, x: int, y: NodeId)
    requires
        wf(t),
        has(t, c),
        0 <= x < t.len(),
    ensures
        ({
            let u = detached(t, c);
            &&& u.len() == t.len()
            &&& u[x].kind == t[x].kind
            &&& u[c.at()].parent is None
            &&& x != c.at() ==> u[x].parent == t[x].parent
            &&& u[x].children.contains(y) <==> t[x].children.contains(y) && y != c
            &&& u[x].children == t[x].children.filter(|n: NodeId| n != c)
        }),
{
    let u = detached(t, c);
    let keep = |n: NodeId| n != c;
    let v = t[x].children;
    if v.contains(c) {
        let k = v.index_of(c);
        assert(t[x].children[k] == c);
        assert(t[c.at()].parent == Some(NodeId { raw: x as u32 }));
        lemma_filter_one(v, c, k);
        lemma_child(t, NodeId { raw: x as u32 }, k);
    } else {
        lemma_filter_none(v, c);
        if t[c.at()].parent is Some {
            let p = t[c.at()].parent->0;
            lemma_parent(t, c);
            assert(t[c.at()].parent is Some);
            assert(NodeId { raw: c.at() as u32 } == c);
            assert(t[p.at()].children.contains(c));
            assert(x != p.at());
        }
    }
    if v.filter(keep).contains(y) {
        v.lemma_filter_pred(keep, v.filter(keep).index_of(y));
        v.lemma_filter_contains_rev(keep, y);
    }
    if v.contains(y) && y != c {
        v.lemma_filter_contains(keep, v.index_of(y));
    }
}

proof fn lemma_filter_none(v: Seq<NodeId>, c: NodeId)
    requires
        !v.contains(c),
    ensures
        v.filter(|n: NodeId| n != c) == v,
    decreases v.len(),
{
    reveal(Seq::filter);
    if v.len() > 0 {
        let w = v.drop_last();
        if w.contains(c) {
            assert(v[w.index_of(c)] == c);
        }
        lemma_filter_none(w, c);
        assert(v[v.len() - 1] != c) by {
            assert(v.contains(v[v.len() - 1]));
        }
        assert(w.push(v.last()) =~= v);
    }
}

proof fn lemma_filter_one(v: Seq<NodeId>, c: NodeId, k: int)
    requires
        0 <= k < v.len(),
        v[k] == c,
        v.no_duplicates(),
    ensures
        v.filter(|n: NodeId| n != c) == v.remove(k),
    decreases v.len(),
{
    reveal(Seq::filter);
    let w = v.drop_last();
    if k == v.len() - 1 {
        if w.contains(c) {
            assert(v[w.index_of(c)] == c);
        }
        lemma_filter_none(w, c);
        assert(v.remove(k) =~= w);
    } else {
        lemma_filter_one(w, c, k);
        assert(v.last() != c);
        assert(w.remove(k).push(v.last()) =~= v.remove(k));
    }
}

/// Nodes that are cut off have no parent, those that are kept stay in order, and nothing changes
/// elsewhere.
pub proof fn cropping_keeps_the_first(t: Seq<NodeView>, id: NodeId, n: int, x: int, k: int)
    requires
        wf(t),
        has(t, id),
        0 <= n <= t[id.at()].children.len(),
        0 <= x < t.len(),
        0 <= k < t[id.at()].children.len(),
    ensures
        ({
            let u = cropped(t, id, n);
            &&& u.len() == t.len()
            &&& u[x].kind == t[x].kind
            &&& u[id.at()].children.len() == n
            &&& k < n ==> u[id.at()].children[k] == t[id.at()].children[k]
                && u[t[id.at()].children[k].at()].parent == Some(id)
            &&& k >= n ==> u[t[id.at()].children[k].at()].parent is None
            &&& x != id.at() ==> u[x].children == t[x].children
            &&& t[x].parent != Some(id) ==> u[x].parent == t[x].parent
        }),
{
    let v = t[id.at()].children;
    let kept = v.take(n);
    let c = v[k];
    lemma_child(t, id, k);
    assert(NodeId { raw: c.at() as u32 } == c);
    if k < n {
        assert(kept[k] == c);
    } else if kept.contains(c) {
        let j = kept.index_of(c);
        assert(v[j] == c);
    }
}

/// The nodes of a subtree are the node itself and, in order, those of the subtrees of its children.
pub proof fn subtrees_list_children_in_order(t: Seq<NodeView>, id: NodeId, i: int, j: int)
    requires
        wf(t),
        has(t, id),
        0 <= i < j < t[id.at()].children.len(),
    ensures
        subtree(t, id)[0] == id,
        ({
            let a = subtree(t, id).index_of(t[id.at()].children[i]);
            let b = subtree(t, id).index_of(t[id.at()].children[j]);
            0 < a < b < subtree(t, id).len()
        }),
{
    let v = t[id.at()].children;
    let s = subtree(t, id);
    let n = v.len() as int;
    subtree_lists_each_once(t, id);
    let a = lemma_child_place(t, id, i, n);
    let b = lemma_child_place(t, id, j, n);
    lemma_child_place_order(t, id, i, j, n);
    assert(s == seq![id] + subtrees_below(t, id, n));
    assert(s[a + 1] == v[i]);
    assert(s[b + 1] == v[j]);
    assert(s.contains(v[i]));
    assert(s.contains(v[j]));
}

/// Where the subtree of a child begins among those of the first children.
pub open spec fn child_place(t: Seq<NodeView>, id: NodeId, i: int) -> int {
    subtrees_below(t, id, i).len() as int
}

proof fn lemma_child_place(t: Seq<NodeView>, id: NodeId, i: int, n: int) -> (a: int)
    requires
        wf(t),
        has(t, id),
        0 <= i < n <= t[id.at()].children.len(),
    ensures
        a == child_place(t, id, i),
        0 <= a < subtrees_below(t, id, n).len(),
        subtrees_below(t, id, n)[a] == t[id.at()].children[i],
    decreases n,
{
    let a = child_place(t, id, i);
    if n == i + 1 {
        let c = t[id.at()].children[i];
        lemma_child(t, id, i);
        assert(subtree(t, c)[0] == c);
        assert(subtree(t, c).len() >= 1);
        assert(subtrees_below(t, id, n) == subtrees_below(t, id, i) + subtree(t, c));
    } else {
        let _ = lemma_child_place(t, id, i, n - 1);
        assert(subtrees_below(t, id, n) == subtrees_below(t, id, n - 1) + subtree(
            t,
            t[id.at()].children[n - 1],
        ));
    }
    a
}

proof fn lemma_child_place_order(t: Seq<NodeView>, id: NodeId, i: int, j: int, n: int)
    requires
        wf(t),
        has(t, id),
        0 <= i < j < n <= t[id.at()].children.len(),
    ensures
        child_place(t, id, i) < child_place(t, id, j),
{
    let _ = lemma_child_place(t, id, i, j);
}

} // verus!
