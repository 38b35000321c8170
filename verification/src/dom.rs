//! Reading a document: finding elements, their text, and the text of the document as markup.
use crate::mutate;
use crate::observers;
use crate::observers::ObserverState;
use crate::pairs;
use crate::selector;
use crate::selector::Selector;
use crate::text;
use crate::text::CharClass;
use crate::tree;
use crate::tree::{Dom, KindView, NodeId, NodeKind, NodeView};
use vstd::prelude::*;

verus! {

/// The first node of a list with a property.
pub open spec fn first_of(v: Seq<NodeId>, p: spec_fn(NodeId) -> bool) -> Option<NodeId> {
    let i = pairs::position(v, p);
    if i < v.len() {
        Some(v[i])
    } else {
        None
    }
}

/// Whether a node is an element.
pub open spec fn is_element(t: Seq<NodeView>) -> spec_fn(NodeId) -> bool {
    |n: NodeId| t[n.at()].kind is Element
}

/// Whether a node is an element with the tag.
pub open spec fn has_tag(t: Seq<NodeView>, tag: Seq<char>) -> spec_fn(NodeId) -> bool {
    |n: NodeId| t[n.at()].kind matches KindView::Element { tag: own, .. } && own == tag
}

/// Whether a node is an element one of whose `id` attributes is the given one.
pub open spec fn has_id(t: Seq<NodeView>, id: Seq<char>) -> spec_fn(NodeId) -> bool {
    |n: NodeId| tree::attrs_of(t[n.at()].kind).contains(("id"@, id))
}

/// Whether a node is an element that one of the selectors asks for.
pub open spec fn is_hit(t: Seq<NodeView>, sels: Seq<Seq<selector::StepView>>) -> spec_fn(
    NodeId,
) -> bool {
    |n: NodeId| t[n.at()].kind is Element && selector::matches_any(t, sels, n)
}

/// The document's first child that is an element.
pub open spec fn root_element(t: Seq<NodeView>) -> Option<NodeId> {
    first_of(t[0].children, is_element(t))
}

/// The first element of the document, in document order, with the `id`.
pub open spec fn element_by_id(t: Seq<NodeView>, id: Seq<char>) -> Option<NodeId> {
    match root_element(t) {
        Some(root) => first_of(tree::subtree(t, root), has_id(t, id)),
        None => None,
    }
}

/// The nodes of a list that the selectors ask for; only the first of them, where no more is
/// wanted.
pub open spec fn hits(
    t: Seq<NodeView>,
    v: Seq<NodeId>,
    sels: Seq<Seq<selector::StepView>>,
    first_only: bool,
) -> Seq<NodeId> {
    let all = v.filter(is_hit(t, sels));
    if first_only && all.len() > 0 {
        all.take(1)
    } else {
        all
    }
}

/// The nodes below a node, in document order.
pub open spec fn below(t: Seq<NodeView>, id: NodeId) -> Seq<NodeId> {
    tree::subtrees_below(t, id, t[id.at()].children.len() as int)
}

/// The text of a node: its own for a text node, that of its children for an element or the
/// document, none for the rest.
pub open spec fn text_of(t: Seq<NodeView>, id: NodeId) -> Seq<char>
    decreases tree::rank(t, id), t[id.at()].children.len() + 1,
    when tree::wf(t) && tree::has(t, id)
{
    match t[id.at()].kind {
        KindView::Text(s) => s,
        KindView::Element { .. } => text_below(t, id, t[id.at()].children.len() as int),
        KindView::Document => text_below(t, id, t[id.at()].children.len() as int),
        _ => Seq::empty(),
    }
}

/// The text of the first children of a node.
pub open spec fn text_below(t: Seq<NodeView>, id: NodeId, n: int) -> Seq<char>
    decreases tree::rank(t, id), n,
    when tree::wf(t) && tree::has(t, id) && 0 <= n <= t[id.at()].children.len()
    via text_below_decreases
{
    if n <= 0 {
        Seq::empty()
    } else {
        text_below(t, id, n - 1) + text_of(t, t[id.at()].children[n - 1])
    }
}

#[via_fn]
proof fn text_below_decreases(t: Seq<NodeView>, id: NodeId, n: int) {
    if n > 0 {
        tree::lemma_child(t, id, n - 1);
    }
}

/// The document's title: the text of the first `title` element.
pub open spec fn title_of(t: Seq<NodeView>) -> Seq<char> {
    match root_element(t) {
        Some(root) => match first_of(tree::subtree(t, root), has_tag(t, "title"@)) {
            Some(n) => text_of(t, n),
            None => Seq::empty(),
        },
        None => Seq::empty(),
    }
}

/// Whether a node is editable: it or the nearest node above it that says so.
pub open spec fn editable(t: Seq<NodeView>, id: NodeId) -> bool
    decreases tree::top_rank(t) - tree::rank(t, id),
    when tree::wf(t) && tree::has(t, id)
    via editable_decreases
{
    match said_editable(t[id.at()].kind) {
        Some(b) => b,
        None => match t[id.at()].parent {
            Some(p) => editable(t, p),
            None => false,
        },
    }
}

#[via_fn]
proof fn editable_decreases(t: Seq<NodeView>, id: NodeId) {
    if t[id.at()].parent is Some {
        tree::lemma_parent(t, id);
        tree::lemma_top_rank(t, id);
        tree::lemma_top_rank(t, t[id.at()].parent->0);
    }
}

/// What an element itself says on being editable.
pub open spec fn said_editable(kind: KindView) -> Option<bool> {
    match pairs::value_ignoring_case(tree::attrs_of(kind), "contenteditable"@) {
        None => None,
        Some(v) => {
            let w = text::lower(v);
            if w == "true"@ || w == ""@ || w == "plaintext-only"@ {
                Some(true)
            } else if w == "false"@ {
                Some(false)
            } else {
                None
            }
        },
    }
}

/// The document's first child that is an element.
pub fn find_root_element(dom: &Dom) -> (r: Option<NodeId>)
    requires
        tree::wf(dom@),
    ensures
        r == root_element(dom@),
        r matches Some(n) ==> tree::has(dom@, n),
{
    let ghost t = dom@;
    let kids = dom.children(dom.document());
    let mut i: usize = 0;
    while i < kids.len()
        invariant
            i <= kids@.len(),
            t == dom@,
            tree::wf(t),
            kids@ == t[0].children,
            forall|j: int| 0 <= j < i ==> !is_element(t)(#[trigger] kids@[j]),
        decreases kids@.len() - i,
    {
        proof {
            tree::lemma_child(t, NodeId { raw: 0 }, i as int);
        }
        match &dom.node(kids[i]).kind {
            NodeKind::Element { .. } => {
                proof {
                    pairs::lemma_position(kids@, is_element(t), i as int);
                }
                return Some(kids[i]);
            },
            _ => {},
        }
        i = i + 1;
    }
    proof {
        pairs::lemma_position(kids@, is_element(t), i as int);
    }
    None
}

/// The first element with the tag among a node and all below it.
pub fn find_descendant_by_tag(dom: &Dom, root: NodeId, tag_name: &str) -> (r: Option<NodeId>)
    requires
        tree::wf(dom@),
        tree::has(dom@, root),
    ensures
        r == first_of(tree::subtree(dom@, root), has_tag(dom@, tag_name@)),
        r matches Some(n) ==> tree::has(dom@, n),
{
    let ghost t = dom@;
    let order = dom.preorder(root);
    let mut i: usize = 0;
    while i < order.len()
        invariant
            i <= order@.len(),
            t == dom@,
            order@ == tree::subtree(t, root),
            forall|j: int| 0 <= j < order@.len() ==> tree::has(t, #[trigger] order@[j]),
            forall|j: int| 0 <= j < i ==> !has_tag(t, tag_name@)(#[trigger] order@[j]),
        decreases order@.len() - i,
    {
        match &dom.node(order[i]).kind {
            NodeKind::Element { tag, .. } => {
                if text::same(tag, tag_name) {
                    proof {
                        pairs::lemma_position(order@, has_tag(t, tag_name@), i as int);
                    }
                    return Some(order[i]);
                }
            },
            _ => {},
        }
        i = i + 1;
    }
    proof {
        pairs::lemma_position(order@, has_tag(t, tag_name@), i as int);
    }
    None
}

/// Whether one of the attributes is exactly the given one.
fn has_pair(attrs: &Vec<(String, String)>, k: &str, v: &str) -> (r: bool)
    ensures
        r == text::pair_texts(attrs@).contains((k@, v@)),
{
    let ghost a = text::pair_texts(attrs@);
    let mut i: usize = 0;
    while i < attrs.len()
        invariant
            i <= attrs@.len(),
            a == text::pair_texts(attrs@),
            forall|j: int| 0 <= j < i ==> #[trigger] a[j] != (k@, v@),
        decreases attrs@.len() - i,
    {
        proof {
            assert(a[i as int] == (attrs@[i as int].0@, attrs@[i as int].1@));
        }
        if text::same(&attrs[i].0, k) && text::same(&attrs[i].1, v) {
            return true;
        }
        i = i + 1;
    }
    false
}

/// The first element of the document with the `id`.
pub fn find_by_id(dom: &Dom, wanted: &str) -> (r: Option<NodeId>)
    requires
        tree::wf(dom@),
    ensures
        r == element_by_id(dom@, wanted@),
        r matches Some(n) ==> tree::has(dom@, n),
{
    let ghost t = dom@;
    let root = match find_root_element(dom) {
        Some(n) => n,
        None => {
            return None;
        },
    };
    let order = dom.preorder(root);
    let mut i: usize = 0;
    while i < order.len()
        invariant
            i <= order@.len(),
            t == dom@,
            root_element(t) == Some(root),
            order@ == tree::subtree(t, root),
            forall|j: int| 0 <= j < order@.len() ==> tree::has(t, #[trigger] order@[j]),
            forall|j: int| 0 <= j < i ==> !has_id(t, wanted@)(#[trigger] order@[j]),
        decreases order@.len() - i,
    {
        match &dom.node(order[i]).kind {
            NodeKind::Element { attrs, .. } => {
                if has_pair(attrs, "id", wanted) {
                    proof {
                        pairs::lemma_position(order@, has_id(t, wanted@), i as int);
                    }
                    return Some(order[i]);
                }
            },
            _ => {},
        }
        i = i + 1;
    }
    proof {
        pairs::lemma_position(order@, has_id(t, wanted@), i as int);
    }
    None
}

/// What is left to read: the text of the topmost node of a stack, and so on down.
pub open spec fn pending_text(t: Seq<NodeView>, stack: Seq<NodeId>) -> Seq<char>
    decreases stack.len(),
{
    if stack.len() == 0 {
        Seq::empty()
    } else {
        text_of(t, stack.last()) + pending_text(t, stack.drop_last())
    }
}

proof fn lemma_pending_text(
    t: Seq<NodeView>,
    id: NodeId,
    rest: Seq<NodeId>,
    n: int,
    stack: Seq<NodeId>,
)
    requires
        tree::wf(t),
        tree::has(t, id),
        0 <= n <= t[id.at()].children.len(),
        stack == rest + t[id.at()].children.skip(n).reverse(),
    ensures
        text_below(t, id, n) + pending_text(t, stack) == text_below(
            t,
            id,
            t[id.at()].children.len() as int,
        ) + pending_text(t, rest),
    decreases t[id.at()].children.len() - n,
{
    let kids = t[id.at()].children;
    if n == kids.len() {
        assert(stack =~= rest);
    } else {
        tree::lemma_child(t, id, n);
        let lower = rest + kids.skip(n + 1).reverse();
        assert(stack.drop_last() =~= lower);
        assert(stack.last() == kids[n]);
        lemma_pending_text(t, id, rest, n + 1, lower);
        assert(text_below(t, id, n + 1) == text_below(t, id, n) + text_of(t, kids[n]));
        assert(text_below(t, id, n) + (text_of(t, kids[n]) + pending_text(t, lower)) =~= (
        text_below(t, id, n) + text_of(t, kids[n])) + pending_text(t, lower));
    }
}

/// The text of a node.
pub fn text_content_of(dom: &Dom, node: NodeId) -> (r: String)
    requires
        tree::wf(dom@),
        tree::has(dom@, node),
    ensures
        r@ == text_of(dom@, node),
{
    let ghost t = dom@;
    let mut buf: Vec<char> = Vec::new();
    let mut stack: Vec<NodeId> = Vec::new();
    stack.push(node);
    proof {
        assert(stack@.drop_last() =~= Seq::empty());
        assert(pending_text(t, stack@.drop_last()) =~= Seq::empty());
        assert(buf@ + pending_text(t, stack@) =~= text_of(t, node));
    }
    while stack.len() > 0
        invariant
            t == dom@,
            tree::wf(t),
            tree::has(t, node),
            buf@ + pending_text(t, stack@) == text_of(t, node),
            forall|i: int| 0 <= i < stack@.len() ==> tree::has(t, #[trigger] stack@[i]),
        decreases tree::pending(t, stack@).len(),
    {
        let ghost before = stack@;
        let ghost read = buf@;
        let n: NodeId = stack.pop().unwrap();
        let ghost rest = stack@;
        proof {
            assert(before.drop_last() =~= rest);
            assert(n == before[before.len() - 1]);
            assert(pending_text(t, before) == text_of(t, n) + pending_text(t, rest));
            assert(tree::pending(t, before) == tree::subtree(t, n) + tree::pending(t, rest));
        }
        let descend = match &dom.node(n).kind {
            NodeKind::Text(s) => {
                text::push_text(&mut buf, s);
                proof {
                    assert(buf@ + pending_text(t, rest) =~= read + pending_text(t, before));
                }
                false
            },
            NodeKind::Element { .. } => true,
            NodeKind::Document => true,
            _ => {
                proof {
                    assert(buf@ + pending_text(t, rest) =~= read + pending_text(t, before));
                }
                false
            },
        };
        if descend {
            let kids = dom.children(n);
            let mut k: usize = kids.len();
            while k > 0
                invariant
                    t == dom@,
                    tree::wf(t),
                    tree::has(t, n),
                    kids@ == t[n.at()].children,
                    0 <= k <= kids@.len(),
                    stack@ == rest + kids@.skip(k as int).reverse(),
                    forall|i: int| 0 <= i < stack@.len() ==> tree::has(t, #[trigger] stack@[i]),
                decreases k,
            {
                k = k - 1;
                proof {
                    tree::lemma_child(t, n, k as int);
                }
                stack.push(kids[k]);
                proof {
                    assert(stack@ =~= rest + kids@.skip(k as int).reverse());
                }
            }
            proof {
                assert(kids@.skip(0) =~= kids@);
                lemma_pending_text(t, n, rest, 0, stack@);
                tree::lemma_pending_children(t, n, rest, 0, stack@);
                assert(text_below(t, n, 0) + pending_text(t, stack@) =~= pending_text(t, stack@));
                assert(tree::subtrees_below(t, n, 0) + tree::pending(t, stack@) =~= tree::pending(
                    t,
                    stack@,
                ));
                assert(buf@ + pending_text(t, stack@) =~= read + pending_text(t, before));
            }
        }
    }
    text::to_text(&buf)
}

/// The document's title.
pub fn read_title(dom: &Dom) -> (r: String)
    requires
        tree::wf(dom@),
    ensures
        r@ == title_of(dom@),
{
    match find_root_element(dom) {
        Some(root) => match find_descendant_by_tag(dom, root, "title") {
            Some(n) => text_content_of(dom, n),
            None => String::new(),
        },
        None => String::new(),
    }
}

/// The nodes of a list that the selectors ask for.
fn pick_hits(dom: &Dom, order: &Vec<NodeId>, sels: &Vec<Selector>, first_only: bool) -> (r: Vec<
    NodeId,
>)
    requires
        tree::wf(dom@),
        forall|j: int| 0 <= j < order@.len() ==> tree::has(dom@, #[trigger] order@[j]),
    ensures
        r@ == hits(dom@, order@, selector::selectors_view(sels@), first_only),
        forall|j: int| 0 <= j < r@.len() ==> tree::has(dom@, #[trigger] r@[j]),
{
    let ghost t = dom@;
    let ghost p = is_hit(t, selector::selectors_view(sels@));
    let mut out: Vec<NodeId> = Vec::new();
    let mut i: usize = 0;
    proof {
        reveal(Seq::filter);
        assert(order@.take(0).filter(p) =~= Seq::empty());
    }
    while i < order.len()
        invariant
            i <= order@.len(),
            t == dom@,
            tree::wf(t),
            p == is_hit(t, selector::selectors_view(sels@)),
            forall|j: int| 0 <= j < order@.len() ==> tree::has(t, #[trigger] order@[j]),
            out@ == order@.take(i as int).filter(p),
            forall|j: int| 0 <= j < out@.len() ==> tree::has(t, #[trigger] out@[j]),
            first_only ==> out@.len() == 0,
        decreases order@.len() - i,
    {
        let n = order[i];
        proof {
            reveal(Seq::filter);
            assert(order@.take(i + 1).drop_last() =~= order@.take(i as int));
            assert(order@.take(i + 1).last() == n);
        }
        let hit = match &dom.node(n).kind {
            NodeKind::Element { .. } => selector::any_matches(sels, dom, n),
            _ => false,
        };
        proof {
            assert(hit == p(n));
        }
        if hit {
            out.push(n);
            if first_only {
                proof {
                    let all = order@.filter(p);
                    order@.take(i + 1).lemma_filter_monotone(order@, p);
                    assert(out@ =~= all.take(1));
                }
                return out;
            }
        }
        i = i + 1;
    }
    proof {
        assert(order@.take(order@.len() as int) =~= order@);
    }
    out
}

/// Every element of the document that one of the selectors asks for, in document order; only
/// the first of them, where no more is wanted.
pub fn collect_matching(dom: &Dom, selectors: &Vec<Selector>, first_only: bool) -> (r: Vec<NodeId>)
    requires
        tree::wf(dom@),
    ensures
        r@ == match root_element(dom@) {
            Some(root) => hits(
                dom@,
                tree::subtree(dom@, root),
                selector::selectors_view(selectors@),
                first_only,
            ),
            None => Seq::empty(),
        },
        forall|j: int| 0 <= j < r@.len() ==> tree::has(dom@, #[trigger] r@[j]),
{
    match find_root_element(dom) {
        None => Vec::new(),
        Some(root) => {
            let order = dom.preorder(root);
            pick_hits(dom, &order, selectors, first_only)
        },
    }
}

/// Every element below a node that one of the selectors asks for, in document order; only the
/// first of them, where no more is wanted.
pub fn collect_matching_descendants(
    dom: &Dom,
    root: NodeId,
    selectors: &Vec<Selector>,
    first_only: bool,
) -> (r: Vec<NodeId>)
    requires
        tree::wf(dom@),
        tree::has(dom@, root),
    ensures
        r@ == hits(dom@, below(dom@, root), selector::selectors_view(selectors@), first_only),
        forall|j: int| 0 <= j < r@.len() ==> tree::has(dom@, #[trigger] r@[j]),
{
    let mut order = dom.preorder(root);
    let ghost whole = order@;
    order.remove(0);
    proof {
        assert(whole == seq![root] + below(dom@, root));
        assert(order@ =~= below(dom@, root));
        assert forall|j: int| 0 <= j < order@.len() implies tree::has(
            dom@,
            #[trigger] order@[j],
        ) by {
            assert(order@[j] == whole[j + 1]);
        }
    }
    pick_hits(dom, &order, selectors, first_only)
}

/// What `document.querySelector` gives: the first element that the selector text asks for;
/// nothing where the text is malformed.
pub fn query_selector(dom: &Dom, sel: &str) -> (r: Option<NodeId>)
    requires
        tree::wf(dom@),
    ensures
        r == match (selector::selector_list_of(sel@), root_element(dom@)) {
            (Some(sels), Some(root)) => first_of(tree::subtree(dom@, root), is_hit(dom@, sels)),
            _ => None,
        },
{
    match selector::parse_selector_list_str(sel) {
        None => None,
        Some(sels) => {
            let v = collect_matching(dom, &sels, true);
            proof {
                if root_element(dom@) is Some {
                    lemma_first_hit(
                        dom@,
                        tree::subtree(dom@, root_element(dom@)->0),
                        selector::selectors_view(sels@),
                    );
                }
            }
            if v.len() > 0 {
                Some(v[0])
            } else {
                None
            }
        },
    }
}

/// The first hit of a list is the first node of it that is a hit.
proof fn lemma_first_hit(t: Seq<NodeView>, v: Seq<NodeId>, sels: Seq<Seq<selector::StepView>>)
    ensures
        hits(t, v, sels, true).len() == (if first_of(v, is_hit(t, sels)) is Some {
            1int
        } else {
            0int
        }),
        first_of(v, is_hit(t, sels)) matches Some(n) ==> hits(t, v, sels, true)[0] == n,
    decreases v.len(),
{
    let p = is_hit(t, sels);
    reveal(Seq::filter);
    if v.len() > 0 {
        let u = v.drop_last();
        lemma_first_hit(t, u, sels);
        pairs::lemma_position_drop_last(v, p);
        pairs::lemma_position_holds(u, p);
        let a = u.filter(p);
        let b = v.filter(p);
        if a.len() > 0 {
            assert(b[0] == a[0]);
        } else {
            assert(hits(t, u, sels, true).len() == 0);
        }
    }
}

/// What asking for one element gives is the first of what asking for all of them gives, and
/// nothing where that is empty.
pub proof fn one_match_is_first_of_all(
    t: Seq<NodeView>,
    v: Seq<NodeId>,
    sels: Seq<Seq<selector::StepView>>,
)
    ensures
        first_of(v, is_hit(t, sels)) == (if hits(t, v, sels, false).len() == 0 {
            None
        } else {
            Some(hits(t, v, sels, false)[0])
        }),
{
    lemma_first_hit(t, v, sels);
}

/// What `document.querySelectorAll` gives: every element that the selector text asks for.
pub fn query_selector_all(dom: &Dom, sel: &str) -> (r: Vec<NodeId>)
    requires
        tree::wf(dom@),
    ensures
        r@ == match (selector::selector_list_of(sel@), root_element(dom@)) {
            (Some(sels), Some(root)) => hits(dom@, tree::subtree(dom@, root), sels, false),
            _ => Seq::empty(),
        },
{
    match selector::parse_selector_list_str(sel) {
        None => Vec::new(),
        Some(sels) => collect_matching(dom, &sels, false),
    }
}

/// What an element's `querySelector` gives: the first element below it that the selector text
/// asks for.
pub fn element_query_selector(dom: &Dom, start: NodeId, sel: &str) -> (r: Option<NodeId>)
    requires
        tree::wf(dom@),
        tree::has(dom@, start),
    ensures
        r == match selector::selector_list_of(sel@) {
            Some(sels) => first_of(below(dom@, start), is_hit(dom@, sels)),
            None => None,
        },
{
    match selector::parse_selector_list_str(sel) {
        None => None,
        Some(sels) => {
            let v = collect_matching_descendants(dom, start, &sels, true);
            proof {
                lemma_first_hit(dom@, below(dom@, start), selector::selectors_view(sels@));
            }
            if v.len() > 0 {
                Some(v[0])
            } else {
                None
            }
        },
    }
}

/// What an element's `querySelectorAll` gives.
pub fn element_query_selector_all(dom: &Dom, start: NodeId, sel: &str) -> (r: Vec<NodeId>)
    requires
        tree::wf(dom@),
        tree::has(dom@, start),
    ensures
        r@ == match selector::selector_list_of(sel@) {
            Some(sels) => hits(dom@, below(dom@, start), sels, false),
            None => Seq::empty(),
        },
{
    match selector::parse_selector_list_str(sel) {
        None => Vec::new(),
        Some(sels) => collect_matching_descendants(dom, start, &sels, false),
    }
}

/// What an element's `matches` gives.
pub fn element_matches(dom: &Dom, id: NodeId, sel: &str) -> (r: bool)
    requires
        tree::wf(dom@),
        tree::has(dom@, id),
    ensures
        r == (selector::selector_list_of(sel@) matches Some(sels) && selector::matches_any(
            dom@,
            sels,
            id,
        )),
{
    match selector::parse_selector_list_str(sel) {
        None => false,
        Some(sels) => selector::any_matches(&sels, dom, id),
    }
}

/// The nearest of a node and those above it that is a hit.
pub open spec fn closest_hit(t: Seq<NodeView>, sels: Seq<Seq<selector::StepView>>, id: NodeId) -> Option<
    NodeId,
>
    decreases tree::top_rank(t) - tree::rank(t, id),
    when tree::wf(t) && tree::has(t, id)
    via closest_hit_decreases
{
    if is_hit(t, sels)(id) {
        Some(id)
    } else {
        match t[id.at()].parent {
            Some(p) => closest_hit(t, sels, p),
            None => None,
        }
    }
}

#[via_fn]
proof fn closest_hit_decreases(t: Seq<NodeView>, sels: Seq<Seq<selector::StepView>>, id: NodeId) {
    if t[id.at()].parent is Some {
        tree::lemma_parent(t, id);
        tree::lemma_top_rank(t, id);
        tree::lemma_top_rank(t, t[id.at()].parent->0);
    }
}

/// The closest match of a node is a match that the node is within, and where there is none, no
/// node that it is within is a match. A node that is a match is its own closest.
pub proof fn closest_is_a_match_around(
    t: Seq<NodeView>,
    sels: Seq<Seq<selector::StepView>>,
    id: NodeId,
)
    requires
        tree::wf(t),
        tree::has(t, id),
    ensures
        is_hit(t, sels)(id) ==> closest_hit(t, sels, id) == Some(id),
        closest_hit(t, sels, id) matches Some(c) ==> tree::has(t, c) && is_hit(t, sels)(c)
            && tree::within(t, c, id),
        closest_hit(t, sels, id) is None ==> forall|c: NodeId|
            tree::has(t, c) && #[trigger] tree::within(t, c, id) ==> !is_hit(t, sels)(c),
    decreases tree::top_rank(t) - tree::rank(t, id),
{
    if !is_hit(t, sels)(id) {
        if t[id.at()].parent is Some {
            let p = t[id.at()].parent->0;
            tree::lemma_parent(t, id);
            tree::lemma_top_rank(t, id);
            tree::lemma_top_rank(t, p);
            closest_is_a_match_around(t, sels, p);
            if closest_hit(t, sels, p) is Some {
                tree::lemma_within_down(t, closest_hit(t, sels, p)->0, id);
            }
        }
        if closest_hit(t, sels, id) is None {
            assert forall|c: NodeId|
                tree::has(t, c) && #[trigger] tree::within(t, c, id) implies !is_hit(t, sels)(c) by {
                if c != id {
                    tree::lemma_within_up(t, c, id);
                }
            }
        }
    }
}

/// What an element's `closest` gives.
pub fn element_closest(dom: &Dom, start: NodeId, sel: &str) -> (r: Option<NodeId>)
    requires
        tree::wf(dom@),
        tree::has(dom@, start),
    ensures
        r == match selector::selector_list_of(sel@) {
            Some(sels) => closest_hit(dom@, sels, start),
            None => None,
        },
{
    let ghost t = dom@;
    let sels = match selector::parse_selector_list_str(sel) {
        None => {
            return None;
        },
        Some(v) => v,
    };
    let ghost sv = selector::selectors_view(sels@);
    let mut cur: NodeId = start;
    loop
        invariant
            t == dom@,
            tree::wf(t),
            tree::has(t, cur),
            sv == selector::selectors_view(sels@),
            selector::selector_list_of(sel@) == Some(sv),
            closest_hit(t, sv, start) == closest_hit(t, sv, cur),
        decreases tree::top_rank(t) - tree::rank(t, cur),
    {
        let hit = match &dom.node(cur).kind {
            NodeKind::Element { .. } => selector::any_matches(&sels, dom, cur),
            _ => false,
        };
        if hit {
            return Some(cur);
        }
        match dom.node(cur).parent {
            None => {
                return None;
            },
            Some(p) => {
                proof {
                    tree::lemma_parent(t, cur);
                    tree::lemma_top_rank(t, cur);
                    tree::lemma_top_rank(t, p);
                }
                cur = p;
            },
        }
    }
}

/// Whether a node is editable.
pub fn is_effectively_editable(dom: &Dom, id: NodeId) -> (r: bool)
    requires
        tree::wf(dom@),
        tree::has(dom@, id),
    ensures
        r == editable(dom@, id),
{
    let ghost t = dom@;
    let mut cur: NodeId = id;
    loop
        invariant
            t == dom@,
            tree::wf(t),
            tree::has(t, cur),
            editable(t, id) == editable(t, cur),
        decreases tree::top_rank(t) - tree::rank(t, cur),
    {
        match read_attr(dom, cur, "contenteditable") {
            None => {},
            Some(v) => {
                let w = text::lower_text(&v);
                if text::same(&w, "true") || text::same(&w, "") || text::same(&w, "plaintext-only") {
                    return true;
                }
                if text::same(&w, "false") {
                    return false;
                }
            },
        }
        match dom.node(cur).parent {
            None => {
                return false;
            },
            Some(p) => {
                proof {
                    tree::lemma_parent(t, cur);
                    tree::lemma_top_rank(t, cur);
                    tree::lemma_top_rank(t, p);
                }
                cur = p;
            },
        }
    }
}

/// The first attribute of an element with a name, up to the case of its letters.
pub fn read_attr(dom: &Dom, id: NodeId, name: &str) -> (r: Option<String>)
    requires
        tree::has(dom@, id),
    ensures
        text::opt_text(r) == pairs::value_ignoring_case(
            tree::attrs_of(dom@[id.at()].kind),
            name@,
        ),
{
    match &dom.node(id).kind {
        NodeKind::Element { tag, attrs } => pairs::get_ignoring_case(attrs, name),
        _ => {
            proof {
                assert(pairs::position(
                    Seq::<(Seq<char>, Seq<char>)>::empty(),
                    pairs::named_ignoring_case(name@),
                ) == 0);
            }
            None
        },
    }
}

/// The first attribute of an element with exactly a name.
pub fn read_exact_attr(dom: &Dom, id: NodeId, name: &str) -> (r: Option<String>)
    requires
        tree::has(dom@, id),
    ensures
        text::opt_text(r) == pairs::value_of(tree::attrs_of(dom@[id.at()].kind), name@),
{
    match &dom.node(id).kind {
        NodeKind::Element { tag, attrs } => pairs::get(attrs, name),
        _ => {
            proof {
                assert(pairs::position(
                    Seq::<(Seq<char>, Seq<char>)>::empty(),
                    pairs::named(name@),
                ) == 0);
            }
            None
        },
    }
}

/// Whether an element has an attribute with a name, up to the case of its letters.
pub fn element_has_attribute(dom: &Dom, id: NodeId, name: &str) -> (r: bool)
    requires
        tree::has(dom@, id),
    ensures
        r == (pairs::value_ignoring_case(tree::attrs_of(dom@[id.at()].kind), name@) is Some),
{
    read_attr(dom, id, name).is_some()
}

/// The tag of an element in upper case; nothing for other nodes.
pub fn element_get_tag_name(dom: &Dom, id: NodeId) -> (r: String)
    requires
        tree::has(dom@, id),
    ensures
        r@ == match dom@[id.at()].kind {
            KindView::Element { tag, attrs } => text::upper(tag),
            _ => Seq::empty(),
        },
{
    match &dom.node(id).kind {
        NodeKind::Element { tag, attrs } => text::upper_text(tag),
        _ => String::new(),
    }
}

/// The state that a `contenteditable` value stands for.
pub open spec fn editable_state(v: Seq<char>) -> Seq<char> {
    let w = text::lower(v);
    if w == "true"@ || w == ""@ {
        "true"@
    } else if w == "false"@ {
        "false"@
    } else if w == "plaintext-only"@ {
        "plaintext-only"@
    } else {
        "inherit"@
    }
}

/// The state that a `contenteditable` value stands for.
pub fn normalise_editable(v: &str) -> (r: String)
    ensures
        r@ == editable_state(v@),
{
    let w = text::lower_text(v);
    if text::same(&w, "true") || text::same(&w, "") {
        text::copy("true")
    } else if text::same(&w, "false") {
        text::copy("false")
    } else if text::same(&w, "plaintext-only") {
        text::copy("plaintext-only")
    } else {
        text::copy("inherit")
    }
}

/// An element's `contentEditable`.
pub fn element_get_content_editable(dom: &Dom, id: NodeId) -> (r: String)
    requires
        tree::has(dom@, id),
    ensures
        r@ == match pairs::value_ignoring_case(
            tree::attrs_of(dom@[id.at()].kind),
            "contenteditable"@,
        ) {
            Some(v) => editable_state(v),
            None => editable_state("inherit"@),
        },
{
    match read_attr(dom, id, "contenteditable") {
        Some(v) => normalise_editable(&v),
        None => normalise_editable("inherit"),
    }
}

/// Sets an element's `contentEditable`, and records it.
pub fn element_set_content_editable(
    dom: &mut Dom,
    slot: &mut Option<ObserverState>,
    id: NodeId,
    value: &str,
)
    requires
        tree::wf(old(dom)@),
        tree::has(old(dom)@, id),
    ensures
        final(dom)@ == tree::with_attr(
            old(dom)@,
            id,
            "contenteditable"@,
            editable_state(value@),
        ),
        tree::wf(final(dom)@),
        observers::slot_view(*final(slot)) == mutate::attribute_noted(observers::slot_view(*old(slot)), id, "contenteditable"@),
        final(dom).touched() == (old(dom).touched() || old(dom)@[id.at()].kind is Element),
{
    let state = normalise_editable(value);
    dom.set_attribute(id, "contenteditable", state);
    mutate::record_attribute(slot, id, "contenteditable");
}

/// The parent of a node, where that is an element.
pub fn element_get_parent_element(dom: &Dom, id: NodeId) -> (r: Option<NodeId>)
    requires
        tree::wf(dom@),
        tree::has(dom@, id),
    ensures
        r == match dom@[id.at()].parent {
            Some(p) => if dom@[p.at()].kind is Element {
                Some(p)
            } else {
                None
            },
            None => None,
        },
{
    match dom.node(id).parent {
        None => None,
        Some(p) => {
            proof {
                tree::lemma_parent(dom@, id);
            }
            match &dom.node(p).kind {
                NodeKind::Element { .. } => Some(p),
                _ => None,
            }
        },
    }
}

/// The children of a node that are elements.
pub fn element_get_children(dom: &Dom, id: NodeId) -> (r: Vec<NodeId>)
    requires
        tree::wf(dom@),
        tree::has(dom@, id),
    ensures
        r@ == selector::elements(dom@, dom@[id.at()].children),
{
    let kids = dom.children(id);
    proof {
        assert forall|i: int| 0 <= i < kids@.len() implies tree::has(dom@, #[trigger] kids@[i]) by {
            tree::lemma_child(dom@, id, i);
        }
        assert(kids@.take(kids@.len() as int) =~= kids@);
    }
    selector::keep_elements(dom, &kids, kids.len())
}

/// Whether a node is an element that a tag name asks for; `*` asks for every element.
pub open spec fn tagged(t: Seq<NodeView>, tag: Seq<char>) -> spec_fn(NodeId) -> bool {
    |n: NodeId|
        t[n.at()].kind matches KindView::Element { tag: own, .. } && (tag == "*"@ || own == tag)
}

/// Whether a node is an element with the class.
pub open spec fn classed(t: Seq<NodeView>, class: Seq<char>) -> spec_fn(NodeId) -> bool {
    |n: NodeId| selector::classes_of(t[n.at()].kind).contains(class)
}

/// Every element with the tag, which is taken in lower case.
pub fn document_get_elements_by_tag_name(dom: &Dom, tag: &str) -> (r: Vec<NodeId>)
    requires
        tree::wf(dom@),
    ensures
        r@ == tree::subtree(dom@, NodeId { raw: 0 }).filter(tagged(dom@, text::lower(tag@))),
{
    let ghost t = dom@;
    let wanted = text::lower_text(tag);
    let all = text::same(&wanted, "*");
    let ghost p = tagged(t, wanted@);
    let order = dom.preorder(dom.document());
    let mut out: Vec<NodeId> = Vec::new();
    let mut i: usize = 0;
    proof {
        reveal(Seq::filter);
        assert(order@.take(0).filter(p) =~= Seq::empty());
    }
    while i < order.len()
        invariant
            i <= order@.len(),
            t == dom@,
            all == (wanted@ == "*"@),
            p == tagged(t, wanted@),
            forall|j: int| 0 <= j < order@.len() ==> tree::has(t, #[trigger] order@[j]),
            out@ == order@.take(i as int).filter(p),
        decreases order@.len() - i,
    {
        let n = order[i];
        proof {
            reveal(Seq::filter);
            assert(order@.take(i + 1).drop_last() =~= order@.take(i as int));
            assert(order@.take(i + 1).last() == n);
        }
        match &dom.node(n).kind {
            NodeKind::Element { tag: own, attrs } => {
                if all || text::same(own, &wanted) {
                    out.push(n);
                }
            },
            _ => {},
        }
        i = i + 1;
    }
    proof {
        assert(order@.take(order@.len() as int) =~= order@);
    }
    out
}

/// Every element with the class.
pub fn document_get_elements_by_class_name(dom: &Dom, class: &str) -> (r: Vec<NodeId>)
    requires
        tree::wf(dom@),
    ensures
        r@ == tree::subtree(dom@, NodeId { raw: 0 }).filter(classed(dom@, class@)),
{
    let ghost t = dom@;
    let ghost p = classed(t, class@);
    let order = dom.preorder(dom.document());
    let mut out: Vec<NodeId> = Vec::new();
    let mut i: usize = 0;
    proof {
        reveal(Seq::filter);
        assert(order@.take(0).filter(p) =~= Seq::empty());
    }
    while i < order.len()
        invariant
            i <= order@.len(),
            t == dom@,
            p == classed(t, class@),
            forall|j: int| 0 <= j < order@.len() ==> tree::has(t, #[trigger] order@[j]),
            out@ == order@.take(i as int).filter(p),
        decreases order@.len() - i,
    {
        let n = order[i];
        proof {
            reveal(Seq::filter);
            assert(order@.take(i + 1).drop_last() =~= order@.take(i as int));
            assert(order@.take(i + 1).last() == n);
        }
        let classes = selector::class_words(&dom.node(n).kind);
        if selector::has_text(&classes, class) {
            out.push(n);
        }
        i = i + 1;
    }
    proof {
        assert(order@.take(order@.len() as int) =~= order@);
    }
    out
}

/// The first node of a list with a property has it, and none before it has; there is none where no
/// node of the list has it.
pub proof fn first_is_found(v: Seq<NodeId>, p: spec_fn(NodeId) -> bool, n: NodeId)
    ensures
        first_of(v, p) == Some(n) <==> exists|i: int|
            0 <= i < v.len() && #[trigger] v[i] == n && p(n) && forall|j: int|
                0 <= j < i ==> !p(#[trigger] v[j]),
        first_of(v, p) is None <==> forall|i: int| 0 <= i < v.len() ==> !p(#[trigger] v[i]),
{
    pairs::lemma_position_holds(v, p);
    if exists|i: int|
        0 <= i < v.len() && #[trigger] v[i] == n && p(n) && forall|j: int|
            0 <= j < i ==> !p(#[trigger] v[j]) {
        let i = choose|i: int|
            0 <= i < v.len() && #[trigger] v[i] == n && p(n) && forall|j: int|
                0 <= j < i ==> !p(#[trigger] v[j]);
        pairs::lemma_position(v, p, i);
    }
}

/// Asking a list of nodes for all that selectors ask for gives every element of the list that one of
/// them matches and nothing else, in the order of the list and each as often as it is there; asking
/// for the first gives that one.
pub proof fn every_match_is_found(
    t: Seq<NodeView>,
    a: Seq<NodeId>,
    b: Seq<NodeId>,
    sels: Seq<Seq<selector::StepView>>,
    n: NodeId,
)
    ensures
        hits(t, a, sels, false).contains(n) <==> a.contains(n) && t[n.at()].kind is Element
            && selector::matches_any(t, sels, n),
        hits(t, a + b, sels, false) == hits(t, a, sels, false) + hits(t, b, sels, false),
        a.no_duplicates() ==> hits(t, a, sels, false).no_duplicates(),
        hits(t, a, sels, true).len() <= 1,
        hits(t, a, sels, true).len() == 0 <==> hits(t, a, sels, false).len() == 0,
        hits(t, a, sels, true).len() == 1 ==> hits(t, a, sels, true)[0] == hits(
            t,
            a,
            sels,
            false,
        )[0],
{
    let p = is_hit(t, sels);
    if a.filter(p).contains(n) {
        a.lemma_filter_pred(p, a.filter(p).index_of(n));
        a.lemma_filter_contains_rev(p, n);
    }
    if a.contains(n) && p(n) {
        a.lemma_filter_contains(p, a.index_of(n));
    }
    Seq::filter_distributes_over_add(a, b, p);
    if a.no_duplicates() {
        pairs::lemma_filtered_once(a, p);
    }
}

/// Searching a subtree for selectors finds each element in it that one of them matches, once.
pub proof fn searches_cover_the_subtree(
    t: Seq<NodeView>,
    root: NodeId,
    sels: Seq<Seq<selector::StepView>>,
    n: NodeId,
)
    requires
        tree::wf(t),
        tree::has(t, root),
    ensures
        hits(t, tree::subtree(t, root), sels, false).contains(n) <==> tree::within(t, root, n)
            && t[n.at()].kind is Element && selector::matches_any(t, sels, n),
        hits(t, tree::subtree(t, root), sels, false).no_duplicates(),
        hits(t, below(t, root), sels, false).contains(n) <==> n != root && tree::within(t, root, n)
            && t[n.at()].kind is Element && selector::matches_any(t, sels, n),
{
    tree::subtree_lists_each_once(t, root);
    every_match_is_found(t, tree::subtree(t, root), Seq::empty(), sels, n);
    let v = tree::subtree(t, root);
    let w = below(t, root);
    assert(v == seq![root] + w);
    assert(v.skip(1) =~= w);
    every_match_is_found(t, w, Seq::empty(), sels, n);
    assert(w.contains(n) <==> n != root && v.contains(n)) by {
        if w.contains(n) {
            let i = w.index_of(n);
            assert(v[i + 1] == n);
            assert(v[0] == root);
        }
        if n != root && v.contains(n) {
            let i = v.index_of(n);
            assert(w[i - 1] == n);
        }
    }
}

/// Looking up an id gives an element with the id, and the first of them where there are several;
/// nothing is given only where the document has no element with it.
pub proof fn ids_are_found(t: Seq<NodeView>, id: Seq<char>, root: NodeId)
    requires
        tree::wf(t),
        tree::has(t, root),
        root_element(t) == Some(root),
    ensures
        element_by_id(t, id) matches Some(n) ==> tree::within(t, root, n) && tree::attrs_of(
            t[n.at()].kind,
        ).contains(("id"@, id)),
        element_by_id(t, id) is None ==> forall|n: NodeId| #[trigger]
            tree::within(t, root, n) ==> !tree::attrs_of(t[n.at()].kind).contains(("id"@, id)),
        element_by_id(t, id) matches Some(n) ==> exists|i: int|
            0 <= i < tree::subtree(t, root).len() && #[trigger] tree::subtree(t, root)[i] == n
                && forall|j: int|
                0 <= j < i ==> !tree::attrs_of(
                    t[(#[trigger] tree::subtree(t, root)[j]).at()].kind,
                ).contains(("id"@, id)),
{
    let v = tree::subtree(t, root);
    let p = has_id(t, id);
    tree::subtree_lists_each_once(t, root);
    pairs::lemma_position_holds(v, p);
    let i = pairs::position(v, p);
    if i < v.len() {
        assert(p(v[i]));
        assert(v.contains(v[i]));
        assert forall|j: int| 0 <= j < i implies !tree::attrs_of(
            t[(#[trigger] v[j]).at()].kind,
        ).contains(("id"@, id)) by {
            assert(!p(v[j]));
        }
    } else {
        assert forall|n: NodeId| #[trigger] tree::within(t, root, n) implies !tree::attrs_of(
            t[n.at()].kind,
        ).contains(("id"@, id)) by {
            assert(v.contains(n));
            assert(!p(v[v.index_of(n)]));
        }
    }
}

/// The text of nodes, one after the other.
pub open spec fn texts_along(t: Seq<NodeView>, v: Seq<NodeId>) -> Seq<char>
    decreases v.len(),
{
    if v.len() == 0 {
        Seq::empty()
    } else {
        texts_along(t, v.drop_last()) + match t[v.last().at()].kind {
            KindView::Text(s) => s,
            _ => Seq::empty(),
        }
    }
}

proof fn lemma_texts_append(t: Seq<NodeView>, a: Seq<NodeId>, b: Seq<NodeId>)
    ensures
        texts_along(t, a + b) == texts_along(t, a) + texts_along(t, b),
    decreases b.len(),
{
    if b.len() == 0 {
        assert(a + b =~= a);
        assert(texts_along(t, a) + texts_along(t, b) =~= texts_along(t, a));
    } else {
        lemma_texts_append(t, a, b.drop_last());
        assert((a + b).drop_last() =~= a + b.drop_last());
        assert((a + b).last() == b.last());
        assert(texts_along(t, a + b) =~= texts_along(t, a) + texts_along(t, b));
    }
}

/// The text of a node is that of all text nodes in it, in the order of the document. Only elements
/// and documents have children.
pub proof fn text_is_that_of_all_text_nodes(t: Seq<NodeView>, id: NodeId)
    requires
        tree::wf(t),
        tree::has(t, id),
        forall|i: int|
            0 <= i < t.len() && (#[trigger] t[i]).children.len() > 0 ==> t[i].kind is Element
                || t[i].kind is Document,
    ensures
        text_of(t, id) == texts_along(t, tree::subtree(t, id)),
    decreases tree::rank(t, id), t[id.at()].children.len() + 1,
{
    let n = t[id.at()].children.len() as int;
    lemma_text_below_all(t, id, n);
    lemma_texts_append(t, seq![id], tree::subtrees_below(t, id, n));
    reveal_with_fuel(texts_along, 2);
    assert(seq![id].drop_last() =~= Seq::empty());
    assert(seq![id].last() == id);
    assert(t[id.at()].children.len() == n);
    match t[id.at()].kind {
        KindView::Text(s) => {
            assert(n == 0);
            assert(text_of(t, id) =~= texts_along(t, tree::subtree(t, id)));
        },
        _ => {
            assert(text_below(t, id, 0) == Seq::<char>::empty());
            assert(text_of(t, id) =~= texts_along(t, tree::subtree(t, id)));
        },
    }
}

proof fn lemma_text_below_all(t: Seq<NodeView>, id: NodeId, n: int)
    requires
        tree::wf(t),
        tree::has(t, id),
        0 <= n <= t[id.at()].children.len(),
        forall|i: int|
            0 <= i < t.len() && (#[trigger] t[i]).children.len() > 0 ==> t[i].kind is Element
                || t[i].kind is Document,
    ensures
        text_below(t, id, n) == texts_along(t, tree::subtrees_below(t, id, n)),
    decreases tree::rank(t, id), n,
{
    if n > 0 {
        let c = t[id.at()].children[n - 1];
        tree::lemma_child(t, id, n - 1);
        lemma_text_below_all(t, id, n - 1);
        text_is_that_of_all_text_nodes(t, c);
        lemma_texts_append(t, tree::subtrees_below(t, id, n - 1), tree::subtree(t, c));
    }
}

/// A node is editable where the nearest of it and the nodes above it that says anything says so: it
/// is not where none says anything, and below a node that says so it is as that node says unless one
/// between says something.
pub proof fn editing_is_inherited(t: Seq<NodeView>, id: NodeId, p: NodeId)
    requires
        tree::wf(t),
        tree::has(t, id),
    ensures
        said_editable(t[id.at()].kind) matches Some(b) ==> editable(t, id) == b,
        said_editable(t[id.at()].kind) is None && t[id.at()].parent == Some(p) ==> editable(t, id)
            == editable(t, p),
        (forall|a: NodeId| #[trigger]
            tree::within(t, a, id) && tree::has(t, a) ==> said_editable(t[a.at()].kind) != Some(
                true,
            )) ==> !editable(t, id),
    decreases tree::top_rank(t) - tree::rank(t, id),
{
    assert(tree::within(t, id, id));
    if t[id.at()].parent is Some {
        let q = t[id.at()].parent->0;
        tree::lemma_parent(t, id);
        tree::lemma_top_rank(t, q);
        if forall|a: NodeId| #[trigger]
            tree::within(t, a, id) && tree::has(t, a) ==> said_editable(t[a.at()].kind) != Some(
                true,
            ) {
            assert forall|a: NodeId| #[trigger]
                tree::within(t, a, q) && tree::has(t, a) implies said_editable(t[a.at()].kind)
                != Some(true) by {
                tree::lemma_within_down(t, a, id);
            }
            editing_is_inherited(t, q, q);
        }
    }
}

/// What an element says on being editable is what its state shows: editable for `true` and for plain
/// text, not editable for `false`, and nothing where it inherits.
pub proof fn editable_states_agree(
    tag: Seq<char>,
    attrs: Seq<(Seq<char>, Seq<char>)>,
    v: Seq<char>,
)
    requires
        pairs::value_ignoring_case(attrs, "contenteditable"@) == Some(v),
    ensures
        said_editable(KindView::Element { tag, attrs }) == Some(true) <==> editable_state(v)
            == "true"@ || editable_state(v) == "plaintext-only"@,
        said_editable(KindView::Element { tag, attrs }) == Some(false) <==> editable_state(v)
            == "false"@,
        said_editable(KindView::Element { tag, attrs }) is None <==> editable_state(v)
            == "inherit"@,
        text::lower(v) == "true"@ || text::lower(v) == "false"@ || text::lower(v)
            == "plaintext-only"@ ==> editable_state(v) == text::lower(v),
        v.len() == 0 ==> editable_state(v) == "true"@,
{
    reveal_strlit("");
    reveal_strlit("true");
    reveal_strlit("false");
    reveal_strlit("inherit");
    reveal_strlit("plaintext-only");
    assert("true"@[0] == 't' && "false"@[0] == 'f' && "inherit"@[0] == 'i' && "plaintext-only"@[0]
        == 'p');
    if v.len() == 0 {
        assert(text::lower(v) =~= ""@);
    }
}

/// The closest match is the nearest one: every match that a node is within is at it or above it.
pub proof fn closest_is_the_nearest(
    t: Seq<NodeView>,
    sels: Seq<Seq<selector::StepView>>,
    id: NodeId,
    d: NodeId,
)
    requires
        tree::wf(t),
        tree::has(t, id),
        tree::has(t, d),
        tree::within(t, d, id),
        t[d.at()].kind is Element,
        selector::matches_any(t, sels, d),
    ensures
        closest_hit(t, sels, id) matches Some(c) && tree::within(t, d, c),
    decreases tree::top_rank(t) - tree::rank(t, id),
{
    assert(is_hit(t, sels)(d));
    if !is_hit(t, sels)(id) {
        tree::lemma_within_up(t, d, id);
        let p = t[id.at()].parent->0;
        tree::lemma_parent(t, id);
        tree::lemma_top_rank(t, p);
        closest_is_the_nearest(t, sels, p, d);
    }
}

/// Elements are found by a tag where it is theirs, all of them by a star, and by a class just where
/// the selector of the class matches them.
pub proof fn names_find_what_selectors_match(
    t: Seq<NodeView>,
    name: Seq<char>,
    n: NodeId,
    v: Seq<NodeId>,
)
    requires
        selector::is_plain_name(name),
    ensures
        classed(t, name)(n) <==> selector::matches_any(
            t,
            selector::selector_list_of(seq!['.'] + name)->0,
            n,
        ),
        text::lower(name) == name ==> (tagged(t, name)(n) <==> selector::matches_any(
            t,
            selector::selector_list_of(name)->0,
            n,
        )),
        tagged(t, seq!['*'])(n) <==> t[n.at()].kind is Element,
        v.filter(classed(t, name)).contains(n) <==> v.contains(n) && classed(t, name)(n),
        v.filter(tagged(t, name)).contains(n) <==> v.contains(n) && tagged(t, name)(n),
{
    reveal_strlit("*");
    assert("*"@ =~= seq!['*']);
    selector::class_selector_finds_the_word(t, name, n);
    selector::id_and_tag_selectors_match(t, name, n);
    assert(name != "*"@) by {
        assert(selector::name_char(name[0]));
        assert("*"@[0] == '*');
    }
    let kind = t[n.at()].kind;
    if selector::classes_of(kind).contains(name) {
        if !(kind is Element) {
            pairs::first_value_counts(Seq::empty(), "class"@, name);
        }
        let w = text::words(
            pairs::value_of(tree::attrs_of(kind), "class"@)->0,
            text::CharClass::AsciiSpace,
        );
        let i = w.index_of(name);
        assert(w[i] == name);
    }
    let p = classed(t, name);
    if v.filter(p).contains(n) {
        v.lemma_filter_pred(p, v.filter(p).index_of(n));
        v.lemma_filter_contains_rev(p, n);
    }
    if v.contains(n) && p(n) {
        v.lemma_filter_contains(p, v.index_of(n));
    }
    let q = tagged(t, name);
    if v.filter(q).contains(n) {
        v.lemma_filter_pred(q, v.filter(q).index_of(n));
        v.lemma_filter_contains_rev(q, n);
    }
    if v.contains(n) && q(n) {
        v.lemma_filter_contains(q, v.index_of(n));
    }
}

/// The root element is the first child of the document that is an element, and the title is the text
/// of the first title in it, empty where there is none.
pub proof fn titles_are_found(t: Seq<NodeView>, root: NodeId, i: int, n: NodeId)
    requires
        tree::wf(t),
        0 <= i < t[0].children.len(),
        t[0].children[i] == root,
        t[root.at()].kind is Element,
        forall|j: int| 0 <= j < i ==> !(t[(#[trigger] t[0].children[j]).at()].kind is Element),
    ensures
        root_element(t) == Some(root),
        first_of(tree::subtree(t, root), has_tag(t, "title"@)) == Some(n) ==> title_of(t) == text_of(
            t,
            n,
        ),
        (forall|x: NodeId| #[trigger]
            tree::within(t, root, x) ==> !(t[x.at()].kind matches KindView::Element { tag, .. }
                && tag == "title"@)) ==> title_of(t).len() == 0,
{
    let v = t[0].children;
    let p = is_element(t);
    pairs::lemma_position(v, p, i);
    tree::lemma_child(t, NodeId { raw: 0 }, i);
    tree::subtree_lists_each_once(t, root);
    let s = tree::subtree(t, root);
    let q = has_tag(t, "title"@);
    pairs::lemma_position_holds(s, q);
    if forall|x: NodeId| #[trigger]
        tree::within(t, root, x) ==> !(t[x.at()].kind matches KindView::Element { tag, .. } && tag
            == "title"@) {
        let k = pairs::position(s, q);
        if k < s.len() {
            assert(s.contains(s[k]));
            assert(tree::within(t, root, s[k]));
        }
    }
}

} // verus!
