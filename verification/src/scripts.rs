//! The scripts that stand in a document.
use crate::pairs;
use crate::text;
use crate::text::CharClass;
use crate::tree;
use crate::tree::{Dom, KindView, NodeId, NodeKind, NodeView};
use vstd::prelude::*;

verus! {

/// Whether a `type` attribute asks for a script that runs.
pub open spec fn runs(ty: Seq<char>) -> bool {
    let w = text::lower(ty);
    w.len() == 0 || w == "text/javascript"@ || w == "application/javascript"@ || w == "module"@
}

/// Whether an element is a script whose text is to run: one without a `src`, and with a type
/// that runs or no type.
pub open spec fn is_inline_script(kind: KindView) -> bool {
    kind matches KindView::Element { tag, attrs } && tag == "script"@ && pairs::value_of(
        attrs,
        "src"@,
    ) is None && match pairs::value_of(attrs, "type"@) {
        Some(ty) => runs(ty),
        None => true,
    }
}

/// The texts of the first text children of a node.
pub open spec fn text_children(t: Seq<NodeView>, kids: Seq<NodeId>) -> Seq<char>
    decreases kids.len(),
{
    if kids.len() == 0 {
        Seq::empty()
    } else {
        match t[kids.last().at()].kind {
            KindView::Text(s) => text_children(t, kids.drop_last()) + s,
            _ => text_children(t, kids.drop_last()),
        }
    }
}

/// The text of a script that is to run, unless it is blank.
pub open spec fn script_text(t: Seq<NodeView>, n: NodeId) -> Option<Seq<char>> {
    if is_inline_script(t[n.at()].kind) {
        let body = text_children(t, t[n.at()].children);
        if text::trimmed(body).len() > 0 {
            Some(body)
        } else {
            None
        }
    } else {
        None
    }
}

/// The texts of the scripts among nodes.
pub open spec fn scripts_among(t: Seq<NodeView>, v: Seq<NodeId>) -> Seq<Seq<char>>
    decreases v.len(),
{
    if v.len() == 0 {
        Seq::empty()
    } else {
        match script_text(t, v.last()) {
            Some(s) => scripts_among(t, v.drop_last()).push(s),
            None => scripts_among(t, v.drop_last()),
        }
    }
}

fn test_script(kind: &NodeKind) -> (r: bool)
    ensures
        r == is_inline_script(kind@),
{
    match kind {
        NodeKind::Element { tag, attrs } => {
            if !text::same(tag, "script") {
                return false;
            }
            if pairs::get(attrs, "src").is_some() {
                return false;
            }
            match pairs::get(attrs, "type") {
                None => true,
                Some(ty) => {
                    let w = text::lower_text(&ty);
                    w.as_str().is_empty() || text::same(&w, "text/javascript") || text::same(
                        &w,
                        "application/javascript",
                    ) || text::same(&w, "module")
                },
            }
        },
        _ => false,
    }
}

fn read_script(dom: &Dom, n: NodeId) -> (r: Option<String>)
    requires
        tree::wf(dom@),
        tree::has(dom@, n),
    ensures
        text::opt_text(r) == script_text(dom@, n),
{
    let ghost t = dom@;
    if !test_script(&dom.node(n).kind) {
        return None;
    }
    let kids = dom.children(n);
    let mut body: Vec<char> = Vec::new();
    let mut i: usize = 0;
    while i < kids.len()
        invariant
            i <= kids@.len(),
            t == dom@,
            tree::wf(t),
            tree::has(t, n),
            kids@ == t[n.at()].children,
            body@ == text_children(t, kids@.take(i as int)),
        decreases kids@.len() - i,
    {
        proof {
            tree::lemma_child(t, n, i as int);
            assert(kids@.take(i + 1).drop_last() =~= kids@.take(i as int));
            assert(kids@.take(i + 1).last() == kids@[i as int]);
        }
        match &dom.node(kids[i]).kind {
            NodeKind::Text(s) => {
                text::push_text(&mut body, s);
            },
            _ => {},
        }
        i = i + 1;
    }
    proof {
        assert(kids@.take(kids@.len() as int) =~= kids@);
    }
    let bare = text::trim(&body);
    if bare.len() > 0 {
        Some(text::to_text(&body))
    } else {
        None
    }
}

/// The texts of the scripts of a document that are to run, in document order.
pub fn collect_inline_scripts(dom: &Dom) -> (r: Vec<String>)
    requires
        tree::wf(dom@),
    ensures
        text::texts(r@) == scripts_among(dom@, tree::subtree(dom@, NodeId { raw: 0 })),
{
    let ghost t = dom@;
    let order = dom.preorder(dom.document());
    let mut out: Vec<String> = Vec::new();
    let mut i: usize = 0;
    proof {
        assert(text::texts(out@) =~= Seq::empty());
    }
    while i < order.len()
        invariant
            i <= order@.len(),
            t == dom@,
            tree::wf(t),
            forall|j: int| 0 <= j < order@.len() ==> tree::has(t, #[trigger] order@[j]),
            text::texts(out@) == scripts_among(t, order@.take(i as int)),
        decreases order@.len() - i,
    {
        proof {
            assert(order@.take(i + 1).drop_last() =~= order@.take(i as int));
            assert(order@.take(i + 1).last() == order@[i as int]);
        }
        match read_script(dom, order[i]) {
            Some(s) => {
                let ghost prev = out@;
                let ghost sv = s@;
                out.push(s);
                proof {
                    assert(text::texts(out@) =~= text::texts(prev).push(sv));
                }
            },
            None => {},
        }
        i = i + 1;
    }
    proof {
        assert(order@.take(order@.len() as int) =~= order@);
    }
    out
}

/// The scripts among nodes are those of the first and then those of the others, each with the text of
/// all its text children.
pub proof fn scripts_run_in_order(
    t: Seq<NodeView>,
    a: Seq<NodeId>,
    b: Seq<NodeId>,
    n: NodeId,
    s: Seq<char>,
)
    ensures
        scripts_among(t, a + b) == scripts_among(t, a) + scripts_among(t, b),
        text_children(t, a + b) == text_children(t, a) + text_children(t, b),
        t[n.at()].kind == KindView::Text(s) ==> text_children(t, seq![n]) == s,
        !(t[n.at()].kind is Text) ==> text_children(t, seq![n]).len() == 0,
        script_text(t, n) == Some(s) ==> scripts_among(t, seq![n]) == seq![s],
        script_text(t, n) is None ==> scripts_among(t, seq![n]).len() == 0,
    decreases b.len(),
{
    reveal_with_fuel(scripts_among, 2);
    reveal_with_fuel(text_children, 2);
    assert(seq![n].drop_last() =~= Seq::<NodeId>::empty());
    assert(seq![n].last() == n);
    assert(Seq::<char>::empty() + s =~= s);
    if b.len() == 0 {
        assert(a + b =~= a);
        assert(scripts_among(t, a) + scripts_among(t, b) =~= scripts_among(t, a));
        assert(text_children(t, a) + text_children(t, b) =~= text_children(t, a));
    } else {
        scripts_run_in_order(t, a, b.drop_last(), n, s);
        assert((a + b).drop_last() =~= a + b.drop_last());
        assert((a + b).last() == b.last());
        assert(scripts_among(t, a + b) =~= scripts_among(t, a) + scripts_among(t, b));
        assert(text_children(t, a + b) =~= text_children(t, a) + text_children(t, b));
    }
}

/// A script runs where it is no script of another address, is not blank, and its type is that of a
/// script, in letters of either case, or is not given.
pub proof fn scripts_run_by_their_type(
    t: Seq<NodeView>,
    n: NodeId,
    attrs: Seq<(Seq<char>, Seq<char>)>,
    ty: Seq<char>,
)
    requires
        t[n.at()].kind == (KindView::Element { tag: "script"@, attrs }),
    ensures
        pairs::value_of(attrs, "src"@) is Some ==> script_text(t, n) is None,
        text::trimmed(text_children(t, t[n.at()].children)).len() == 0 ==> script_text(t, n) is None,
        pairs::value_of(attrs, "src"@) is None && pairs::value_of(attrs, "type"@) is None
            && text::trimmed(text_children(t, t[n.at()].children)).len() > 0 ==> script_text(t, n)
            == Some(text_children(t, t[n.at()].children)),
        pairs::value_of(attrs, "src"@) is None && pairs::value_of(attrs, "type"@) == Some(ty)
            && text::trimmed(text_children(t, t[n.at()].children)).len() > 0 ==> (script_text(t, n)
            is Some <==> runs(ty)),
        runs(ty) <==> ty.len() == 0 || text::lower(ty) == "text/javascript"@ || text::lower(ty)
            == "application/javascript"@ || text::lower(ty) == "module"@,
        runs(text::lower(ty)) == runs(ty),
{
    assert(text::lower(text::lower(ty)) =~= text::lower(ty)) by {
        assert forall|i: int| 0 <= i < ty.len() implies text::lower(text::lower(ty))[i]
            == text::lower(ty)[i] by {
            text::lemma_lower_char(ty[i]);
            text::letters_change_case(ty[i], ty, i);
            text::letters_change_case(text::lower(ty)[i], text::lower(ty), i);
        }
    }
}

} // verus!
