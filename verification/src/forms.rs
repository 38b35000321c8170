//! Forms: whether the values of their controls are valid, and what they submit.
use crate::dom;
use crate::engine::{NavRequest, NavView};
use crate::number;
use crate::pairs;
use crate::pattern;
use crate::text;
use crate::text::CharClass;
use crate::tree;
use crate::tree::{Dom, KindView, NodeId, NodeKind, NodeView};
use std::collections::HashMap;
use vstd::prelude::*;
use vstd::string::*;
use vstd::utf8::*;

verus! {

broadcast use vstd::std_specs::hash::group_hash_axioms;

/// What is wrong with the value of a control.
#[derive(Clone, Copy, PartialEq, Eq, Structural, Debug)]
pub struct ValidityFlags {
    pub value_missing: bool,
    pub type_mismatch: bool,
    pub pattern_mismatch: bool,
    pub too_long: bool,
    pub too_short: bool,
    pub range_underflow: bool,
    pub range_overflow: bool,
    pub step_mismatch: bool,
    pub bad_input: bool,
    pub custom_error: bool,
}

impl ValidityFlags {
    /// Whether nothing is wrong.
    pub open spec fn is_valid(self) -> bool {
        self == no_flags()
    }

    /// Whether nothing is wrong.
    pub fn valid(&self) -> (r: bool)
        ensures
            r == self.is_valid(),
    {
        !(self.value_missing || self.type_mismatch || self.pattern_mismatch || self.too_long
            || self.too_short || self.range_underflow || self.range_overflow || self.step_mismatch
            || self.bad_input || self.custom_error)
    }
}

/// Nothing is wrong.
pub open spec fn no_flags() -> ValidityFlags {
    ValidityFlags {
        value_missing: false,
        type_mismatch: false,
        pattern_mismatch: false,
        too_long: false,
        too_short: false,
        range_underflow: false,
        range_overflow: false,
        step_mismatch: false,
        bad_input: false,
        custom_error: false,
    }
}

impl Default for ValidityFlags {
    fn default() -> (r: Self)
        ensures
            r == no_flags(),
    {
        ValidityFlags {
            value_missing: false,
            type_mismatch: false,
            pattern_mismatch: false,
            too_long: false,
            too_short: false,
            range_underflow: false,
            range_overflow: false,
            step_mismatch: false,
            bad_input: false,
            custom_error: false,
        }
    }
}

/// How a value compares as a number: whether it is one, and whether it passes the bounds or
/// misses the steps that its control sets.
#[derive(Clone, Copy, PartialEq, Eq, Structural, Debug)]
pub struct NumberVerdict {
    pub is_number: bool,
    pub below: bool,
    pub above: bool,
    pub off_step: bool,
}

/// Whether a text looks like an address for mail.
pub open spec fn is_email(s: Seq<char>) -> bool {
    let v = text::pieces(text::trimmed(s), CharClass::Is('@'));
    v.len() == 2 && v[0].len() > 0 && v[1].len() > 0 && v[1].contains('.')
}

/// Whether a text looks like an address of the web.
pub open spec fn is_web_address(s: Seq<char>) -> bool {
    text::begins(s, "http://"@) || text::begins(s, "https://"@) || text::begins(s, "ftp://"@)
}

/// Whether a text looks like an address for mail.
pub fn looks_like_email(s: &str) -> (r: bool)
    ensures
        r == is_email(s@),
{
    let cs = text::to_chars(s);
    let t = text::trim(&cs);
    let v = text::split(&t, CharClass::Is('@'));
    proof {
        let w = text::pieces_view(v@);
        assert(w.len() == v@.len());
        assert(w[0] == v@[0]@);
        if v@.len() == 2 {
            assert(w[1] == v@[1]@);
        }
    }
    if v.len() != 2 || v[0].len() == 0 || v[1].len() == 0 {
        return false;
    }
    match text::split_once(&v[1], '.') {
        Some(_) => true,
        None => false,
    }
}

/// Whether a text looks like an address of the web.
pub fn looks_like_url(s: &str) -> (r: bool)
    ensures
        r == is_web_address(s@),
{
    let cs = text::to_chars(s);
    text::starts_with(&cs, "http://") || text::starts_with(&cs, "https://")
        || text::starts_with(&cs, "ftp://")
}

/// The attribute of a control that counts: the first with the name, up to the case of its
/// letters.
pub open spec fn attr(kind: KindView, name: Seq<char>) -> Option<Seq<char>> {
    pairs::value_ignoring_case(tree::attrs_of(kind), name)
}

/// The length that an attribute sets, where it writes one.
pub open spec fn length_limit(kind: KindView, name: Seq<char>) -> Option<nat> {
    match attr(kind, name) {
        Some(v) => number::unsigned_value(v, 10, usize::MAX as nat),
        None => None,
    }
}

/// The type of a control, in small letters.
pub open spec fn type_of(kind: KindView) -> Seq<char> {
    match attr(kind, "type"@) {
        Some(v) => text::lower(v),
        None => Seq::empty(),
    }
}

/// Whether a control is for numbers.
pub open spec fn is_numeric(kind: KindView) -> bool {
    kind matches KindView::Element { tag, .. } && tag == "input"@ && (type_of(kind) == "number"@
        || type_of(kind) == "range"@)
}

/// What is wrong with a value of a control, with what its page says of it and how it compares
/// as a number.
pub open spec fn flags_of(
    kind: KindView,
    value: Seq<char>,
    custom: Seq<char>,
    number: NumberVerdict,
) -> ValidityFlags {
    match kind {
        KindView::Element { tag, .. } => {
            let there = value.len() > 0;
            let input = tag == "input"@;
            let ty = type_of(kind);
            let numeric = there && is_numeric(kind);
            ValidityFlags {
                value_missing: attr(kind, "required"@) is Some && !there,
                type_mismatch: there && input && ((ty == "email"@ && !is_email(value)) || (ty
                    == "url"@ && !is_web_address(value))),
                pattern_mismatch: there && match attr(kind, "pattern"@) {
                    Some(p) => !pattern::fits(p, value),
                    None => false,
                },
                too_long: there && match length_limit(kind, "maxlength"@) {
                    Some(n) => value.len() > n,
                    None => false,
                },
                too_short: there && match length_limit(kind, "minlength"@) {
                    Some(n) => value.len() < n,
                    None => false,
                },
                range_underflow: numeric && number.is_number && number.below,
                range_overflow: numeric && number.is_number && number.above,
                step_mismatch: numeric && number.is_number && number.off_step,
                bad_input: numeric && !number.is_number,
                custom_error: custom.len() > 0,
            }
        },
        _ => no_flags(),
    }
}

/// What a page shows of what is wrong: the first of these that holds.
pub open spec fn message_of(f: ValidityFlags, custom: Seq<char>) -> Seq<char> {
    if f.custom_error && custom.len() > 0 {
        custom
    } else if f.value_missing {
        "Please fill out this field."@
    } else if f.type_mismatch {
        "Please enter a value matching the expected format."@
    } else if f.pattern_mismatch {
        "Please match the requested format."@
    } else if f.too_long {
        "Value is too long."@
    } else if f.too_short {
        "Value is too short."@
    } else if f.range_underflow {
        "Value is below the minimum."@
    } else if f.range_overflow {
        "Value is above the maximum."@
    } else if f.step_mismatch {
        "Value does not match the step."@
    } else if f.bad_input {
        "Please enter a number."@
    } else {
        ""@
    }
}

/// What a page shows of what is wrong.
pub fn build_message(flags: &ValidityFlags, custom: &str) -> (r: String)
    ensures
        r@ == message_of(*flags, custom@),
{
    if flags.custom_error && !custom.is_empty() {
        text::copy(custom)
    } else if flags.value_missing {
        text::copy("Please fill out this field.")
    } else if flags.type_mismatch {
        text::copy("Please enter a value matching the expected format.")
    } else if flags.pattern_mismatch {
        text::copy("Please match the requested format.")
    } else if flags.too_long {
        text::copy("Value is too long.")
    } else if flags.too_short {
        text::copy("Value is too short.")
    } else if flags.range_underflow {
        text::copy("Value is below the minimum.")
    } else if flags.range_overflow {
        text::copy("Value is above the maximum.")
    } else if flags.step_mismatch {
        text::copy("Value does not match the step.")
    } else if flags.bad_input {
        text::copy("Please enter a number.")
    } else {
        text::copy("")
    }
}

/// The messages that pages set for controls, under the numbers of these.
pub struct CustomValidity {
    messages: HashMap<u32, String>,
}

impl View for CustomValidity {
    type V = Map<u32, Seq<char>>;

    closed spec fn view(&self) -> Map<u32, Seq<char>> {
        self.messages@.map_values(|s: String| s@)
    }
}

/// The message of a control, empty where none was set.
pub open spec fn custom_of(m: Map<u32, Seq<char>>, id: NodeId) -> Seq<char> {
    if m.dom().contains(id.raw) {
        m[id.raw]
    } else {
        Seq::empty()
    }
}

impl CustomValidity {
    /// No messages.
    pub fn new() -> (r: Self)
        ensures
            r@ == Map::<u32, Seq<char>>::empty(),
    {
        let r = CustomValidity { messages: HashMap::new() };
        proof {
            assert(r@ =~= Map::empty());
        }
        r
    }

    /// The message of a control, empty where none was set.
    pub fn message(&self, id: NodeId) -> (r: String)
        ensures
            r@ == custom_of(self@, id),
    {
        match self.messages.get(&id.raw) {
            Some(s) => text::copy(s),
            None => String::new(),
        }
    }

    /// Sets the message of a control; an empty one clears it.
    pub fn element_set_custom_validity(&mut self, id: NodeId, msg: String)
        ensures
            final(self)@ == (if msg@.len() == 0 {
                old(self)@.remove(id.raw)
            } else {
                old(self)@.insert(id.raw, msg@)
            }),
            custom_of(final(self)@, id) == msg@,
            forall|other: NodeId|
                other != id ==> #[trigger] custom_of(final(self)@, other) == custom_of(
                    old(self)@,
                    other,
                ),
    {
        let ghost before = self@;
        let ghost m = msg@;
        if msg.as_str().is_empty() {
            self.messages.remove(&id.raw);
            proof {
                assert(self@ =~= before.remove(id.raw));
            }
        } else {
            self.messages.insert(id.raw, msg);
            proof {
                assert(self@ =~= before.insert(id.raw, m));
            }
        }
    }
}

fn read_limit(attrs: &Vec<(String, String)>, name: &str) -> (r: Option<u64>)
    ensures
        match pairs::value_ignoring_case(text::pair_texts(attrs@), name@) {
            Some(v) => number::unsigned_value(v, 10, usize::MAX as nat),
            None => None,
        } == match r {
            Some(n) => Some(n as nat),
            None => None,
        },
{
    match pairs::get_ignoring_case(attrs, name) {
        Some(v) => {
            let cs = text::to_chars(&v);
            number::read_unsigned(&cs, 10, usize::MAX as u64)
        },
        None => None,
    }
}

/// What is wrong with a value of a control, and the message for it. How the value compares as a
/// number is handed in.
pub fn validate_node(
    dom: &Dom,
    node: NodeId,
    current_value: &str,
    customs: &CustomValidity,
    number: NumberVerdict,
) -> (r: (ValidityFlags, String))
    requires
        tree::has(dom@, node),
    ensures
        r.0 == flags_of(dom@[node.at()].kind, current_value@, custom_of(customs@, node), number),
        r.1@ == (if dom@[node.at()].kind is Element {
            message_of(r.0, custom_of(customs@, node))
        } else {
            ""@
        }),
{
    let mut flags = ValidityFlags::default();
    let custom = customs.message(node);
    let ghost kind = dom@[node.at()].kind;
    match &dom.node(node).kind {
        NodeKind::Element { tag, attrs } => {
            proof {
                assert(kind == KindView::Element { tag: tag@, attrs: text::pair_texts(attrs@) });
                assert(tree::attrs_of(kind) == text::pair_texts(attrs@));
            }
            flags.custom_error = !custom.as_str().is_empty();
            let there = !current_value.is_empty();
            let required = pairs::get_ignoring_case(attrs, "required");
            flags.value_missing = required.is_some() && !there;
            if there {
                let ty = match pairs::get_ignoring_case(attrs, "type") {
                    Some(t) => text::lower_text(&t),
                    None => String::new(),
                };
                if text::same(tag, "input") {
                    if text::same(&ty, "email") {
                        flags.type_mismatch = !looks_like_email(current_value);
                    } else if text::same(&ty, "url") {
                        flags.type_mismatch = !looks_like_url(current_value);
                    } else if text::same(&ty, "number") || text::same(&ty, "range") {
                        if number.is_number {
                            flags.range_underflow = number.below;
                            flags.range_overflow = number.above;
                            flags.step_mismatch = number.off_step;
                        } else {
                            flags.bad_input = true;
                        }
                    }
                    proof {
                        reveal_strlit("email");
                        reveal_strlit("url");
                        reveal_strlit("number");
                        reveal_strlit("range");
                        assert("email"@[0] == 'e' && "url"@[0] == 'u' && "number"@[0] == 'n'
                            && "range"@[0] == 'r');
                    }
                }
                match pairs::get_ignoring_case(attrs, "pattern") {
                    Some(pat) => {
                        flags.pattern_mismatch = !pattern::pattern_matches(&pat, current_value);
                    },
                    None => {},
                }
                let count: u64 = current_value.unicode_len() as u64;
                match read_limit(attrs, "maxlength") {
                    Some(n) => {
                        flags.too_long = count > n;
                    },
                    None => {},
                }
                match read_limit(attrs, "minlength") {
                    Some(n) => {
                        flags.too_short = count < n;
                    },
                    None => {},
                }
            }
            let msg = build_message(&flags, &custom);
            (flags, msg)
        },
        _ => (flags, text::copy("")),
    }
}

/// Whether a tag is that of a control with a value.
pub open spec fn is_control_tag(tag: Seq<char>) -> bool {
    text::lower(tag) == "input"@ || text::lower(tag) == "select"@ || text::lower(tag)
        == "textarea"@
}

/// Whether an attribute keeps a control from being validated.
pub open spec fn bars(input: bool) -> spec_fn((Seq<char>, Seq<char>)) -> bool {
    |p: (Seq<char>, Seq<char>)|
        text::lower(p.0) == text::lower("disabled"@) || (input && text::lower(p.0) == text::lower(
            "type"@,
        ) && p.1 == "hidden"@)
}

/// Whether no attribute keeps a control from being validated.
pub open spec fn no_bar(attrs: Seq<(Seq<char>, Seq<char>)>, input: bool) -> bool {
    forall|i: int| 0 <= i < attrs.len() ==> !bars(input)(#[trigger] attrs[i])
}

/// Whether a control is validated at all.
pub open spec fn validates(kind: KindView) -> bool {
    kind matches KindView::Element { tag, attrs } && (is_control_tag(tag) || text::lower(tag)
        == "button"@) && no_bar(attrs, text::lower(tag) == "input"@)
}

fn is_control(tag: &str) -> (r: bool)
    ensures
        r == is_control_tag(tag@),
{
    let t = text::lower_text(tag);
    text::same(&t, "input") || text::same(&t, "select") || text::same(&t, "textarea")
}

fn none_bars(attrs: &Vec<(String, String)>, input: bool) -> (r: bool)
    ensures
        r == no_bar(text::pair_texts(attrs@), input),
{
    let ghost t = text::pair_texts(attrs@);
    let mut i: usize = 0;
    while i < attrs.len()
        invariant
            i <= attrs@.len(),
            t == text::pair_texts(attrs@),
            forall|j: int| 0 <= j < i ==> !bars(input)(#[trigger] t[j]),
        decreases attrs@.len() - i,
    {
        proof {
            assert(t[i as int] == (attrs@[i as int].0@, attrs@[i as int].1@));
        }
        if text::same_ignoring_case(&attrs[i].0, "disabled") || (input
            && text::same_ignoring_case(&attrs[i].0, "type") && text::same(&attrs[i].1, "hidden")) {
            proof {
                assert(bars(input)(t[i as int]));
            }
            return false;
        }
        i = i + 1;
    }
    true
}

/// Whether a control is validated at all.
pub fn element_will_validate_inner(dom: &Dom, id: NodeId) -> (r: bool)
    requires
        tree::has(dom@, id),
    ensures
        r == validates(dom@[id.at()].kind),
{
    match &dom.node(id).kind {
        NodeKind::Element { tag, attrs } => {
            let t = text::lower_text(tag);
            (is_control(tag) || text::same(&t, "button")) && none_bars(
                attrs,
                text::same(&t, "input"),
            )
        },
        _ => false,
    }
}

/// The value of a control, empty where it has none.
pub open spec fn value_of(kind: KindView) -> Seq<char> {
    match attr(kind, "value"@) {
        Some(v) => v,
        None => Seq::empty(),
    }
}

/// The value of a control, empty where it has none.
pub fn current_value(dom: &Dom, node: NodeId) -> (r: String)
    requires
        tree::has(dom@, node),
    ensures
        r@ == value_of(dom@[node.at()].kind),
{
    match dom::read_attr(dom, node, "value") {
        Some(v) => v,
        None => String::new(),
    }
}

/// What is wrong with a control as it is.
pub open spec fn control_flags(
    kind: KindView,
    custom: Seq<char>,
    number: NumberVerdict,
) -> ValidityFlags {
    flags_of(kind, value_of(kind), custom, number)
}

/// What is wrong with a control as it is.
pub fn element_get_validity(
    dom: &Dom,
    id: NodeId,
    customs: &CustomValidity,
    number: NumberVerdict,
) -> (r: ValidityFlags)
    requires
        tree::has(dom@, id),
    ensures
        r == control_flags(dom@[id.at()].kind, custom_of(customs@, id), number),
{
    let value = current_value(dom, id);
    let (flags, _) = validate_node(dom, id, &value, customs, number);
    flags
}

/// What checking a control came to: whether it is valid, and the type of the event that is then
/// fired at it, where one is.
pub struct Checked {
    pub valid: bool,
    pub event: Option<String>,
}

/// What checking a control came to, over plain values.
pub ghost struct CheckedView {
    pub valid: bool,
    pub event: Option<Seq<char>>,
}

impl View for Checked {
    type V = CheckedView;

    open spec fn view(&self) -> CheckedView {
        CheckedView { valid: self.valid, event: text::opt_text(self.event) }
    }
}

/// What checking a control comes to: an event is fired just where it is not valid.
pub open spec fn checked(valid: bool) -> CheckedView {
    CheckedView {
        valid,
        event: if valid {
            None
        } else {
            Some("invalid"@)
        },
    }
}

/// Checks whether a control is valid as it is. Where it is not, an event is fired at it.
pub fn element_check_validity(
    dom: &Dom,
    id: NodeId,
    customs: &CustomValidity,
    number: NumberVerdict,
) -> (r: Checked)
    requires
        tree::has(dom@, id),
    ensures
        r@ == checked(
            control_flags(dom@[id.at()].kind, custom_of(customs@, id), number).is_valid(),
        ),
{
    let valid = element_get_validity(dom, id, customs, number).valid();
    Checked {
        valid,
        event: if valid {
            None
        } else {
            Some(text::copy("invalid"))
        },
    }
}

/// What a control reports of itself, which is what checking it comes to.
pub fn element_report_validity(
    dom: &Dom,
    id: NodeId,
    customs: &CustomValidity,
    number: NumberVerdict,
) -> (r: Checked)
    requires
        tree::has(dom@, id),
    ensures
        r@ == checked(
            control_flags(dom@[id.at()].kind, custom_of(customs@, id), number).is_valid(),
        ),
{
    element_check_validity(dom, id, customs, number)
}

/// The message for a control as it is.
pub fn element_get_validation_message(
    dom: &Dom,
    id: NodeId,
    customs: &CustomValidity,
    number: NumberVerdict,
) -> (r: String)
    requires
        tree::has(dom@, id),
    ensures
        r@ == (if dom@[id.at()].kind is Element {
            message_of(
                control_flags(dom@[id.at()].kind, custom_of(customs@, id), number),
                custom_of(customs@, id),
            )
        } else {
            ""@
        }),
{
    let value = current_value(dom, id);
    let (_, msg) = validate_node(dom, id, &value, customs, number);
    msg
}

/// A valid control shows no message, and one that is not valid shows one.
pub proof fn message_tells_validity(
    kind: KindView,
    value: Seq<char>,
    custom: Seq<char>,
    number: NumberVerdict,
)
    ensures
        flags_of(kind, value, custom, number).is_valid() <==> message_of(
            flags_of(kind, value, custom, number),
            custom,
        ).len() == 0,
{
    reveal_strlit("Please fill out this field.");
    reveal_strlit("Please enter a value matching the expected format.");
    reveal_strlit("Please match the requested format.");
    reveal_strlit("Value is too long.");
    reveal_strlit("Value is too short.");
    reveal_strlit("Value is below the minimum.");
    reveal_strlit("Value is above the maximum.");
    reveal_strlit("Value does not match the step.");
    reveal_strlit("Please enter a number.");
    reveal_strlit("");
}

/// A message that a page sets makes a control invalid and is the one shown; once it is cleared,
/// the rest decides.
pub proof fn custom_message_is_shown(
    m: Map<u32, Seq<char>>,
    id: NodeId,
    kind: KindView,
    value: Seq<char>,
    msg: Seq<char>,
    number: NumberVerdict,
)
    requires
        msg.len() > 0,
        kind is Element,
    ensures
        custom_of(m.insert(id.raw, msg), id) == msg,
        !flags_of(kind, value, msg, number).is_valid(),
        message_of(flags_of(kind, value, msg, number), msg) == msg,
        custom_of(m.insert(id.raw, msg).remove(id.raw), id) == Seq::<char>::empty(),
        !flags_of(kind, value, Seq::empty(), number).custom_error,
{
}

/// A node and all below it, each node before its children and these from the last to the first.
pub open spec fn backward(t: Seq<NodeView>, id: NodeId) -> Seq<NodeId>
    decreases tree::rank(t, id), t[id.at()].children.len() + 1,
    when tree::wf(t) && tree::has(t, id)
{
    seq![id] + backward_below(t, id, t[id.at()].children.len() as int)
}

/// The same of the first children of a node, from the last of them to the first.
pub open spec fn backward_below(t: Seq<NodeView>, id: NodeId, n: int) -> Seq<NodeId>
    decreases tree::rank(t, id), n,
    when tree::wf(t) && tree::has(t, id) && 0 <= n <= t[id.at()].children.len()
    via backward_below_decreases
{
    if n <= 0 {
        Seq::empty()
    } else {
        backward(t, t[id.at()].children[n - 1]) + backward_below(t, id, n - 1)
    }
}

#[via_fn]
proof fn backward_below_decreases(t: Seq<NodeView>, id: NodeId, n: int) {
    if n > 0 {
        tree::lemma_child(t, id, n - 1);
    }
}

/// What is left to visit of a stack of nodes.
spec fn left(t: Seq<NodeView>, stack: Seq<NodeId>) -> Seq<NodeId>
    decreases stack.len(),
{
    if stack.len() == 0 {
        Seq::empty()
    } else {
        backward(t, stack.last()) + left(t, stack.drop_last())
    }
}

proof fn lemma_left(t: Seq<NodeView>, id: NodeId, rest: Seq<NodeId>, n: int)
    requires
        tree::wf(t),
        tree::has(t, id),
        0 <= n <= t[id.at()].children.len(),
    ensures
        left(t, rest + t[id.at()].children.take(n)) == backward_below(t, id, n) + left(t, rest),
    decreases n,
{
    let kids = t[id.at()].children;
    let stack = rest + kids.take(n);
    if n == 0 {
        assert(stack =~= rest);
        assert(backward_below(t, id, 0) + left(t, rest) =~= left(t, rest));
    } else {
        lemma_left(t, id, rest, n - 1);
        assert(stack.drop_last() =~= rest + kids.take(n - 1));
        assert(stack.last() == kids[n - 1]);
        assert(backward(t, kids[n - 1]) + (backward_below(t, id, n - 1) + left(t, rest)) =~= (
        backward(t, kids[n - 1]) + backward_below(t, id, n - 1)) + left(t, rest));
    }
}

fn walk_backward(dom: &Dom, root: NodeId) -> (r: Vec<NodeId>)
    requires
        tree::wf(dom@),
        tree::has(dom@, root),
    ensures
        r@ == backward(dom@, root),
        forall|i: int| 0 <= i < r@.len() ==> tree::has(dom@, #[trigger] r@[i]),
{
    let ghost t = dom@;
    let mut out: Vec<NodeId> = Vec::new();
    let mut stack: Vec<NodeId> = Vec::new();
    stack.push(root);
    proof {
        assert(stack@.drop_last() =~= Seq::empty());
        assert(left(t, stack@.drop_last()) =~= Seq::empty());
        assert(out@ + left(t, stack@) =~= backward(t, root));
    }
    while stack.len() > 0
        invariant
            t == dom@,
            tree::wf(t),
            tree::has(t, root),
            out@ + left(t, stack@) == backward(t, root),
            forall|i: int| 0 <= i < stack@.len() ==> tree::has(t, #[trigger] stack@[i]),
            forall|i: int| 0 <= i < out@.len() ==> tree::has(t, #[trigger] out@[i]),
        decreases left(t, stack@).len(),
    {
        let ghost before = stack@;
        let ghost visited = out@;
        let n: NodeId = stack.pop().unwrap();
        let ghost rest = stack@;
        proof {
            assert(before.drop_last() =~= rest);
            assert(n == before[before.len() - 1]);
        }
        out.push(n);
        let kids = dom.children(n);
        let mut k: usize = 0;
        proof {
            assert(rest + kids@.take(0) =~= rest);
        }
        while k < kids.len()
            invariant
                t == dom@,
                tree::wf(t),
                tree::has(t, n),
                kids@ == t[n.at()].children,
                k <= kids@.len(),
                stack@ == rest + kids@.take(k as int),
                forall|i: int| 0 <= i < stack@.len() ==> tree::has(t, #[trigger] stack@[i]),
            decreases kids@.len() - k,
        {
            proof {
                tree::lemma_child(t, n, k as int);
            }
            stack.push(kids[k]);
            proof {
                assert(stack@ =~= rest + kids@.take(k + 1));
            }
            k = k + 1;
        }
        proof {
            lemma_left(t, n, rest, kids@.len() as int);
            assert(left(t, before) == backward(t, n) + left(t, rest));
            assert(out@ + left(t, stack@) =~= visited + left(t, before));
        }
    }
    out
}

/// Whether a node is a control of a form.
pub open spec fn is_form_control(t: Seq<NodeView>, form: NodeId) -> spec_fn(NodeId) -> bool {
    |n: NodeId|
        n != form && (t[n.at()].kind matches KindView::Element { tag, .. } && is_control_tag(tag))
}

/// The controls of a form, in the order in which it looks at them.
pub open spec fn form_controls(t: Seq<NodeView>, form: NodeId) -> Seq<NodeId> {
    backward(t, form).filter(is_form_control(t, form))
}

/// The controls of a form, in the order of the document.
pub open spec fn controls_in_order(t: Seq<NodeView>, form: NodeId) -> Seq<NodeId> {
    tree::subtree(t, form).filter(is_form_control(t, form))
}

fn keep_controls(dom: &Dom, form: NodeId, order: &Vec<NodeId>) -> (r: Vec<NodeId>)
    requires
        forall|i: int| 0 <= i < order@.len() ==> tree::has(dom@, #[trigger] order@[i]),
    ensures
        r@ == order@.filter(is_form_control(dom@, form)),
        forall|i: int| 0 <= i < r@.len() ==> tree::has(dom@, #[trigger] r@[i]),
{
    let ghost t = dom@;
    let ghost keep = is_form_control(t, form);
    let mut out: Vec<NodeId> = Vec::new();
    let mut i: usize = 0;
    proof {
        reveal(Seq::filter);
        assert(order@.take(0).filter(keep) =~= Seq::empty());
    }
    while i < order.len()
        invariant
            i <= order@.len(),
            t == dom@,
            keep == is_form_control(t, form),
            forall|j: int| 0 <= j < order@.len() ==> tree::has(t, #[trigger] order@[j]),
            forall|j: int| 0 <= j < out@.len() ==> tree::has(t, #[trigger] out@[j]),
            out@ == order@.take(i as int).filter(keep),
        decreases order@.len() - i,
    {
        proof {
            reveal(Seq::filter);
            assert(order@.take(i + 1).drop_last() =~= order@.take(i as int));
            assert(order@.take(i + 1).last() == order@[i as int]);
        }
        let n = order[i];
        let control = match &dom.node(n).kind {
            NodeKind::Element { tag, .. } => is_control(tag),
            _ => false,
        };
        if n != form && control {
            out.push(n);
        }
        i = i + 1;
    }
    proof {
        assert(order@.take(order@.len() as int) =~= order@);
    }
    out
}

/// The controls of a form, in the order in which it looks at them.
pub fn walk_form_controls(dom: &Dom, form: NodeId) -> (r: Vec<NodeId>)
    requires
        tree::wf(dom@),
        tree::has(dom@, form),
    ensures
        r@ == form_controls(dom@, form),
        forall|i: int| 0 <= i < r@.len() ==> tree::has(dom@, #[trigger] r@[i]),
{
    let order = walk_backward(dom, form);
    keep_controls(dom, form, &order)
}

/// How the value of a control compares as a number, by its place in the list.
pub open spec fn verdict_at(v: Seq<NumberVerdict>, i: int) -> NumberVerdict {
    if 0 <= i < v.len() {
        v[i]
    } else {
        NumberVerdict { is_number: false, below: false, above: false, off_step: false }
    }
}

/// Whether a form is valid: whether all its controls are.
pub open spec fn form_is_valid(
    t: Seq<NodeView>,
    controls: Seq<NodeId>,
    customs: Map<u32, Seq<char>>,
    numbers: Seq<NumberVerdict>,
) -> bool {
    forall|i: int|
        0 <= i < controls.len() ==> control_flags(
            t[(#[trigger] controls[i]).at()].kind,
            custom_of(customs, controls[i]),
            verdict_at(numbers, i),
        ).is_valid()
}

/// Whether a form is valid. How the values of its controls compare as numbers is handed in, in
/// the order of `walk_form_controls`.
pub fn form_check_validity(
    dom: &Dom,
    form: NodeId,
    customs: &CustomValidity,
    numbers: &Vec<NumberVerdict>,
) -> (r: bool)
    requires
        tree::wf(dom@),
        tree::has(dom@, form),
    ensures
        r == form_is_valid(dom@, form_controls(dom@, form), customs@, numbers@),
{
    let ghost t = dom@;
    let controls = walk_form_controls(dom, form);
    let mut all: bool = true;
    let mut i: usize = 0;
    while i < controls.len()
        invariant
            i <= controls@.len(),
            t == dom@,
            forall|j: int| 0 <= j < controls@.len() ==> tree::has(t, #[trigger] controls@[j]),
            all == (forall|j: int|
                0 <= j < i ==> control_flags(
                    t[(#[trigger] controls@[j]).at()].kind,
                    custom_of(customs@, controls@[j]),
                    verdict_at(numbers@, j),
                ).is_valid()),
        decreases controls@.len() - i,
    {
        let number = if i < numbers.len() {
            numbers[i]
        } else {
            NumberVerdict { is_number: false, below: false, above: false, off_step: false }
        };
        if !element_check_validity(dom, controls[i], customs, number).valid {
            proof {
                assert(!control_flags(
                    t[controls@[i as int].at()].kind,
                    custom_of(customs@, controls@[i as int]),
                    verdict_at(numbers@, i as int),
                ).is_valid());
            }
            all = false;
        }
        i = i + 1;
    }
    all
}

/// What a form reports of itself, which is whether it is valid.
pub fn form_report_validity(
    dom: &Dom,
    form: NodeId,
    customs: &CustomValidity,
    numbers: &Vec<NumberVerdict>,
) -> (r: bool)
    requires
        tree::wf(dom@),
        tree::has(dom@, form),
    ensures
        r == form_is_valid(dom@, form_controls(dom@, form), customs@, numbers@),
{
    form_check_validity(dom, form, customs, numbers)
}

/// Whether a byte stands for itself in an encoded text.
pub open spec fn is_plain_byte(b: u8) -> bool {
    65 <= b <= 90 || 97 <= b <= 122 || 48 <= b <= 57 || b == 45 || b == 95 || b == 46 || b == 126
}

/// The capital hexadecimal digit of a number below sixteen.
pub open spec fn capital_digit(n: int) -> char {
    text::upper_char(number::digit_char(n as nat))
}

/// What stands for a byte in an encoded text.
pub open spec fn encoded_byte(b: u8) -> Seq<char> {
    if is_plain_byte(b) {
        seq![b as char]
    } else if b == 32 {
        seq!['+']
    } else {
        seq!['%', capital_digit(b as int / 16), capital_digit(b as int % 16)]
    }
}

/// Bytes encoded one by one.
pub open spec fn encoded_bytes(v: Seq<u8>) -> Seq<char>
    decreases v.len(),
{
    if v.len() == 0 {
        Seq::empty()
    } else {
        encoded_bytes(v.drop_last()) + encoded_byte(v.last())
    }
}

/// A text encoded for an address: its UTF-8 bytes one by one.
pub open spec fn url_encoded(s: Seq<char>) -> Seq<char> {
    encoded_bytes(encode_utf8(s))
}

/// A text encoded for an address.
pub fn url_encode(s: &str) -> (r: Vec<char>)
    ensures
        r@ == url_encoded(s@),
{
    let v = s.as_bytes();
    let mut out: Vec<char> = Vec::new();
    let mut i: usize = 0;
    while i < v.len()
        invariant
            i <= v@.len(),
            out@ == encoded_bytes(v@.take(i as int)),
        decreases v@.len() - i,
    {
        let b: u8 = v[i];
        proof {
            assert(v@.take(i + 1).drop_last() =~= v@.take(i as int));
            assert(v@.take(i + 1).last() == b);
        }
        let ghost prev = out@;
        if (65 <= b && b <= 90) || (97 <= b && b <= 122) || (48 <= b && b <= 57) || b == 45 || b
            == 95 || b == 46 || b == 126 {
            out.push(b as char);
        } else if b == 32 {
            out.push('+');
        } else {
            let hi = number::write_digit((b / 16) as u32);
            let lo = number::write_digit((b % 16) as u32);
            out.push('%');
            out.push(text::to_upper_char(hi));
            out.push(text::to_upper_char(lo));
        }
        proof {
            assert(out@ =~= prev + encoded_byte(b));
        }
        i = i + 1;
    }
    proof {
        assert(v@.take(v@.len() as int) =~= v@);
    }
    out
}

/// Whether a character may stand in an encoded text.
pub open spec fn is_encoded_char(c: char) -> bool {
    pattern::is_alphanumeric(c) || c == '-' || c == '_' || c == '.' || c == '~' || c == '+' || c
        == '%'
}

proof fn lemma_encoded_plain(v: Seq<u8>, i: int)
    requires
        0 <= i < encoded_bytes(v).len(),
    ensures
        is_encoded_char(encoded_bytes(v)[i]),
    decreases v.len(),
{
    let before = encoded_bytes(v.drop_last());
    if i < before.len() {
        lemma_encoded_plain(v.drop_last(), i);
    } else {
        let e = encoded_byte(v.last());
        assert(encoded_bytes(v)[i] == e[i - before.len()]);
    }
}

/// An encoded text holds none of the signs that part the names and values of an address.
pub proof fn encoded_text_is_plain(s: Seq<char>)
    ensures
        forall|i: int| 0 <= i < url_encoded(s).len() ==> is_encoded_char(#[trigger] url_encoded(s)[i]),
        !url_encoded(s).contains('&'),
        !url_encoded(s).contains('='),
{
    assert forall|i: int| 0 <= i < url_encoded(s).len() implies is_encoded_char(
        #[trigger] url_encoded(s)[i],
    ) by {
        lemma_encoded_plain(encode_utf8(s), i);
    }
}

/// The names and values that controls submit: those of the controls with a name.
pub open spec fn submitted(t: Seq<NodeView>, controls: Seq<NodeId>) -> Seq<(Seq<char>, Seq<char>)>
    decreases controls.len(),
{
    if controls.len() == 0 {
        Seq::empty()
    } else {
        let before = submitted(t, controls.drop_last());
        let kind = t[controls.last().at()].kind;
        match attr(kind, "name"@) {
            Some(n) => before.push((n, value_of(kind))),
            None => before,
        }
    }
}

/// The names and values of the controls of a form that have a name, in the order of the document.
pub fn named_values(dom: &Dom, form: NodeId) -> (r: Vec<(String, String)>)
    requires
        tree::wf(dom@),
        tree::has(dom@, form),
    ensures
        text::pair_texts(r@) == submitted(dom@, controls_in_order(dom@, form)),
{
    let ghost t = dom@;
    let order = dom.preorder(form);
    let controls = keep_controls(dom, form, &order);
    let mut out: Vec<(String, String)> = Vec::new();
    let mut i: usize = 0;
    proof {
        assert(text::pair_texts(out@) =~= submitted(t, controls@.take(0)));
    }
    while i < controls.len()
        invariant
            i <= controls@.len(),
            t == dom@,
            forall|j: int| 0 <= j < controls@.len() ==> tree::has(t, #[trigger] controls@[j]),
            text::pair_texts(out@) == submitted(t, controls@.take(i as int)),
        decreases controls@.len() - i,
    {
        proof {
            assert(controls@.take(i + 1).drop_last() =~= controls@.take(i as int));
            assert(controls@.take(i + 1).last() == controls@[i as int]);
        }
        match dom::read_attr(dom, controls[i], "name") {
            Some(name) => {
                let value = current_value(dom, controls[i]);
                let ghost prev = out@;
                let ghost added = (name@, value@);
                out.push((name, value));
                proof {
                    assert(text::pair_texts(out@) =~= text::pair_texts(prev).push(added));
                }
            },
            None => {},
        }
        i = i + 1;
    }
    proof {
        assert(controls@.take(controls@.len() as int) =~= controls@);
    }
    out
}

/// The encoded names and values.
pub open spec fn encoded_pairs(v: Seq<(Seq<char>, Seq<char>)>) -> Seq<Seq<char>> {
    v.map_values(|p: (Seq<char>, Seq<char>)| url_encoded(p.0) + seq!['='] + url_encoded(p.1))
}

/// The encoded names and values of controls, with an ampersand between them.
pub open spec fn query_of(t: Seq<NodeView>, controls: Seq<NodeId>) -> Seq<char> {
    text::joined(encoded_pairs(submitted(t, controls)), "&"@)
}

/// Where a form goes: its action, for a form that is got with what it submits behind it.
pub open spec fn target_of(t: Seq<NodeView>, form: NodeId) -> Option<Seq<char>> {
    let kind = t[form.at()].kind;
    let method = match attr(kind, "method"@) {
        Some(m) => text::upper(m),
        None => "GET"@,
    };
    let query = query_of(t, form_controls(t, form));
    match attr(kind, "action"@) {
        None => None,
        Some(action) => if action.len() == 0 {
            None
        } else if method == "GET"@ && query.len() > 0 {
            if action.contains('?') {
                Some(action + "&"@ + query)
            } else {
                Some(action + "?"@ + query)
            }
        } else {
            Some(action)
        },
    }
}

fn build_query(dom: &Dom, controls: &Vec<NodeId>) -> (r: Vec<char>)
    requires
        forall|i: int| 0 <= i < controls@.len() ==> tree::has(dom@, #[trigger] controls@[i]),
    ensures
        r@ == query_of(dom@, controls@),
{
    let ghost t = dom@;
    let mut parts: Vec<Vec<char>> = Vec::new();
    let mut i: usize = 0;
    proof {
        assert(text::pieces_view(parts@) =~= encoded_pairs(submitted(t, controls@.take(0))));
    }
    while i < controls.len()
        invariant
            i <= controls@.len(),
            t == dom@,
            forall|j: int| 0 <= j < controls@.len() ==> tree::has(t, #[trigger] controls@[j]),
            text::pieces_view(parts@) == encoded_pairs(submitted(t, controls@.take(i as int))),
        decreases controls@.len() - i,
    {
        proof {
            assert(controls@.take(i + 1).drop_last() =~= controls@.take(i as int));
            assert(controls@.take(i + 1).last() == controls@[i as int]);
        }
        let ghost done = submitted(t, controls@.take(i as int));
        match dom::read_attr(dom, controls[i], "name") {
            Some(name) => {
                let value = current_value(dom, controls[i]);
                let mut part = url_encode(&name);
                part.push('=');
                let v = url_encode(&value);
                text::push_chars(&mut part, &v);
                proof {
                    assert(part@ =~= url_encoded(name@) + seq!['='] + url_encoded(value@));
                    assert(encoded_pairs(done.push((name@, value@))) =~= encoded_pairs(done).push(
                        part@,
                    ));
                }
                let ghost prev = parts@;
                let ghost pv = part@;
                parts.push(part);
                proof {
                    assert(text::pieces_view(parts@) =~= text::pieces_view(prev).push(pv));
                }
            },
            None => {},
        }
        i = i + 1;
    }
    proof {
        assert(controls@.take(controls@.len() as int) =~= controls@);
    }
    text::join(&parts, "&")
}

/// The type of the event that is fired at a form before it is submitted, which a handler may
/// prevent.
pub fn submit_event() -> (r: String)
    ensures
        r@ == "submit"@,
{
    text::copy("submit")
}

/// Submits a form: unless a handler of its event prevented that, it asks to go where the form
/// goes.
pub fn form_request_submit(
    dom: &Dom,
    form: NodeId,
    prevented: bool,
    requests: &mut Vec<NavRequest>,
)
    requires
        tree::wf(dom@),
        tree::has(dom@, form),
    ensures
        match target_of(dom@, form) {
            Some(url) => if prevented {
                final(requests)@ == old(requests)@
            } else {
                final(requests)@.len() == old(requests)@.len() + 1 && final(requests)@.drop_last()
                    == old(requests)@ && final(requests)@.last()@ == NavView::Assign(url)
            },
            None => final(requests)@ == old(requests)@,
        },
{
    if prevented {
        return ;
    }
    let action = match dom::read_attr(dom, form, "action") {
        Some(a) => a,
        None => {
            return ;
        },
    };
    if action.as_str().is_empty() {
        return ;
    }
    let method = match dom::read_attr(dom, form, "method") {
        Some(m) => text::upper_text(&m),
        None => text::copy("GET"),
    };
    let controls = walk_form_controls(dom, form);
    let query = build_query(dom, &controls);
    let mut url = text::to_chars(&action);
    if text::same(&method, "GET") && query.len() > 0 {
        match text::split_once(&url, '?') {
            Some(_) => {
                text::push_text(&mut url, "&");
            },
            None => {
                text::push_text(&mut url, "?");
            },
        }
        text::push_chars(&mut url, &query);
    }
    let ghost before = requests@;
    let target = text::to_text(&url);
    requests.push(NavRequest::Assign(target));
    proof {
        assert(requests@.drop_last() =~= before);
    }
}

/// A value is too long where it has more characters than its control allows, and too short where it
/// has some but fewer than its control asks for. A control without a limit, or with one that is no
/// number, sets none.
pub proof fn lengths_are_kept(
    kind: KindView,
    value: Seq<char>,
    custom: Seq<char>,
    number: NumberVerdict,
    limit: Seq<char>,
    n: nat,
)
    requires
        kind is Element,
    ensures
        attr(kind, "maxlength"@) == Some(limit) && number::unsigned_value(
            limit,
            10,
            usize::MAX as nat,
        ) == Some(n) ==> (flags_of(kind, value, custom, number).too_long <==> value.len() > n),
        attr(kind, "minlength"@) == Some(limit) && number::unsigned_value(
            limit,
            10,
            usize::MAX as nat,
        ) == Some(n) ==> (flags_of(kind, value, custom, number).too_short <==> 0 < value.len() < n),
        attr(kind, "maxlength"@) is None ==> !flags_of(kind, value, custom, number).too_long,
        attr(kind, "minlength"@) is None ==> !flags_of(kind, value, custom, number).too_short,
        attr(kind, "maxlength"@) matches Some(v) ==> (number::unsigned_value(
            v,
            10,
            usize::MAX as nat,
        ) is None ==> !flags_of(kind, value, custom, number).too_long),
        attr(kind, "minlength"@) matches Some(v) ==> (number::unsigned_value(
            v,
            10,
            usize::MAX as nat,
        ) is None ==> !flags_of(kind, value, custom, number).too_short),
{
}

/// A control that asks for just so many characters takes a value of that length.
pub proof fn exact_lengths_fit(
    kind: KindView,
    value: Seq<char>,
    custom: Seq<char>,
    number: NumberVerdict,
)
    requires
        kind is Element,
        attr(kind, "maxlength"@) == Some(number::decimal(value.len())),
        attr(kind, "minlength"@) == Some(number::decimal(value.len())),
        value.len() <= usize::MAX,
    ensures
        !flags_of(kind, value, custom, number).too_long,
        !flags_of(kind, value, custom, number).too_short,
{
    number::number_text_round_trip(value.len(), 10, usize::MAX as nat);
    lengths_are_kept(kind, value, custom, number, number::decimal(value.len()), value.len());
}

/// Only a control that is required misses a value, and only where it is empty; nothing else is ever
/// wrong with an empty value but what its page says.
pub proof fn empty_values_are_only_missing(
    kind: KindView,
    value: Seq<char>,
    custom: Seq<char>,
    number: NumberVerdict,
)
    requires
        kind is Element,
    ensures
        flags_of(kind, value, custom, number).value_missing <==> attr(kind, "required"@) is Some
            && value.len() == 0,
        flags_of(kind, value, custom, number).custom_error <==> custom.len() > 0,
        value.len() == 0 && custom.len() == 0 && attr(kind, "required"@) is None ==> flags_of(
            kind,
            value,
            custom,
            number,
        ).is_valid(),
        value.len() == 0 ==> {
            let f = flags_of(kind, value, custom, number);
            !f.type_mismatch && !f.pattern_mismatch && !f.too_long && !f.too_short
                && !f.range_underflow && !f.range_overflow && !f.step_mismatch && !f.bad_input
        },
{
}

/// A value is held to its pattern, its type and its range: one that is there mismatches its pattern
/// just where that does not accept it; only addresses for mail and of the web have a form, and only
/// numbers a range.
pub proof fn values_are_held_to_their_control(
    kind: KindView,
    value: Seq<char>,
    custom: Seq<char>,
    number: NumberVerdict,
)
    requires
        kind is Element,
        value.len() > 0,
    ensures
        flags_of(kind, value, custom, number).pattern_mismatch <==> (attr(kind, "pattern"@) matches
            Some(p) && !pattern::fits(p, value)),
        !(kind matches KindView::Element { tag, .. } && tag == "input"@) ==> {
            let f = flags_of(kind, value, custom, number);
            !f.type_mismatch && !f.range_underflow && !f.range_overflow && !f.step_mismatch
                && !f.bad_input
        },
        (kind matches KindView::Element { tag, .. } && tag == "input"@) ==> {
            let f = flags_of(kind, value, custom, number);
            let ty = match attr(kind, "type"@) {
                Some(v) => text::lower(v),
                None => Seq::empty(),
            };
            let counts = ty == "number"@ || ty == "range"@;
            &&& ty == "email"@ ==> (f.type_mismatch <==> !is_email(value))
            &&& ty == "url"@ ==> (f.type_mismatch <==> !is_web_address(value))
            &&& ty != "email"@ && ty != "url"@ ==> !f.type_mismatch
            &&& f.range_underflow <==> counts && number.is_number && number.below
            &&& f.range_overflow <==> counts && number.is_number && number.above
            &&& f.step_mismatch <==> counts && number.is_number && number.off_step
            &&& f.bad_input <==> counts && !number.is_number
        },
{
    reveal_strlit("email");
    reveal_strlit("url");
    assert("email"@[0] == 'e' && "url"@[0] == 'u');
}

/// An address for mail has one at sign, something before it, and behind it something with a dot;
/// white space around it does not count.
pub proof fn mail_addresses_have_one_at_sign(s: Seq<char>, a: Seq<char>, b: Seq<char>)
    requires
        text::trimmed(s) == a.push('@') + b,
        !a.contains('@'),
    ensures
        is_email(s) <==> a.len() > 0 && b.len() > 0 && !b.contains('@') && b.contains('.'),
{
    let k = CharClass::Is('@');
    text::texts_are_cut_at_their_class(a, '@', b, k);
    assert forall|i: int| 0 <= i < a.len() implies !k.has_char(#[trigger] a[i]) by {
        assert(a.contains(a[i]));
    }
    let v = text::pieces(a.push('@') + b, k);
    assert(v == seq![a] + text::pieces(b, k));
    if !b.contains('@') {
        assert forall|i: int| 0 <= i < b.len() implies !k.has_char(#[trigger] b[i]) by {
            assert(b.contains(b[i]));
        }
        text::texts_are_cut_at_their_class(b, '@', b, k);
        assert(v =~= seq![a, b]);
    } else {
        let i = text::first_at(b, '@');
        text::texts_are_cut_once(b, '@', b.take(i), b.skip(i + 1));
        text::texts_are_cut_at_their_class(b.take(i), '@', b.skip(i + 1), k);
        text::lemma_pieces_nonempty(b.take(i), k);
        text::lemma_pieces_nonempty(b.skip(i + 1), k);
        assert(text::cut_at(b, '@') == Some((b.take(i), b.skip(i + 1))));
        assert(v.len() >= 3);
    }
}

/// Without an at sign there is no address for mail.
pub proof fn mail_addresses_need_an_at_sign(s: Seq<char>)
    requires
        !text::trimmed(s).contains('@'),
    ensures
        !is_email(s),
{
    let k = CharClass::Is('@');
    let t = text::trimmed(s);
    assert forall|i: int| 0 <= i < t.len() implies !k.has_char(#[trigger] t[i]) by {
        assert(t.contains(t[i]));
    }
    text::texts_are_cut_at_their_class(t, '@', t, k);
}

/// An address of the web begins with one of three schemes, whatever follows.
pub proof fn web_addresses_begin_with_a_scheme(s: Seq<char>)
    ensures
        is_web_address("http://"@ + s),
        is_web_address("https://"@ + s),
        is_web_address("ftp://"@ + s),
        is_web_address(s) ==> exists|rest: Seq<char>|
            s == #[trigger] ("http://"@ + rest) || s == "https://"@ + rest || s == "ftp://"@ + rest,
{
    text::beginnings_and_ends(s, "http://"@, s);
    text::beginnings_and_ends(s, "https://"@, s);
    text::beginnings_and_ends(s, "ftp://"@, s);
    if is_web_address(s) {
        if text::begins(s, "http://"@) {
            let rest = s.skip("http://"@.len() as int);
            assert(s == "http://"@ + rest);
        } else if text::begins(s, "https://"@) {
            let rest = s.skip("https://"@.len() as int);
            assert(s == "https://"@ + rest);
            assert("http://"@ + rest == "http://"@ + rest);
        } else {
            let rest = s.skip("ftp://"@.len() as int);
            assert(s == "ftp://"@ + rest);
            assert("http://"@ + rest == "http://"@ + rest);
        }
    }
}

/// A control is valid where none of the things that can be wrong is, and a form where all of its
/// controls are; checking fires an event just where there is something wrong.
pub proof fn validity_is_nothing_wrong(f: ValidityFlags)
    ensures
        f.is_valid() <==> !f.value_missing && !f.type_mismatch && !f.pattern_mismatch && !f.too_long
            && !f.too_short && !f.range_underflow && !f.range_overflow && !f.step_mismatch
            && !f.bad_input && !f.custom_error,
        checked(f.is_valid()).valid == f.is_valid(),
        checked(f.is_valid()).event == (if f.is_valid() {
            None
        } else {
            Some("invalid"@)
        }),
{
}

/// The message is about the first thing that is wrong: what the page says, then a missing value, the
/// type, the pattern, the length, the range, the step, and a value that is no number.
pub proof fn messages_tell_the_first_fault(f: ValidityFlags, custom: Seq<char>)
    ensures
        f.custom_error && custom.len() > 0 ==> message_of(f, custom) == custom,
        !f.custom_error ==> {
            let m = message_of(f, custom);
            let r0 = !f.value_missing;
            let r1 = r0 && !f.type_mismatch;
            let r2 = r1 && !f.pattern_mismatch;
            let r3 = r2 && !f.too_long;
            let r4 = r3 && !f.too_short;
            let r5 = r4 && !f.range_underflow;
            let r6 = r5 && !f.range_overflow;
            let r7 = r6 && !f.step_mismatch;
            &&& f.value_missing ==> m == "Please fill out this field."@
            &&& r0 && f.type_mismatch ==> m == "Please enter a value matching the expected format."@
            &&& r1 && f.pattern_mismatch ==> m == "Please match the requested format."@
            &&& r2 && f.too_long ==> m == "Value is too long."@
            &&& r3 && f.too_short ==> m == "Value is too short."@
            &&& r4 && f.range_underflow ==> m == "Value is below the minimum."@
            &&& r5 && f.range_overflow ==> m == "Value is above the maximum."@
            &&& r6 && f.step_mismatch ==> m == "Value does not match the step."@
            &&& r7 && f.bad_input ==> m == "Please enter a number."@
            &&& r7 && !f.bad_input ==> m.len() == 0
        },
{
    reveal_strlit("");
}

/// What is validated at all: inputs, selections, text areas and buttons, unless they are disabled or
/// hidden inputs.
pub proof fn controls_are_validated(
    tag: Seq<char>,
    attrs: Seq<(Seq<char>, Seq<char>)>,
)
    ensures
        validates(KindView::Element { tag, attrs }) <==> (text::lower(tag) == "input"@ || text::lower(
            tag,
        ) == "select"@ || text::lower(tag) == "textarea"@ || text::lower(tag) == "button"@) && (
        forall|j: int|
            0 <= j < attrs.len() ==> text::lower((#[trigger] attrs[j]).0) != text::lower(
                "disabled"@,
            ) && !(text::lower(tag) == "input"@ && text::lower(attrs[j].0) == text::lower("type"@)
                && attrs[j].1 == "hidden"@)),
        !validates(KindView::Document),
{
    let input = text::lower(tag) == "input"@;
    assert forall|j: int|
        0 <= j < attrs.len() implies (bars(input)(#[trigger] attrs[j]) <==> text::lower(attrs[j].0)
        == text::lower("disabled"@) || (input && text::lower(attrs[j].0) == text::lower("type"@)
        && attrs[j].1 == "hidden"@)) by {}
}

proof fn lemma_backward(t: Seq<NodeView>, id: NodeId)
    requires
        tree::wf(t),
        tree::has(t, id),
    ensures
        backward(t, id).no_duplicates(),
        forall|x: NodeId| #[trigger] backward(t, id).contains(x) <==> tree::within(t, id, x),
    decreases tree::rank(t, id), t[id.at()].children.len() + 1,
{
    let n = t[id.at()].children.len() as int;
    let v = backward_below(t, id, n);
    let all = backward(t, id);
    lemma_backward_below(t, id, n);
    assert(all == seq![id] + v);
    assert forall|i: int| 0 <= i < v.len() implies #[trigger] v[i] != id by {
        assert(v.contains(v[i]));
        let k = choose|k: int|
            0 <= k < n && tree::within(t, #[trigger] t[id.at()].children[k], v[i]);
        tree::lemma_child(t, id, k);
        tree::lemma_within_rank(t, t[id.at()].children[k], v[i]);
    }
    assert forall|x: NodeId| #[trigger] all.contains(x) <==> tree::within(t, id, x) by {
        if all.contains(x) && x != id {
            let i = all.index_of(x);
            assert(v[i - 1] == x);
            assert(v.contains(x));
        }
        if tree::within(t, id, x) {
            if x == id {
                assert(all[0] == id);
            } else {
                assert(v.contains(x));
                let i = v.index_of(x);
                assert(all[i + 1] == x);
            }
        }
    }
}

proof fn lemma_backward_below(t: Seq<NodeView>, id: NodeId, n: int)
    requires
        tree::wf(t),
        tree::has(t, id),
        0 <= n <= t[id.at()].children.len(),
    ensures
        backward_below(t, id, n).no_duplicates(),
        forall|x: NodeId| #[trigger]
            backward_below(t, id, n).contains(x) <==> exists|k: int|
                0 <= k < n && tree::within(t, #[trigger] t[id.at()].children[k], x),
    decreases tree::rank(t, id), n,
{
    let v = backward_below(t, id, n);
    if n > 0 {
        let c = t[id.at()].children[n - 1];
        tree::lemma_child(t, id, n - 1);
        lemma_backward_below(t, id, n - 1);
        lemma_backward(t, c);
        let a = backward_below(t, id, n - 1);
        let b = backward(t, c);
        assert(v == b + a);
        assert forall|i: int, j: int| 0 <= i < a.len() && 0 <= j < b.len() implies #[trigger] a[i]
            != #[trigger] b[j] by {
            assert(a.contains(a[i]));
            assert(b.contains(b[j]));
            let k = choose|k: int|
                0 <= k < n - 1 && tree::within(t, #[trigger] t[id.at()].children[k], a[i]);
            tree::lemma_apart(t, id, k, n - 1, a[i]);
        }
        assert forall|x: NodeId| #[trigger] v.contains(x) <==> exists|k: int|
            0 <= k < n && tree::within(t, #[trigger] t[id.at()].children[k], x) by {
            if v.contains(x) {
                let i = v.index_of(x);
                if i < b.len() {
                    assert(b[i] == x);
                    assert(b.contains(x));
                    assert(tree::within(t, t[id.at()].children[n - 1], x));
                } else {
                    assert(a[i - b.len()] == x);
                    assert(a.contains(x));
                }
            }
            if exists|k: int| 0 <= k < n && tree::within(t, #[trigger] t[id.at()].children[k], x) {
                let k = choose|k: int|
                    0 <= k < n && tree::within(t, #[trigger] t[id.at()].children[k], x);
                if k < n - 1 {
                    assert(a.contains(x));
                    let i = a.index_of(x);
                    assert(v[b.len() + i] == x);
                } else {
                    assert(b.contains(x));
                    let i = b.index_of(x);
                    assert(v[i] == x);
                }
            }
        }
    }
}

/// The controls of a form are the inputs, selections and text areas below it, each once, whatever
/// else is between.
pub proof fn form_controls_are_those_below(t: Seq<NodeView>, form: NodeId, n: NodeId)
    requires
        tree::wf(t),
        tree::has(t, form),
    ensures
        form_controls(t, form).contains(n) <==> n != form && tree::within(t, form, n) && (
        t[n.at()].kind matches KindView::Element { tag, .. } && (text::lower(tag) == "input"@
            || text::lower(tag) == "select"@ || text::lower(tag) == "textarea"@)),
        form_controls(t, form).no_duplicates(),
        controls_in_order(t, form).contains(n) <==> form_controls(t, form).contains(n),
        controls_in_order(t, form).no_duplicates(),
{
    lemma_backward(t, form);
    tree::subtree_lists_each_once(t, form);
    pairs::lemma_filtered_once(backward(t, form), is_form_control(t, form));
    pairs::lemma_filtered_once(tree::subtree(t, form), is_form_control(t, form));
}

/// What a control submits: its name and its value, where it has a name; the pairs come in the order
/// of the controls.
pub proof fn named_controls_are_submitted(t: Seq<NodeView>, v: Seq<NodeId>, n: NodeId)
    ensures
        submitted(t, Seq::empty()) == Seq::<(Seq<char>, Seq<char>)>::empty(),
        attr(t[n.at()].kind, "name"@) is None ==> submitted(t, v.push(n)) == submitted(t, v),
        attr(t[n.at()].kind, "name"@) matches Some(name) ==> submitted(t, v.push(n)) == submitted(
            t,
            v,
        ).push(
            (
                name,
                match attr(t[n.at()].kind, "value"@) {
                    Some(x) => x,
                    None => Seq::empty(),
                },
            ),
        ),
{
    assert(v.push(n).drop_last() =~= v);
}

/// The bytes that an encoded text stands for: a plus sign is a space, a percent sign and two digits
/// are the byte with that number, and other characters are themselves.
pub open spec fn decoded_bytes(s: Seq<char>) -> Seq<u8>
    decreases s.len(),
{
    if s.len() == 0 {
        Seq::empty()
    } else if s[0] == '+' {
        seq![32u8] + decoded_bytes(s.skip(1))
    } else if s[0] == '%' && s.len() >= 3 {
        match number::digits_value(s.subrange(1, 3), 16) {
            Some(v) => seq![v as u8] + decoded_bytes(s.skip(3)),
            None => Seq::empty(),
        }
    } else {
        seq![s[0] as u8] + decoded_bytes(s.skip(1))
    }
}

proof fn lemma_encoded_front(v: Seq<u8>)
    requires
        v.len() > 0,
    ensures
        encoded_bytes(v) == encoded_byte(v[0]) + encoded_bytes(v.skip(1)),
    decreases v.len(),
{
    if v.len() == 1 {
        assert(v.drop_last() =~= Seq::<u8>::empty());
        assert(v.skip(1) =~= Seq::<u8>::empty());
        assert(encoded_bytes(v) =~= encoded_byte(v[0]) + encoded_bytes(v.skip(1)));
    } else {
        lemma_encoded_front(v.drop_last());
        assert(v.drop_last().skip(1) =~= v.skip(1).drop_last());
        assert(v.skip(1).last() == v.last());
        assert(encoded_bytes(v) =~= encoded_byte(v[0]) + encoded_bytes(v.skip(1)));
    }
}

/// What was encoded for an address is read back as it was, byte by byte, and stands there in letters,
/// digits and a few signs alone.
pub proof fn encoded_bytes_are_read_back(v: Seq<u8>)
    ensures
        decoded_bytes(encoded_bytes(v)) == v,
    decreases v.len(),
{
    if v.len() > 0 {
        let rest = v.skip(1);
        encoded_bytes_are_read_back(rest);
        lemma_encoded_front(v);
        let e = encoded_byte(v[0]);
        let more = encoded_bytes(rest);
        let s = e + more;
        assert(s.skip(e.len() as int) =~= more);
        assert(s[0] == e[0]);
        assert(seq![v[0]] + rest =~= v);
        if !is_plain_byte(v[0]) && v[0] != 32 {
            let hi = (v[0] as int / 16) as nat;
            let lo = (v[0] as int % 16) as nat;
            let two = s.subrange(1, 3);
            assert(two =~= seq![capital_digit(hi as int), capital_digit(lo as int)]);
            lemma_capital_digit(hi);
            lemma_capital_digit(lo);
            assert(two.drop_last() =~= seq![capital_digit(hi as int)]);
            assert(two.drop_last().drop_last() =~= Seq::<char>::empty());
            reveal_with_fuel(number::digits_value, 3);
            assert(number::digits_value(two, 16) == Some((hi * 16 + lo) as nat));
            assert(hi * 16 + lo == v[0]);
        } else {
            assert(e.len() == 1);
        }
    }
}

proof fn lemma_capital_digit(d: nat)
    requires
        d < 16,
    ensures
        number::digit_value(capital_digit(d as int), 16) == Some(d),
{
}

/// A form goes to its action. What it submits goes along where it is got and submits anything: behind
/// a question mark, or behind an ampersand where the action has one already.
pub proof fn forms_go_to_their_action(t: Seq<NodeView>, form: NodeId, action: Seq<char>)
    requires
        attr(t[form.at()].kind, "action"@) == Some(action),
    ensures
        action.len() == 0 ==> target_of(t, form) is None,
        action.len() > 0 ==> {
            let query = query_of(t, form_controls(t, form));
            let got = attr(t[form.at()].kind, "method"@) is None || text::upper(
                attr(t[form.at()].kind, "method"@)->0,
            ) == "GET"@;
            &&& target_of(t, form) matches Some(url) && text::begins(url, action)
            &&& !got || query.len() == 0 ==> target_of(t, form) == Some(action)
            &&& got && query.len() > 0 && !action.contains('?') ==> target_of(t, form) == Some(
                action.push('?') + query,
            )
            &&& got && query.len() > 0 && action.contains('?') ==> target_of(t, form) == Some(
                action.push('&') + query,
            )
        },
{
    let query = query_of(t, form_controls(t, form));
    reveal_strlit("?");
    reveal_strlit("&");
    assert("?"@ =~= seq!['?']);
    assert("&"@ =~= seq!['&']);
    assert(action + "?"@ + query =~= action.push('?') + query);
    assert(action + "&"@ + query =~= action.push('&') + query);
    text::beginnings_and_ends(action, action, Seq::empty());
    assert(action + Seq::empty() =~= action);
    text::beginnings_and_ends(action, action, seq!['?'] + query);
    assert(action + (seq!['?'] + query) =~= action.push('?') + query);
    text::beginnings_and_ends(action, action, seq!['&'] + query);
    assert(action + (seq!['&'] + query) =~= action.push('&') + query);
}

/// The names and values that a form submits are read back from its query: cut at the ampersands and,
/// each, at the sign of equality, it gives them encoded, all of them and in order.
pub proof fn queries_tell_what_is_submitted(t: Seq<NodeView>, controls: Seq<NodeId>, i: int)
    requires
        0 <= i < submitted(t, controls).len(),
    ensures
        text::pieces(query_of(t, controls), CharClass::Is('&')).len() == submitted(
            t,
            controls,
        ).len(),
        text::cut_at(text::pieces(query_of(t, controls), CharClass::Is('&'))[i], '=') == Some(
            (url_encoded(submitted(t, controls)[i].0), url_encoded(submitted(t, controls)[i].1)),
        ),
{
    let v = submitted(t, controls);
    let parts = encoded_pairs(v);
    reveal_strlit("&");
    assert("&"@ =~= seq!['&']);
    assert forall|j: int| 0 <= j < parts.len() implies !(#[trigger] parts[j]).contains('&') by {
        let a = url_encoded(v[j].0);
        let b = url_encoded(v[j].1);
        encoded_text_is_plain(v[j].0);
        encoded_text_is_plain(v[j].1);
        assert(parts[j] == a + seq!['='] + b);
        if parts[j].contains('&') {
            let k = parts[j].index_of('&');
            if k < a.len() {
                assert(a[k] == '&');
                assert(a.contains('&'));
            } else if k > a.len() {
                assert(b[k - a.len() - 1] == '&');
                assert(b.contains('&'));
            }
        }
    }
    text::joined_texts_are_cut_again(parts, '&');
    let a = url_encoded(v[i].0);
    let b = url_encoded(v[i].1);
    encoded_text_is_plain(v[i].0);
    assert(parts[i] =~= a.push('=') + b);
    text::texts_are_cut_once(parts[i], '=', a, b);
}

/// A form is valid where nothing is wrong with any of its controls: one that something is wrong with
/// spoils it, and taking a control away does not.
pub proof fn forms_are_valid_where_all_is(
    t: Seq<NodeView>,
    controls: Seq<NodeId>,
    customs: Map<u32, Seq<char>>,
    numbers: Seq<NumberVerdict>,
    i: int,
)
    requires
        0 <= i < controls.len(),
    ensures
        form_is_valid(t, controls, customs, numbers) ==> flags_of(
            t[controls[i].at()].kind,
            value_of(t[controls[i].at()].kind),
            custom_of(customs, controls[i]),
            verdict_at(numbers, i),
        ) == no_flags(),
        custom_of(customs, controls[i]).len() > 0 && t[controls[i].at()].kind is Element
            ==> !form_is_valid(t, controls, customs, numbers),
        form_is_valid(t, controls, customs, numbers) <==> form_is_valid(
            t,
            controls.drop_last(),
            customs,
            numbers,
        ) && control_flags(
            t[controls.last().at()].kind,
            custom_of(customs, controls.last()),
            verdict_at(numbers, controls.len() - 1),
        ).is_valid(),
        form_is_valid(t, Seq::empty(), customs, numbers),
{
    let d = controls.drop_last();
    assert(controls[i] == controls[i]);
    if form_is_valid(t, controls, customs, numbers) {
        assert forall|j: int| 0 <= j < d.len() implies control_flags(
            t[(#[trigger] d[j]).at()].kind,
            custom_of(customs, d[j]),
            verdict_at(numbers, j),
        ).is_valid() by {
            assert(d[j] == controls[j]);
        }
        assert(controls[controls.len() - 1] == controls.last());
    }
    if form_is_valid(t, d, customs, numbers) && control_flags(
        t[controls.last().at()].kind,
        custom_of(customs, controls.last()),
        verdict_at(numbers, controls.len() - 1),
    ).is_valid() {
        assert forall|j: int| 0 <= j < controls.len() implies control_flags(
            t[(#[trigger] controls[j]).at()].kind,
            custom_of(customs, controls[j]),
            verdict_at(numbers, j),
        ).is_valid() by {
            if j < d.len() {
                assert(d[j] == controls[j]);
            }
        }
    }
}

/// A control that is switched off, or an input that is hidden, is kept from being validated, however
/// the attribute's name is written; nothing else keeps one from it.
pub proof fn barred_controls_are_known(
    attrs: Seq<(Seq<char>, Seq<char>)>,
    input: bool,
    name: Seq<char>,
    value: Seq<char>,
)
    ensures
        attrs.contains(("disabled"@, value)) ==> !no_bar(attrs, input),
        attrs.contains(("type"@, "hidden"@)) && input ==> !no_bar(attrs, input),
        (forall|i: int|
            0 <= i < attrs.len() ==> text::lower((#[trigger] attrs[i]).0) != text::lower(
                "disabled"@,
            ) && (text::lower(attrs[i].0) != text::lower("type"@) || attrs[i].1 != "hidden"@))
            ==> no_bar(attrs, input),
        no_bar(attrs, true) ==> no_bar(attrs, false),
        is_control_tag(name) <==> text::lower(name) == "input"@ || text::lower(name) == "select"@
            || text::lower(name) == "textarea"@,
{
    if attrs.contains(("disabled"@, value)) {
        let i = attrs.index_of(("disabled"@, value));
        assert(bars(input)(attrs[i]));
    }
    if attrs.contains(("type"@, "hidden"@)) && input {
        let i = attrs.index_of(("type"@, "hidden"@));
        assert(bars(input)(attrs[i]));
    }
    if no_bar(attrs, true) {
        assert forall|i: int| 0 <= i < attrs.len() implies !bars(false)(#[trigger] attrs[i]) by {
            assert(!bars(true)(attrs[i]));
        }
    }
}

/// In an encoded text letters, digits, the hyphen, the underscore, the point and the tilde stand for
/// themselves, a plus sign stands for a space, and any other byte is told by a percent sign and its two
/// digits, in capitals.
pub proof fn bytes_are_encoded(v: Seq<u8>, b: u8)
    ensures
        encoded_bytes(Seq::empty()).len() == 0,
        'A' as int <= b <= 'Z' as int || 'a' as int <= b <= 'z' as int || '0' as int <= b
            <= '9' as int || b == '-' as int || b == '_' as int || b == '.' as int || b == '~' as int
            ==> encoded_bytes(v.push(b)) == encoded_bytes(v).push(b as char),
        b == ' ' as int ==> encoded_bytes(v.push(b)) == encoded_bytes(v).push('+'),
        !('A' as int <= b <= 'Z' as int || 'a' as int <= b <= 'z' as int || '0' as int <= b
            <= '9' as int || b == '-' as int || b == '_' as int || b == '.' as int || b == '~' as int
            || b == ' ' as int) ==> encoded_bytes(v.push(b)) == encoded_bytes(v).push('%')
            + text::upper(crate::bytes::hex_pair(b)),
{
    assert(v.push(b).drop_last() =~= v);
    let e = encoded_bytes(v);
    assert(e + seq![b as char] =~= e.push(b as char));
    assert(e + seq!['+'] =~= e.push('+'));
    let p = crate::bytes::hex_pair(b);
    assert(e + seq!['%', capital_digit(b as int / 16), capital_digit(b as int % 16)] =~= e.push('%')
        + text::upper(p));
}

} // verus!
