//! What scripts see of the objects of a page: the names of their members, and how each is reached.
//!
//! An object is described by the words of a text, one for each member: `name` can be read,
//! `name=` can be read and set, and `name/2` can be called with two arguments.
use crate::number;
use crate::text;
use crate::text::CharClass;
use vstd::prelude::*;

verus! {

/// How a member is reached.
#[derive(Clone, Copy, PartialEq, Eq, Structural, Debug)]
pub enum Access {
    /// It is read through a function.
    Read,
    /// It is read and set through two functions.
    ReadWrite,
    /// It is a function with so many arguments.
    Call(u32),
}

/// A member of an object.
pub struct Member {
    pub name: String,
    pub access: Access,
}

/// A member over plain values.
#[verifier::ext_equal]
pub ghost struct MemberView {
    pub name: Seq<char>,
    pub access: Access,
}

impl View for Member {
    type V = MemberView;

    open spec fn view(&self) -> MemberView {
        MemberView { name: self.name@, access: self.access }
    }
}

/// Members over plain values.
pub open spec fn members_view(v: Seq<Member>) -> Seq<MemberView> {
    v.map_values(|m: Member| m@)
}

/// The member that a word describes. A count of arguments that cannot be read is zero.
pub open spec fn described(w: Seq<char>) -> MemberView {
    match text::cut_at(w, '/') {
        Some((name, count)) => MemberView {
            name,
            access: Access::Call(
                match number::unsigned_value(count, 10, u32::MAX as nat) {
                    Some(n) => n as u32,
                    None => 0,
                },
            ),
        },
        None => if w.len() > 0 && w.last() == '=' {
            MemberView { name: w.drop_last(), access: Access::ReadWrite }
        } else {
            MemberView { name: w, access: Access::Read }
        },
    }
}

/// The members that the words of a text describe.
pub open spec fn members_of(s: Seq<char>) -> Seq<MemberView> {
    text::words(s, CharClass::Space).map_values(|w: Seq<char>| described(w))
}

fn read_member(w: &[char]) -> (r: Member)
    ensures
        r@ == described(w@),
{
    match text::split_once(w, '/') {
        Some((name, count)) => {
            let n: u32 = match number::read_unsigned(&count, 10, 0xffff_ffff) {
                Some(n) => n as u32,
                None => 0,
            };
            Member { name: text::to_text(&name), access: Access::Call(n) }
        },
        None => {
            let n: usize = w.len();
            if n > 0 && w[n - 1] == '=' {
                let name = text::copy_range(w, 0, n - 1);
                proof {
                    assert(name@ =~= w@.drop_last());
                }
                Member { name: text::to_text(&name), access: Access::ReadWrite }
            } else {
                Member { name: text::to_text(w), access: Access::Read }
            }
        },
    }
}

/// Reads the description of an object.
pub fn read_members(s: &str) -> (r: Vec<Member>)
    ensures
        members_view(r@) == members_of(s@),
{
    let cs = text::to_chars(s);
    let words = text::split_words(&cs, CharClass::Space);
    let ghost all = text::pieces_view(words@);
    let ghost goal = members_of(s@);
    let mut out: Vec<Member> = Vec::new();
    let mut i: usize = 0;
    proof {
        assert(members_view(out@) =~= goal.take(0));
    }
    while i < words.len()
        invariant
            i <= words@.len(),
            all == text::pieces_view(words@),
            all == text::words(s@, CharClass::Space),
            goal == members_of(s@),
            members_view(out@) == goal.take(i as int),
        decreases words@.len() - i,
    {
        let ghost prev = out@;
        let m = read_member(&words[i]);
        let ghost seen = m@;
        out.push(m);
        proof {
            assert(all[i as int] == words@[i as int]@);
            assert(members_view(out@) =~= members_view(prev).push(seen));
            assert(goal.take(i + 1) =~= goal.take(i as int).push(goal[i as int]));
        }
        i = i + 1;
    }
    proof {
        assert(goal.take(goal.len() as int) =~= goal);
    }
    out
}

/// An object that scripts see.
#[derive(Clone, Copy, PartialEq, Eq, Structural, Debug)]
pub enum Shape {
    /// The page.
    Document,
    /// An element of the page.
    Element,
    /// The classes of an element.
    ClassList,
    /// The declarations of an element.
    Style,
    /// The address of the page.
    Location,
    /// The pages that were visited.
    History,
    /// What is drawn on a canvas with.
    Context2d,
    /// What is drawn on a canvas away from the screen with.
    OffscreenContext,
    /// What is dragged or copied.
    DataTransfer,
    /// The graph of audio nodes.
    AudioContext,
    /// An audio node.
    AudioNode,
    /// What an analyser has besides.
    Analyser,
    /// What a control of a form has besides.
    Control,
    /// What a form has besides.
    Form,
    /// What a dialog has besides.
    Dialog,
    /// What every element has besides, since any may be shown on top of the page.
    Popover,
}

impl Shape {
    /// The description of the object.
    pub open spec fn description(self) -> Seq<char> {
        match self {
            Shape::Document => "getElementById/1 querySelector/1 querySelectorAll/1 createElement/1 createTextNode/1 getElementsByTagName/1 getElementsByClassName/1 documentElement body title cookie="@,
            Shape::Element => "tagName nodeName id= className= textContent= parentElement children getAttribute/1 hasAttribute/1 setAttribute/2 removeAttribute/1 addEventListener/2 getBoundingClientRect/0 getContext/1 play/0 pause/0 appendChild/1 removeChild/1 insertBefore/2 replaceChild/2 cloneNode/1 matches/1 closest/1 querySelector/1 querySelectorAll/1 animate/2 getAnimations/0 innerHTML= outerHTML classList style dataset srcObject= contentEditable= isContentEditable"@,
            Shape::ClassList => "length add/1 remove/1 toggle/1 contains/1 replace/2"@,
            Shape::Style => "setProperty/2 getPropertyValue/1 removeProperty/1 cssText="@,
            Shape::Location => "href= origin protocol host hostname port pathname search hash assign/1 replace/1 reload/0 toString/0"@,
            Shape::History => "length state pushState/3 replaceState/3 back/0 forward/0 go/1"@,
            Shape::Context2d => "fillRect/0 strokeRect/0 clearRect/0 beginPath/0 closePath/0 moveTo/0 lineTo/0 fill/0 stroke/0 save/0 restore/0"@,
            Shape::OffscreenContext => "fillRect/4 clearRect/4 drawImage/9 getImageData/4 putImageData/7 save/0 restore/0 beginPath/0 closePath/0"@,
            Shape::DataTransfer => "getData/1 setData/2 clearData/1 __readTypes/0 types files"@,
            Shape::AudioContext => "currentTime createMediaStreamSource/1 createAnalyser/0 createGain/0 resume/0 suspend/0 close/0"@,
            Shape::AudioNode => "connect/1 disconnect/0"@,
            Shape::Analyser => "getByteFrequencyData/0 getByteTimeDomainData/0"@,
            Shape::Control => "checkValidity/0 reportValidity/0 setCustomValidity/1 validity validationMessage willValidate"@,
            Shape::Form => "checkValidity/0 reportValidity/0 requestSubmit/0"@,
            Shape::Dialog => "show/0 showModal/0 close/0 open= returnValue="@,
            Shape::Popover => "showPopover/0 hidePopover/0 togglePopover/0"@,
        }
    }

    /// The members of the object, in the order in which they are defined.
    pub fn members(self) -> (r: Vec<Member>)
        ensures
            members_view(r@) == members_of(self.description()),
    {
        read_members(
            match self {
                Shape::Document => "getElementById/1 querySelector/1 querySelectorAll/1 createElement/1 createTextNode/1 getElementsByTagName/1 getElementsByClassName/1 documentElement body title cookie=",
                Shape::Element => "tagName nodeName id= className= textContent= parentElement children getAttribute/1 hasAttribute/1 setAttribute/2 removeAttribute/1 addEventListener/2 getBoundingClientRect/0 getContext/1 play/0 pause/0 appendChild/1 removeChild/1 insertBefore/2 replaceChild/2 cloneNode/1 matches/1 closest/1 querySelector/1 querySelectorAll/1 animate/2 getAnimations/0 innerHTML= outerHTML classList style dataset srcObject= contentEditable= isContentEditable",
                Shape::ClassList => "length add/1 remove/1 toggle/1 contains/1 replace/2",
                Shape::Style => "setProperty/2 getPropertyValue/1 removeProperty/1 cssText=",
                Shape::Location => "href= origin protocol host hostname port pathname search hash assign/1 replace/1 reload/0 toString/0",
                Shape::History => "length state pushState/3 replaceState/3 back/0 forward/0 go/1",
                Shape::Context2d => "fillRect/0 strokeRect/0 clearRect/0 beginPath/0 closePath/0 moveTo/0 lineTo/0 fill/0 stroke/0 save/0 restore/0",
                Shape::OffscreenContext => "fillRect/4 clearRect/4 drawImage/9 getImageData/4 putImageData/7 save/0 restore/0 beginPath/0 closePath/0",
                Shape::DataTransfer => "getData/1 setData/2 clearData/1 __readTypes/0 types files",
                Shape::AudioContext => "currentTime createMediaStreamSource/1 createAnalyser/0 createGain/0 resume/0 suspend/0 close/0",
                Shape::AudioNode => "connect/1 disconnect/0",
                Shape::Analyser => "getByteFrequencyData/0 getByteTimeDomainData/0",
                Shape::Control => "checkValidity/0 reportValidity/0 setCustomValidity/1 validity validationMessage willValidate",
                Shape::Form => "checkValidity/0 reportValidity/0 requestSubmit/0",
                Shape::Dialog => "show/0 showModal/0 close/0 open= returnValue=",
                Shape::Popover => "showPopover/0 hidePopover/0 togglePopover/0",
            },
        )
    }
}

/// What an element of a tag has, one description after the other.
pub open spec fn shapes_of(tag: Seq<char>) -> Seq<Shape> {
    let t = text::lower(tag);
    if t == "input"@ || t == "select"@ || t == "textarea"@ {
        seq![Shape::Element, Shape::Control, Shape::Popover]
    } else if t == "form"@ {
        seq![Shape::Element, Shape::Form, Shape::Popover]
    } else if t == "dialog"@ {
        seq![Shape::Element, Shape::Dialog, Shape::Popover]
    } else {
        seq![Shape::Element, Shape::Popover]
    }
}

/// What an element of a tag has, one description after the other. Other nodes have no tag.
pub fn make_element_handle(tag: &str) -> (r: Vec<Shape>)
    ensures
        r@ == shapes_of(tag@),
{
    let t = text::lower_text(tag);
    let mut out: Vec<Shape> = Vec::new();
    out.push(Shape::Element);
    if text::same(&t, "input") || text::same(&t, "select") || text::same(&t, "textarea") {
        out.push(Shape::Control);
    } else if text::same(&t, "form") {
        out.push(Shape::Form);
    } else if text::same(&t, "dialog") {
        out.push(Shape::Dialog);
    }
    out.push(Shape::Popover);
    out
}

/// A value that does not change.
pub enum Constant {
    Text(String),
    Whole(u32),
    Truth(bool),
}

/// A value that does not change, over plain values.
#[verifier::ext_equal]
pub ghost enum ConstantView {
    Text(Seq<char>),
    Whole(u32),
    Truth(bool),
}

impl View for Constant {
    type V = ConstantView;

    open spec fn view(&self) -> ConstantView {
        match self {
            Constant::Text(s) => ConstantView::Text(s@),
            Constant::Whole(n) => ConstantView::Whole(*n),
            Constant::Truth(b) => ConstantView::Truth(*b),
        }
    }
}

/// Values under their names.
pub open spec fn constants_view(v: Seq<(String, Constant)>) -> Seq<(Seq<char>, ConstantView)> {
    v.map_values(|e: (String, Constant)| (e.0@, e.1@))
}

fn push_constant(out: &mut Vec<(String, Constant)>, name: &str, value: Constant)
    ensures
        constants_view(final(out)@) == constants_view(old(out)@).push((name@, value@)),
{
    let ghost before = out@;
    let ghost v = value@;
    out.push((text::copy(name), value));
    proof {
        assert(constants_view(out@) =~= constants_view(before).push((name@, v)));
    }
}

/// What scripts are told of the browser.
pub open spec fn navigator_constants(platform: Seq<char>) -> Seq<(Seq<char>, ConstantView)> {
    seq![
        ("userAgent"@, ConstantView::Text("daboss/0.1"@)),
        ("appName"@, ConstantView::Text("DaBoss"@)),
        ("appVersion"@, ConstantView::Text("0.1"@)),
        ("platform"@, ConstantView::Text(platform)),
        ("language"@, ConstantView::Text("en-US"@)),
        ("onLine"@, ConstantView::Truth(true)),
        ("cookieEnabled"@, ConstantView::Truth(true)),
    ]
}

/// What scripts are told of the browser, on a platform.
pub fn navigator_values(platform: &str) -> (r: Vec<(String, Constant)>)
    ensures
        constants_view(r@) == navigator_constants(platform@),
{
    let mut out: Vec<(String, Constant)> = Vec::new();
    proof {
        assert(constants_view(out@) =~= seq![]);
    }
    push_constant(&mut out, "userAgent", Constant::Text(text::copy("daboss/0.1")));
    push_constant(&mut out, "appName", Constant::Text(text::copy("DaBoss")));
    push_constant(&mut out, "appVersion", Constant::Text(text::copy("0.1")));
    push_constant(&mut out, "platform", Constant::Text(text::copy(platform)));
    push_constant(&mut out, "language", Constant::Text(text::copy("en-US")));
    push_constant(&mut out, "onLine", Constant::Truth(true));
    push_constant(&mut out, "cookieEnabled", Constant::Truth(true));
    out
}

/// What scripts are told of the screen.
pub open spec fn screen_constants() -> Seq<(Seq<char>, ConstantView)> {
    seq![
        ("width"@, ConstantView::Whole(1024)),
        ("height"@, ConstantView::Whole(768)),
        ("availWidth"@, ConstantView::Whole(1024)),
        ("availHeight"@, ConstantView::Whole(768)),
        ("colorDepth"@, ConstantView::Whole(24)),
    ]
}

/// What scripts are told of the screen.
pub fn screen_values() -> (r: Vec<(String, Constant)>)
    ensures
        constants_view(r@) == screen_constants(),
{
    let mut out: Vec<(String, Constant)> = Vec::new();
    proof {
        assert(constants_view(out@) =~= seq![]);
    }
    push_constant(&mut out, "width", Constant::Whole(1024));
    push_constant(&mut out, "height", Constant::Whole(768));
    push_constant(&mut out, "availWidth", Constant::Whole(1024));
    push_constant(&mut out, "availHeight", Constant::Whole(768));
    push_constant(&mut out, "colorDepth", Constant::Whole(24));
    out
}

/// What a context for drawing shows at first.
pub open spec fn context_constants() -> Seq<(Seq<char>, ConstantView)> {
    seq![
        ("fillStyle"@, ConstantView::Text("#000000"@)),
        ("strokeStyle"@, ConstantView::Text("#000000"@)),
        ("lineWidth"@, ConstantView::Whole(1)),
        ("globalAlpha"@, ConstantView::Whole(1)),
    ]
}

/// What a context for drawing shows at first, on a canvas of the page or away from it.
pub fn context_values() -> (r: Vec<(String, Constant)>)
    ensures
        constants_view(r@) == context_constants(),
{
    let mut out: Vec<(String, Constant)> = Vec::new();
    proof {
        assert(constants_view(out@) =~= seq![]);
    }
    push_constant(&mut out, "fillStyle", Constant::Text(text::copy("#000000")));
    push_constant(&mut out, "strokeStyle", Constant::Text(text::copy("#000000")));
    push_constant(&mut out, "lineWidth", Constant::Whole(1));
    push_constant(&mut out, "globalAlpha", Constant::Whole(1));
    out
}

/// What scripts are told of an audio context.
pub open spec fn audio_constants() -> Seq<(Seq<char>, ConstantView)> {
    seq![
        ("sampleRate"@, ConstantView::Whole(48000)),
        ("state"@, ConstantView::Text("running"@)),
    ]
}

/// What scripts are told of an audio context.
pub fn audio_values() -> (r: Vec<(String, Constant)>)
    ensures
        constants_view(r@) == audio_constants(),
{
    let mut out: Vec<(String, Constant)> = Vec::new();
    proof {
        assert(constants_view(out@) =~= seq![]);
    }
    push_constant(&mut out, "sampleRate", Constant::Whole(48000));
    push_constant(&mut out, "state", Constant::Text(text::copy("running")));
    out
}

/// A word describes a function by its name, a slash and a count of arguments, something that can be
/// set by its name and a sign of equality, and anything else by its name.
pub proof fn words_describe_members(name: Seq<char>, n: u32)
    requires
        !name.contains('/'),
    ensures
        described(name.push('/') + number::decimal(n as nat)) == (MemberView {
            name,
            access: Access::Call(n),
        }),
        described(name.push('=')) == (MemberView { name, access: Access::ReadWrite }),
        name.len() > 0 && name.last() != '=' ==> described(name) == (MemberView {
            name,
            access: Access::Read,
        }),
{
    let w = name.push('/') + number::decimal(n as nat);
    text::texts_are_cut_once(w, '/', name, number::decimal(n as nat));
    number::number_text_round_trip(n as nat, 10, u32::MAX as nat);
    let e = name.push('=');
    assert(!e.contains('/')) by {
        if e.contains('/') {
            let i = e.index_of('/');
            assert(name[i] == '/');
            assert(name.contains('/'));
        }
    }
    text::texts_are_cut_once(e, '/', name, name);
    text::texts_are_cut_once(name, '/', name, name);
    assert(e.drop_last() =~= name);
}

/// The members that a text describes are those of its first words and then those of the others.
pub proof fn members_come_in_order(a: Seq<char>, b: Seq<char>, w: Seq<char>)
    requires
        w.len() > 0,
        forall|i: int| 0 <= i < w.len() ==> !text::is_space(#[trigger] w[i]),
    ensures
        members_of(a.push(' ') + b) == members_of(a) + members_of(b),
        members_of(w) == seq![described(w)],
{
    let k = CharClass::Space;
    text::spaces_are_not_seen(' ');
    assert(text::is_space(' '));
    assert(k.has_char(' '));
    text::words_stand_apart(a, ' ', b, k);
    assert forall|i: int| 0 <= i < w.len() implies !k.has_char(#[trigger] w[i]) by {
        text::spaces_are_not_seen(w[i]);
    }
    text::words_stand_apart(w, ' ', b, k);
    assert(members_of(a.push(' ') + b) =~= members_of(a) + members_of(b));
    assert(members_of(w) =~= seq![described(w)]);
}

/// Every element is an element and can be a popover; controls, forms and dialogs have more, by their
/// tag alone, in letters of either case.
pub proof fn elements_have_their_shapes(tag: Seq<char>)
    ensures
        shapes_of(tag)[0] == Shape::Element,
        shapes_of(tag).last() == Shape::Popover,
        shapes_of(tag).contains(Shape::Control) <==> text::lower(tag) == "input"@ || text::lower(tag)
            == "select"@ || text::lower(tag) == "textarea"@,
        shapes_of(tag).contains(Shape::Form) ==> text::lower(tag) == "form"@,
        shapes_of(tag).contains(Shape::Dialog) ==> text::lower(tag) == "dialog"@,
        text::lower(tag) == "form"@ ==> shapes_of(tag)[1] == Shape::Form,
        text::lower(tag) == "dialog"@ ==> shapes_of(tag)[1] == Shape::Dialog,
{
    reveal_strlit("input");
    reveal_strlit("select");
    reveal_strlit("textarea");
    reveal_strlit("form");
    reveal_strlit("dialog");
    assert("input"@.len() == 5 && "select"@.len() == 6 && "textarea"@.len() == 8 && "form"@.len()
        == 4 && "dialog"@.len() == 6);
    assert("select"@[0] == 's' && "dialog"@[0] == 'd');
    let v = shapes_of(tag);
    if v.len() == 3 {
        assert(v[1] == Shape::Control || v[1] == Shape::Form || v[1] == Shape::Dialog);
    }
    if text::lower(tag) == "input"@ || text::lower(tag) == "select"@ || text::lower(tag)
        == "textarea"@ {
        assert(v[1] == Shape::Control);
    }
}

} // verus!
