//! Animations: how their options are written, how they are played, and how what they compute
//! gets into an element's style.
use crate::color;
use crate::color::Color;
use crate::dom;
use crate::pairs;
use crate::selector;
use crate::style;
use crate::text;
use crate::tree;
use crate::tree::{Dom, KindView, NodeId, NodeKind, NodeView};
use vstd::prelude::*;

verus! {

/// How an animation eases.
#[derive(Clone, Copy, PartialEq, Eq, Structural, Debug)]
pub enum Easing {
    Linear,
    Ease,
    EaseIn,
    EaseOut,
    EaseInOut,
    StepStart,
    StepEnd,
}

/// Which way an animation runs.
#[derive(Clone, Copy, PartialEq, Eq, Structural, Debug)]
pub enum Direction {
    Normal,
    Reverse,
    Alternate,
    AlternateReverse,
}

/// What an animation shows before and after it runs.
#[derive(Clone, Copy, PartialEq, Eq, Structural, Debug)]
pub enum FillMode {
    NoFill,
    Forwards,
    Backwards,
    Both,
    Auto,
}

/// How far an animation is.
#[derive(Clone, Copy, PartialEq, Eq, Structural, Debug)]
pub enum PlayState {
    Idle,
    Running,
    Paused,
    Finished,
}

/// The easing that a text writes; anything else writes the linear one.
pub open spec fn easing_of(s: Seq<char>) -> Easing {
    let w = text::trimmed(s);
    if w == "ease"@ {
        Easing::Ease
    } else if w == "ease-in"@ {
        Easing::EaseIn
    } else if w == "ease-out"@ {
        Easing::EaseOut
    } else if w == "ease-in-out"@ {
        Easing::EaseInOut
    } else if w == "step-start"@ {
        Easing::StepStart
    } else if w == "step-end"@ {
        Easing::StepEnd
    } else {
        Easing::Linear
    }
}

/// Reads an easing.
pub fn parse_easing(s: &str) -> (r: Easing)
    ensures
        r == easing_of(s@),
{
    let cs = text::to_chars(s);
    let t = text::trim(&cs);
    let w = text::to_text(&t);
    if text::same(&w, "ease") {
        Easing::Ease
    } else if text::same(&w, "ease-in") {
        Easing::EaseIn
    } else if text::same(&w, "ease-out") {
        Easing::EaseOut
    } else if text::same(&w, "ease-in-out") {
        Easing::EaseInOut
    } else if text::same(&w, "step-start") {
        Easing::StepStart
    } else if text::same(&w, "step-end") {
        Easing::StepEnd
    } else {
        Easing::Linear
    }
}

/// The direction that a text writes; anything else writes the normal one.
pub open spec fn direction_of(s: Seq<char>) -> Direction {
    if s == "reverse"@ {
        Direction::Reverse
    } else if s == "alternate"@ {
        Direction::Alternate
    } else if s == "alternate-reverse"@ {
        Direction::AlternateReverse
    } else {
        Direction::Normal
    }
}

/// Reads a direction.
pub fn parse_direction(s: &str) -> (r: Direction)
    ensures
        r == direction_of(s@),
{
    if text::same(s, "reverse") {
        Direction::Reverse
    } else if text::same(s, "alternate") {
        Direction::Alternate
    } else if text::same(s, "alternate-reverse") {
        Direction::AlternateReverse
    } else {
        Direction::Normal
    }
}

/// The fill mode that a text writes; anything else writes none.
pub open spec fn fill_of(s: Seq<char>) -> FillMode {
    if s == "forwards"@ {
        FillMode::Forwards
    } else if s == "backwards"@ {
        FillMode::Backwards
    } else if s == "both"@ {
        FillMode::Both
    } else if s == "auto"@ {
        FillMode::Auto
    } else {
        FillMode::NoFill
    }
}

/// Reads a fill mode.
pub fn parse_fill(s: &str) -> (r: FillMode)
    ensures
        r == fill_of(s@),
{
    if text::same(s, "forwards") {
        FillMode::Forwards
    } else if text::same(s, "backwards") {
        FillMode::Backwards
    } else if text::same(s, "both") {
        FillMode::Both
    } else if text::same(s, "auto") {
        FillMode::Auto
    } else {
        FillMode::NoFill
    }
}

/// The name of a play state.
pub open spec fn state_name(s: PlayState) -> Seq<char> {
    match s {
        PlayState::Idle => "idle"@,
        PlayState::Running => "running"@,
        PlayState::Paused => "paused"@,
        PlayState::Finished => "finished"@,
    }
}

/// The name of a play state.
pub fn play_state_str(s: PlayState) -> (r: String)
    ensures
        r@ == state_name(s),
{
    match s {
        PlayState::Idle => text::copy("idle"),
        PlayState::Running => text::copy("running"),
        PlayState::Paused => text::copy("paused"),
        PlayState::Finished => text::copy("finished"),
    }
}

/// What becomes of an animation's times when its state changes.
#[derive(Clone, Copy, PartialEq, Eq, Structural, Debug)]
pub enum TimeChange {
    /// The times stay.
    Keep,
    /// The start is moved so that the progress at the pause is kept.
    Resume,
    /// The start is now, and no progress is kept.
    Restart,
    /// The progress so far is kept for a later resume.
    HoldProgress,
    /// The start is moved so that the animation has just ended.
    JumpToEnd,
}

/// What `play` does.
pub open spec fn played(s: PlayState) -> (PlayState, TimeChange) {
    match s {
        PlayState::Paused => (PlayState::Running, TimeChange::Resume),
        PlayState::Idle => (PlayState::Running, TimeChange::Restart),
        PlayState::Finished => (PlayState::Running, TimeChange::Restart),
        PlayState::Running => (PlayState::Running, TimeChange::Keep),
    }
}

/// What `play` does.
pub fn anim_play(s: PlayState) -> (r: (PlayState, TimeChange))
    ensures
        r == played(s),
{
    match s {
        PlayState::Paused => (PlayState::Running, TimeChange::Resume),
        PlayState::Idle => (PlayState::Running, TimeChange::Restart),
        PlayState::Finished => (PlayState::Running, TimeChange::Restart),
        PlayState::Running => (PlayState::Running, TimeChange::Keep),
    }
}

/// What `pause` does: only a running animation is paused.
pub open spec fn paused(s: PlayState) -> (PlayState, TimeChange) {
    match s {
        PlayState::Running => (PlayState::Paused, TimeChange::HoldProgress),
        _ => (s, TimeChange::Keep),
    }
}

/// What `pause` does.
pub fn anim_pause(s: PlayState) -> (r: (PlayState, TimeChange))
    ensures
        r == paused(s),
{
    match s {
        PlayState::Running => (PlayState::Paused, TimeChange::HoldProgress),
        _ => (s, TimeChange::Keep),
    }
}

/// What `finish` does, whatever the state.
pub fn anim_finish(s: PlayState) -> (r: (PlayState, TimeChange))
    ensures
        r == (PlayState::Finished, TimeChange::JumpToEnd),
        played(r.0) == (PlayState::Running, TimeChange::Restart),
        sample_of(r.0, FillMode::Both, Direction::Normal, false, 0, true) == Sample::Nothing,
{
    (PlayState::Finished, TimeChange::JumpToEnd)
}

/// An animation that is paused and played again runs on from where it was.
pub proof fn pause_then_play_resumes(s: PlayState)
    ensures
        s == PlayState::Running ==> played(paused(s).0) == (PlayState::Running, TimeChange::Resume),
        played(s).0 == PlayState::Running,
        paused(paused(s).0).0 == paused(s).0,
{
}

/// Whether an animation is sampled at all in a state.
pub fn is_sampled(s: PlayState) -> (r: bool)
    ensures
        r == (s == PlayState::Running || s == PlayState::Paused),
        r == (sample_of(s, FillMode::NoFill, Direction::Normal, false, 0, false)
            != Sample::Nothing),
{
    match s {
        PlayState::Running => true,
        PlayState::Paused => true,
        _ => false,
    }
}

/// Whether the first keyframe shows before the delay is over.
pub fn shows_before_delay(f: FillMode) -> (r: bool)
    ensures
        r == (f == FillMode::Backwards || f == FillMode::Both),
        r == (sample_of(PlayState::Running, f, Direction::Normal, true, 0, false) == Sample::Start),
{
    match f {
        FillMode::Backwards => true,
        FillMode::Both => true,
        _ => false,
    }
}

/// Whether an iteration of an animation runs forward.
pub open spec fn forward_in(d: Direction, iteration: nat) -> bool {
    match d {
        Direction::Normal => true,
        Direction::Reverse => false,
        Direction::Alternate => iteration % 2 == 0,
        Direction::AlternateReverse => iteration % 2 == 1,
    }
}

/// Whether an iteration of an animation runs forward.
pub fn runs_forward(d: Direction, iteration: u32) -> (r: bool)
    ensures
        r == forward_in(d, iteration as nat),
{
    match d {
        Direction::Normal => true,
        Direction::Reverse => false,
        Direction::Alternate => iteration % 2 == 0,
        Direction::AlternateReverse => iteration % 2 == 1,
    }
}

/// What an animation shows at a time.
#[derive(Clone, Copy, PartialEq, Eq, Structural, Debug)]
pub enum Sample {
    /// Nothing of its own.
    Nothing,
    /// Where it starts, since its delay is not over.
    Start,
    /// A point of an iteration, which runs forward or back.
    Within { forward: bool },
    /// Where its last iteration ends.
    End { forward: bool },
}

/// What an animation shows, from whether its delay is yet to pass, in which iteration it is and
/// whether all of them are over.
pub open spec fn sample_of(
    s: PlayState,
    f: FillMode,
    d: Direction,
    waits: bool,
    iteration: nat,
    over: bool,
) -> Sample {
    if s != PlayState::Running && s != PlayState::Paused {
        Sample::Nothing
    } else if waits {
        if f == FillMode::Backwards || f == FillMode::Both {
            Sample::Start
        } else {
            Sample::Nothing
        }
    } else if over {
        Sample::End { forward: forward_in(d, iteration) }
    } else {
        Sample::Within { forward: forward_in(d, iteration) }
    }
}

/// What an animation shows at a time.
pub fn sample(
    s: PlayState,
    f: FillMode,
    d: Direction,
    waits: bool,
    iteration: u32,
    over: bool,
) -> (r: Sample)
    ensures
        r == sample_of(s, f, d, waits, iteration as nat, over),
{
    if !is_sampled(s) {
        return Sample::Nothing;
    }
    if waits {
        return if shows_before_delay(f) {
            Sample::Start
        } else {
            Sample::Nothing
        };
    }
    let forward = runs_forward(d, iteration);
    if over {
        Sample::End { forward }
    } else {
        Sample::Within { forward }
    }
}

/// The two alternating directions run each iteration opposite ways, and each of them turns
/// round from one iteration to the next.
pub proof fn alternating_directions_turn(iteration: nat)
    ensures
        forward_in(Direction::Alternate, iteration) != forward_in(
            Direction::AlternateReverse,
            iteration,
        ),
        forward_in(Direction::Alternate, iteration) != forward_in(
            Direction::Alternate,
            iteration + 1,
        ),
{
}

/// A name with each ASCII capital spelt as a hyphen and the small letter.
pub open spec fn kebab_of(s: Seq<char>) -> Seq<char>
    decreases s.len(),
{
    if s.len() == 0 {
        Seq::empty()
    } else {
        let c = s.last();
        if 'A' <= c <= 'Z' {
            kebab_of(s.drop_last()).push('-').push(text::lower_char(c))
        } else {
            kebab_of(s.drop_last()).push(c)
        }
    }
}

/// Spells a name with capitals as a hyphenated name.
pub fn camel_to_kebab(s: &str) -> (r: String)
    ensures
        r@ == kebab_of(s@),
{
    let cs = text::to_chars(s);
    let mut out: Vec<char> = Vec::new();
    let mut i: usize = 0;
    while i < cs.len()
        invariant
            i <= cs@.len(),
            out@ == kebab_of(cs@.take(i as int)),
        decreases cs@.len() - i,
    {
        let c = cs[i];
        proof {
            assert(cs@.take(i + 1).drop_last() =~= cs@.take(i as int));
            assert(cs@.take(i + 1).last() == c);
        }
        if 'A' <= c && c <= 'Z' {
            out.push('-');
            out.push(text::to_lower_char(c));
        } else {
            out.push(c);
        }
        i = i + 1;
    }
    proof {
        assert(cs@.take(cs@.len() as int) =~= cs@);
    }
    text::to_text(&out)
}

/// Whether what a keyframe has under a name is the value of a property: all is but its offset, its
/// easing and how it is composed.
pub open spec fn is_property(name: Seq<char>) -> bool {
    name != "offset"@ && name != "easing"@ && name != "composite"@
}

/// The properties of a keyframe with their values, spelt with hyphens.
pub open spec fn frame_properties(own: Seq<(Seq<char>, Seq<char>)>) -> Seq<(Seq<char>, Seq<char>)>
    decreases own.len(),
{
    if own.len() == 0 {
        Seq::empty()
    } else if is_property(own.last().0) {
        frame_properties(own.drop_last()).push((kebab_of(own.last().0), own.last().1))
    } else {
        frame_properties(own.drop_last())
    }
}

/// Takes the properties out of all that a keyframe has.
pub fn keyframe_properties(own: &Vec<(String, String)>) -> (r: Vec<(String, String)>)
    ensures
        text::pair_texts(r@) == frame_properties(text::pair_texts(own@)),
{
    let ghost t = text::pair_texts(own@);
    let mut out: Vec<(String, String)> = Vec::new();
    let mut i: usize = 0;
    proof {
        assert(text::pair_texts(out@) =~= frame_properties(t.take(0)));
    }
    while i < own.len()
        invariant
            i <= own@.len(),
            t == text::pair_texts(own@),
            text::pair_texts(out@) == frame_properties(t.take(i as int)),
        decreases own@.len() - i,
    {
        let ghost prev = out@;
        proof {
            assert(t.take(i + 1).drop_last() =~= t.take(i as int));
            assert(t.take(i + 1).last() == (own@[i as int].0@, own@[i as int].1@));
        }
        let name: &str = &own[i].0;
        if !text::same(name, "offset") && !text::same(name, "easing") && !text::same(
            name,
            "composite",
        ) {
            out.push((camel_to_kebab(name), text::copy(&own[i].1)));
            proof {
                assert(text::pair_texts(out@) =~= text::pair_texts(prev).push(
                    (kebab_of(t[i as int].0), t[i as int].1),
                ));
            }
        }
        i = i + 1;
    }
    proof {
        assert(t.take(t.len() as int) =~= t);
    }
    out
}

/// A value of a property in one of the keyframes.
pub struct FrameValue {
    /// The place of the keyframe.
    pub frame: usize,
    pub name: String,
    pub value: String,
}

/// A value of a property in one of the keyframes, over plain values.
pub struct FrameValueView {
    pub frame: nat,
    pub name: Seq<char>,
    pub value: Seq<char>,
}

impl View for FrameValue {
    type V = FrameValueView;

    open spec fn view(&self) -> FrameValueView {
        FrameValueView { frame: self.frame as nat, name: self.name@, value: self.value@ }
    }
}

/// The values in a list, over plain values.
pub open spec fn frame_values(v: Seq<FrameValue>) -> Seq<FrameValueView> {
    v.map_values(|x: FrameValue| x@)
}

/// The names of the properties that have values, each once, in the order of their first values.
pub open spec fn property_names(v: Seq<FrameValueView>) -> Seq<Seq<char>>
    decreases v.len(),
{
    if v.len() == 0 {
        Seq::empty()
    } else {
        let names = property_names(v.drop_last());
        if names.contains(v.last().name) {
            names
        } else {
            names.push(v.last().name)
        }
    }
}

/// The names of the properties that have values.
pub fn animated_properties(v: &Vec<FrameValue>) -> (r: Vec<String>)
    ensures
        text::texts(r@) == property_names(frame_values(v@)),
{
    let ghost t = frame_values(v@);
    let mut out: Vec<String> = Vec::new();
    let mut i: usize = 0;
    proof {
        assert(text::texts(out@) =~= property_names(t.take(0)));
    }
    while i < v.len()
        invariant
            i <= v@.len(),
            t == frame_values(v@),
            text::texts(out@) == property_names(t.take(i as int)),
        decreases v@.len() - i,
    {
        let ghost prev = out@;
        proof {
            assert(t.take(i + 1).drop_last() =~= t.take(i as int));
            assert(t.take(i + 1).last() == v@[i as int]@);
        }
        if !selector::has_text(&out, &v[i].name) {
            out.push(text::copy(&v[i].name));
            proof {
                assert(text::texts(out@) =~= text::texts(prev).push(t[i as int].name));
            }
        }
        i = i + 1;
    }
    proof {
        assert(t.take(t.len() as int) =~= t);
    }
    out
}

/// The places in a list of the values of a property, in order.
pub open spec fn places_of(v: Seq<FrameValueView>, name: Seq<char>) -> Seq<int>
    decreases v.len(),
{
    if v.len() == 0 {
        Seq::empty()
    } else if v.last().name == name {
        places_of(v.drop_last(), name).push(v.len() - 1)
    } else {
        places_of(v.drop_last(), name)
    }
}

/// The places in a list of the values of a property, in order.
pub fn property_places(v: &Vec<FrameValue>, name: &str) -> (r: Vec<usize>)
    ensures
        r@.map_values(|i: usize| i as int) == places_of(frame_values(v@), name@),
        forall|i: int| 0 <= i < r@.len() ==> #[trigger] r@[i] < v@.len(),
{
    let ghost t = frame_values(v@);
    let mut out: Vec<usize> = Vec::new();
    let mut i: usize = 0;
    proof {
        assert(out@.map_values(|i: usize| i as int) =~= places_of(t.take(0), name@));
    }
    while i < v.len()
        invariant
            i <= v@.len(),
            t == frame_values(v@),
            out@.map_values(|i: usize| i as int) == places_of(t.take(i as int), name@),
            forall|j: int| 0 <= j < out@.len() ==> #[trigger] out@[j] < v@.len(),
        decreases v@.len() - i,
    {
        let ghost prev = out@;
        proof {
            assert(t.take(i + 1).drop_last() =~= t.take(i as int));
            assert(t.take(i + 1).last() == v@[i as int]@);
        }
        if text::same(&v[i].name, name) {
            out.push(i);
            proof {
                assert(out@.map_values(|i: usize| i as int) =~= prev.map_values(
                    |i: usize| i as int,
                ).push(i as int));
            }
        }
        i = i + 1;
    }
    proof {
        assert(t.take(t.len() as int) =~= t);
    }
    out
}

/// Every value of every keyframe is sampled: its property is among those that have values, and it
/// is among the values of its property. These are in the order of the keyframes.
pub proof fn every_value_is_sampled(v: Seq<FrameValueView>, i: int)
    requires
        0 <= i < v.len(),
    ensures
        property_names(v).contains(v[i].name),
        places_of(v, v[i].name).contains(i),
        forall|name: Seq<char>, j: int, k: int|
            0 <= j < k < places_of(v, name).len() ==> #[trigger] places_of(v, name)[j]
                < #[trigger] places_of(v, name)[k],
    decreases v.len(),
{
    let last = v.len() - 1;
    assert(v.drop_last().len() == last);
    if i < last {
        every_value_is_sampled(v.drop_last(), i);
        assert(v.drop_last()[i] == v[i]);
        let names = property_names(v.drop_last());
        let at = choose|j: int| 0 <= j < names.len() && names[j] == v[i].name;
        assert(property_names(v)[at] == v[i].name);
        let places = places_of(v.drop_last(), v[i].name);
        let at = choose|j: int| 0 <= j < places.len() && places[j] == i;
        assert(places_of(v, v[i].name)[at] == i);
    } else {
        let names = property_names(v.drop_last());
        if !names.contains(v[i].name) {
            assert(property_names(v)[names.len() as int] == v[i].name);
        }
        let places = places_of(v.drop_last(), v[i].name);
        assert(places_of(v, v[i].name)[places.len() as int] == i);
    }
    assert forall|name: Seq<char>, j: int, k: int|
        0 <= j < k < places_of(v, name).len() implies #[trigger] places_of(v, name)[j]
        < #[trigger] places_of(v, name)[k] by {
        lemma_places_grow(v, name, j, k);
    }
}

proof fn lemma_places_grow(v: Seq<FrameValueView>, name: Seq<char>, j: int, k: int)
    requires
        0 <= j < k < places_of(v, name).len(),
    ensures
        places_of(v, name)[j] < places_of(v, name)[k] < v.len(),
    decreases v.len(),
{
    let before = places_of(v.drop_last(), name);
    if k < before.len() {
        lemma_places_grow(v.drop_last(), name, j, k);
    } else {
        lemma_places_inside(v.drop_last(), name, j);
    }
}

proof fn lemma_places_inside(v: Seq<FrameValueView>, name: Seq<char>, j: int)
    requires
        0 <= j < places_of(v, name).len(),
    ensures
        0 <= places_of(v, name)[j] < v.len(),
    decreases v.len(),
{
    if j < places_of(v.drop_last(), name).len() {
        lemma_places_inside(v.drop_last(), name, j);
    }
}

/// Where a point lies as seen from an offset.
#[derive(Clone, Copy, PartialEq, Eq, Structural, Debug)]
pub struct Side {
    /// It lies before the offset or at it.
    pub not_past: bool,
    /// It lies at the offset or past it.
    pub reached: bool,
}

/// Where a point lies among offsets.
#[derive(Clone, Copy, PartialEq, Eq, Structural, Debug)]
pub enum Place {
    /// There are none.
    Nowhere,
    /// It counts as this one.
    At(usize),
    /// Between this one and the next.
    After(usize),
}

/// The first offset from one on with the point between it and the next, or how many there are.
pub open spec fn gap_from(sides: Seq<Side>, i: int) -> int
    decreases sides.len() - i,
{
    if i < 0 || i + 1 >= sides.len() {
        sides.len() as int
    } else if sides[i].reached && sides[i + 1].not_past {
        i
    } else {
        gap_from(sides, i + 1)
    }
}

/// Where a point lies among offsets that are in order: at the first where it is not past that, at
/// the last where it has reached that, or else between two of them.
pub open spec fn place_among(sides: Seq<Side>) -> Place {
    if sides.len() == 0 {
        Place::Nowhere
    } else if sides[0].not_past {
        Place::At(0)
    } else if sides.last().reached {
        Place::At((sides.len() - 1) as usize)
    } else if gap_from(sides, 0) < sides.len() {
        Place::After(gap_from(sides, 0) as usize)
    } else {
        Place::At((sides.len() - 1) as usize)
    }
}

/// Where a point lies among offsets, given how it lies to each of them.
pub fn sample_property(sides: &Vec<Side>) -> (r: Place)
    ensures
        r == place_among(sides@),
        r matches Place::At(i) ==> i < sides@.len(),
        r matches Place::After(i) ==> i + 1 < sides@.len(),
{
    if sides.len() == 0 {
        return Place::Nowhere;
    }
    let last: usize = sides.len() - 1;
    if sides[0].not_past {
        return Place::At(0);
    }
    if sides[last].reached {
        return Place::At(last);
    }
    let mut i: usize = 0;
    while i < last
        invariant
            i <= last,
            last == sides@.len() - 1,
            gap_from(sides@, 0) == gap_from(sides@, i as int),
            !sides@[0].not_past,
            !sides@[last as int].reached,
        decreases last - i,
    {
        if sides[i].reached && sides[i + 1].not_past {
            return Place::After(i);
        }
        i = i + 1;
    }
    Place::At(last)
}

/// How a point lies to each of some offsets.
pub open spec fn sides_of(offsets: Seq<int>, t: int) -> Seq<Side> {
    offsets.map_values(|o: int| Side { not_past: t <= o, reached: t >= o })
}

/// A point counts as the first of the offsets in order where it does not lie past that, as the last
/// where it does not lie before that, and lies between two neighbours otherwise.
pub proof fn point_is_placed(offsets: Seq<int>, t: int)
    requires
        0 < offsets.len() <= usize::MAX,
        forall|i: int, j: int| 0 <= i <= j < offsets.len() ==> offsets[i] <= offsets[j],
    ensures
        t <= offsets[0] ==> place_among(sides_of(offsets, t)) == Place::At(0),
        offsets[0] < t && offsets.last() <= t ==> place_among(sides_of(offsets, t)) == Place::At(
            (offsets.len() - 1) as usize,
        ),
        offsets[0] < t < offsets.last() ==> (place_among(sides_of(offsets, t)) matches Place::After(
            i,
        ) && i + 1 < offsets.len() && offsets[i as int] <= t <= offsets[i + 1]),
{
    if offsets[0] < t < offsets.last() {
        lemma_gap(offsets, t, 0);
    }
}

proof fn lemma_gap(offsets: Seq<int>, t: int, i: int)
    requires
        0 <= i < offsets.len() - 1,
        offsets[i] <= t < offsets.last(),
    ensures
        ({
            let g = gap_from(sides_of(offsets, t), i);
            i <= g < offsets.len() - 1 && offsets[g] <= t <= offsets[g + 1]
        }),
    decreases offsets.len() - i,
{
    if t > offsets[i + 1] {
        lemma_gap(offsets, t, i + 1);
    }
}

/// The opacity of a colour as it was written.
pub enum Opacity {
    /// Fully opaque.
    Full,
    /// So many parts of 255.
    Byte(u8),
    /// A number to be read, fully opaque where it is none.
    Written(String),
}

/// The opacity of a colour, over plain values.
pub enum OpacityView {
    Full,
    Byte(u8),
    Written(Seq<char>),
}

impl View for Opacity {
    type V = OpacityView;

    open spec fn view(&self) -> OpacityView {
        match self {
            Opacity::Full => OpacityView::Full,
            Opacity::Byte(b) => OpacityView::Byte(*b),
            Opacity::Written(s) => OpacityView::Written(s@),
        }
    }
}

/// A colour with the opacity as it was written.
pub struct WrittenColor {
    pub r: u8,
    pub g: u8,
    pub b: u8,
    pub opacity: Opacity,
}

/// The colour that a text writes: its three parts and the opacity as it is written.
pub open spec fn color_of(s: Seq<char>) -> Option<(u8, u8, u8, OpacityView)> {
    let t = text::trimmed(s);
    match text::without_prefix(t, "#"@) {
        Some(hex) => match color::hex_color(hex) {
            Some(c) => Some(
                (
                    c.r,
                    c.g,
                    c.b,
                    if hex.len() == 8 {
                        OpacityView::Byte(c.a)
                    } else {
                        OpacityView::Full
                    },
                ),
            ),
            None => None,
        },
        None => {
            let inner = if text::begins(t, "rgba("@) {
                color::bracketed(t, "rgba("@)
            } else {
                color::bracketed(t, "rgb("@)
            };
            match inner {
                Some(args) => {
                    let p = color::comma_parts(args);
                    if p.len() < 3 {
                        None
                    } else {
                        match (
                            color::decimal_byte(p[0]),
                            color::decimal_byte(p[1]),
                            color::decimal_byte(p[2]),
                        ) {
                            (Some(r), Some(g), Some(b)) => Some(
                                (
                                    r,
                                    g,
                                    b,
                                    if p.len() > 3 {
                                        OpacityView::Written(p[3])
                                    } else {
                                        OpacityView::Full
                                    },
                                ),
                            ),
                            _ => None,
                        }
                    }
                },
                None => None,
            }
        },
    }
}

/// Reads a colour.
pub fn parse_color(s: &str) -> (r: Option<WrittenColor>)
    ensures
        color_of(s@) == match r {
            Some(c) => Some((c.r, c.g, c.b, c.opacity@)),
            None => None,
        },
{
    let cs = text::to_chars(s);
    let t = text::trim(&cs);
    if let Some(hex) = text::strip_prefix(&t, "#") {
        return match color::read_hex_color(&hex) {
            Some(c) => {
                let opacity = if hex.len() == 8 {
                    Opacity::Byte(c.a)
                } else {
                    Opacity::Full
                };
                Some(WrittenColor { r: c.r, g: c.g, b: c.b, opacity })
            },
            None => None,
        };
    }
    let inner = if text::starts_with(&t, "rgba(") {
        color::strip_brackets(&t, "rgba(")
    } else {
        color::strip_brackets(&t, "rgb(")
    };
    match inner {
        None => None,
        Some(args) => {
            let p = color::split_commas(&args);
            let ghost pv = text::texts(p@);
            proof {
                assert(pv.len() == p@.len());
            }
            if p.len() < 3 {
                return None;
            }
            proof {
                assert(pv[0] == p@[0]@ && pv[1] == p@[1]@ && pv[2] == p@[2]@);
            }
            match (
                color::read_decimal_byte(&p[0]),
                color::read_decimal_byte(&p[1]),
                color::read_decimal_byte(&p[2]),
            ) {
                (Some(r), Some(g), Some(b)) => {
                    let opacity = if p.len() > 3 {
                        proof {
                            assert(pv[3] == p@[3]@);
                        }
                        Opacity::Written(text::copy(&p[3]))
                    } else {
                        Opacity::Full
                    };
                    Some(WrittenColor { r, g, b, opacity })
                },
                _ => None,
            }
        },
    }
}

/// Whether a character may stand in a number with a unit, before the unit.
pub open spec fn number_char(c: char) -> bool {
    ('0' <= c <= '9') || c == '.' || c == '-' || c == '+' || c == 'e' || c == 'E'
}

/// How many of the first characters may stand in a number.
pub open spec fn number_len(s: Seq<char>) -> int {
    pairs::position(s, |c: char| !number_char(c))
}

/// A trimmed value cut into the text of a number and its unit; nothing where no number text
/// stands at the front.
pub open spec fn number_and_unit(s: Seq<char>) -> Option<(Seq<char>, Seq<char>)> {
    let t = text::trimmed(s);
    let n = number_len(t);
    if n == 0 {
        None
    } else {
        Some((t.take(n), text::trimmed(t.skip(n))))
    }
}

/// Cuts a value into the text of a number and its unit.
pub fn split_number_unit(s: &str) -> (r: Option<(String, String)>)
    ensures
        number_and_unit(s@) == match r {
            Some((n, u)) => Some((n@, u@)),
            None => None,
        },
{
    let cs = text::to_chars(s);
    let t = text::trim(&cs);
    let ghost p = |c: char| !number_char(c);
    let mut i: usize = 0;
    while i < t.len() && (('0' <= t[i] && t[i] <= '9') || t[i] == '.' || t[i] == '-' || t[i] == '+'
        || t[i] == 'e' || t[i] == 'E')
        invariant
            i <= t@.len(),
            p == (|c: char| !number_char(c)),
            forall|j: int| 0 <= j < i ==> !p(#[trigger] t@[j]),
        decreases t@.len() - i,
    {
        i = i + 1;
    }
    proof {
        pairs::lemma_position(t@, p, i as int);
        assert(number_len(t@) == i);
    }
    if i == 0 {
        return None;
    }
    let num = text::copy_range(&t, 0, i);
    let rest = text::copy_range(&t, i, t.len());
    let unit = text::trim(&rest);
    proof {
        assert(num@ =~= t@.take(i as int));
        assert(rest@ =~= t@.skip(i as int));
    }
    Some((text::to_text(&num), text::to_text(&unit)))
}

/// How the values between two others are found.
pub enum Blend {
    /// Between the numbers that two texts write, with a unit.
    Numbers { from: String, to: String, unit: String },
    /// Between two colours, part by part.
    Colors { start: WrittenColor, end: WrittenColor },
    /// Not at all: up to the middle it is the one, from there on the other.
    Snap,
}

/// How the values between two others are found, over plain values.
pub enum BlendView {
    Numbers { from: Seq<char>, to: Seq<char>, unit: Seq<char> },
    Colors { start: (u8, u8, u8, OpacityView), end: (u8, u8, u8, OpacityView) },
    Snap,
}

impl View for Blend {
    type V = BlendView;

    open spec fn view(&self) -> BlendView {
        match self {
            Blend::Numbers { from, to, unit } => BlendView::Numbers {
                from: from@,
                to: to@,
                unit: unit@,
            },
            Blend::Colors { start, end } => BlendView::Colors {
                start: (start.r, start.g, start.b, start.opacity@),
                end: (end.r, end.g, end.b, end.opacity@),
            },
            Blend::Snap => BlendView::Snap,
        }
    }
}

/// How the values between two texts are found: as numbers where both write one, which is handed in,
/// and have the same unit; or else as colours where both are; or else not at all.
pub open spec fn blend_of(a: Seq<char>, b: Seq<char>, numbers: bool) -> BlendView {
    match (number_and_unit(a), number_and_unit(b)) {
        (Some((from, unit)), Some((to, other))) => if numbers && unit == other {
            BlendView::Numbers { from, to, unit }
        } else {
            color_blend(a, b)
        },
        _ => color_blend(a, b),
    }
}

/// How the values between two texts that are no numbers are found.
pub open spec fn color_blend(a: Seq<char>, b: Seq<char>) -> BlendView {
    match (color_of(a), color_of(b)) {
        (Some(start), Some(end)) => BlendView::Colors { start, end },
        _ => BlendView::Snap,
    }
}

fn blend_colors(a: &str, b: &str) -> (r: Blend)
    ensures
        r@ == color_blend(a@, b@),
{
    match (parse_color(a), parse_color(b)) {
        (Some(start), Some(end)) => Blend::Colors { start, end },
        _ => Blend::Snap,
    }
}

/// How the values between two texts are found. Whether the number texts of both, as
/// `split_number_unit` gives them, write numbers is handed in.
pub fn interpolate_strings(a: &str, b: &str, numbers: bool) -> (r: Blend)
    ensures
        r@ == blend_of(a@, b@, numbers),
{
    match (split_number_unit(a), split_number_unit(b)) {
        (Some((from, unit)), Some((to, other))) => if numbers && text::same(&unit, &other) {
            Blend::Numbers { from, to, unit }
        } else {
            blend_colors(a, b)
        },
        _ => blend_colors(a, b),
    }
}

/// The declarations of an element's inline style, names as they are written.
pub open spec fn current_decls(kind: KindView) -> Seq<(Seq<char>, Seq<char>)> {
    match pairs::value_ignoring_case(tree::attrs_of(kind), "style"@) {
        Some(v) => style::style_decls(v, false),
        None => Seq::empty(),
    }
}

/// The declarations of an element's inline style, names as they are written.
pub fn current_inline_style(dom: &Dom, node: NodeId) -> (r: Vec<(String, String)>)
    requires
        tree::has(dom@, node),
    ensures
        text::pair_texts(r@) == current_decls(dom@[node.at()].kind),
{
    match dom::read_attr(dom, node, "style") {
        Some(v) => style::read_decls(&v, false),
        None => {
            let none: Vec<(String, String)> = Vec::new();
            proof {
                assert(text::pair_texts(none@) =~= Seq::empty());
            }
            none
        },
    }
}

/// Whether a declaration has another name, whatever the case of its letters.
pub open spec fn not_called(k: Seq<char>) -> spec_fn((Seq<char>, Seq<char>)) -> bool {
    |d: (Seq<char>, Seq<char>)| text::lower(d.0) != text::lower(k)
}

/// The declarations with others put over them: each takes the place of those with its name,
/// at the end.
pub open spec fn overlaid(
    v: Seq<(Seq<char>, Seq<char>)>,
    more: Seq<(Seq<char>, Seq<char>)>,
) -> Seq<(Seq<char>, Seq<char>)>
    decreases more.len(),
{
    if more.len() == 0 {
        v
    } else {
        overlaid(v, more.drop_last()).filter(not_called(more.last().0)).push(more.last())
    }
}

fn drop_called(v: &Vec<(String, String)>, k: &str) -> (r: Vec<(String, String)>)
    ensures
        text::pair_texts(r@) == text::pair_texts(v@).filter(not_called(k@)),
{
    let ghost t = text::pair_texts(v@);
    let ghost keep = not_called(k@);
    let mut out: Vec<(String, String)> = Vec::new();
    let mut i: usize = 0;
    proof {
        reveal(Seq::filter);
        assert(t.take(0).filter(keep) =~= Seq::empty());
        assert(text::pair_texts(out@) =~= Seq::empty());
    }
    while i < v.len()
        invariant
            i <= v@.len(),
            t == text::pair_texts(v@),
            keep == not_called(k@),
            text::pair_texts(out@) == t.take(i as int).filter(keep),
        decreases v@.len() - i,
    {
        let ghost prev = out@;
        proof {
            reveal(Seq::filter);
            assert(t.take(i + 1).drop_last() =~= t.take(i as int));
            assert(t.take(i + 1).last() == (v@[i as int].0@, v@[i as int].1@));
        }
        if !text::same_ignoring_case(&v[i].0, k) {
            out.push((text::copy(&v[i].0), text::copy(&v[i].1)));
            proof {
                assert(text::pair_texts(out@) =~= text::pair_texts(prev).push(t[i as int]));
            }
        }
        i = i + 1;
    }
    proof {
        assert(t.take(t.len() as int) =~= t);
    }
    out
}

/// Puts computed declarations over an element's inline style. Without any, nothing happens.
pub fn apply_resolved_style(dom: &mut Dom, node: NodeId, resolved: &Vec<(String, String)>)
    requires
        tree::wf(old(dom)@),
        tree::has(old(dom)@, node),
    ensures
        tree::wf(final(dom)@),
        final(dom)@ == (if resolved@.len() == 0 {
            old(dom)@
        } else {
            tree::with_attr(
                old(dom)@,
                node,
                "style"@,
                style::decls_text(
                    overlaid(
                        current_decls(old(dom)@[node.at()].kind),
                        text::pair_texts(resolved@),
                    ),
                ),
            )
        }),
        final(dom).touched() == (old(dom).touched() || resolved@.len() > 0
            && old(dom)@[node.at()].kind is Element),
{
    if resolved.len() == 0 {
        return ;
    }
    let mut decls = current_inline_style(dom, node);
    let ghost start = text::pair_texts(decls@);
    let ghost rv = text::pair_texts(resolved@);
    let mut i: usize = 0;
    while i < resolved.len()
        invariant
            i <= resolved@.len(),
            rv == text::pair_texts(resolved@),
            text::pair_texts(decls@) == overlaid(start, rv.take(i as int)),
        decreases resolved@.len() - i,
    {
        proof {
            assert(rv.take(i + 1).drop_last() =~= rv.take(i as int));
            assert(rv.take(i + 1).last() == rv[i as int]);
        }
        decls = drop_called(&decls, &resolved[i].0);
        let ghost prev = decls@;
        decls.push((text::copy(&resolved[i].0), text::copy(&resolved[i].1)));
        proof {
            assert(text::pair_texts(decls@) =~= text::pair_texts(prev).push(rv[i as int]));
        }
        i = i + 1;
    }
    proof {
        assert(rv.take(rv.len() as int) =~= rv);
    }
    let s = style::write_decls(&decls);
    dom.set_attribute(node, "style", s);
}

/// Whether a finished animation has anyone to be told.
pub fn queue_finished(has_resolver: bool, has_handle: bool) -> (r: bool)
    ensures
        r == (has_resolver || has_handle),
{
    has_resolver || has_handle
}

/// The handler that is called when an animation is finished.
pub fn finish_handler() -> (r: String)
    ensures
        r@ == "onfinish"@,
{
    text::copy("onfinish")
}

/// What the promise of an animation that is cancelled is rejected with, and the handler that is
/// called.
pub fn anim_cancel() -> (r: (String, String))
    ensures
        r.0@ == "cancelled"@,
        r.1@ == "oncancel"@,
{
    (text::copy("cancelled"), text::copy("oncancel"))
}

/// The words for easings, directions and fill modes are each for one of them; any other word is for the
/// plain one.
pub proof fn timings_are_named(s: Seq<char>)
    ensures
        easing_of(s) == Easing::Ease <==> text::trimmed(s) == "ease"@,
        easing_of(s) == Easing::EaseIn <==> text::trimmed(s) == "ease-in"@,
        easing_of(s) == Easing::EaseOut <==> text::trimmed(s) == "ease-out"@,
        easing_of(s) == Easing::EaseInOut <==> text::trimmed(s) == "ease-in-out"@,
        easing_of(s) == Easing::StepStart <==> text::trimmed(s) == "step-start"@,
        easing_of(s) == Easing::StepEnd <==> text::trimmed(s) == "step-end"@,
        direction_of(s) == Direction::Reverse <==> s == "reverse"@,
        direction_of(s) == Direction::Alternate <==> s == "alternate"@,
        direction_of(s) == Direction::AlternateReverse <==> s == "alternate-reverse"@,
        fill_of(s) == FillMode::Forwards <==> s == "forwards"@,
        fill_of(s) == FillMode::Backwards <==> s == "backwards"@,
        fill_of(s) == FillMode::Both <==> s == "both"@,
        fill_of(s) == FillMode::Auto <==> s == "auto"@,
{
    reveal_strlit("ease");
    reveal_strlit("ease-in");
    reveal_strlit("ease-out");
    reveal_strlit("ease-in-out");
    reveal_strlit("step-start");
    reveal_strlit("step-end");
    reveal_strlit("reverse");
    reveal_strlit("alternate");
    reveal_strlit("alternate-reverse");
    reveal_strlit("forwards");
    reveal_strlit("backwards");
    reveal_strlit("both");
    reveal_strlit("auto");
    assert("ease"@.len() == 4 && "ease-in"@.len() == 7 && "ease-out"@.len() == 8
        && "ease-in-out"@.len() == 11 && "step-start"@.len() == 10 && "step-end"@.len() == 8);
    assert("ease-out"@[0] == 'e' && "step-end"@[0] == 's');
    assert("reverse"@.len() == 7 && "alternate"@.len() == 9 && "alternate-reverse"@.len() == 17);
    assert("forwards"@.len() == 8 && "backwards"@.len() == 9 && "both"@.len() == 4 && "auto"@.len()
        == 4);
    assert("both"@[0] == 'b' && "auto"@[0] == 'a');
}

/// Playing restarts what is idle or over, resumes what is paused and leaves what runs; only what runs
/// is paused, where it is.
pub proof fn animations_are_played_and_paused(s: PlayState)
    ensures
        played(s).1 == TimeChange::Keep <==> s == PlayState::Running,
        played(s).1 == TimeChange::Resume <==> s == PlayState::Paused,
        s == PlayState::Idle || s == PlayState::Finished ==> played(s).1 == TimeChange::Restart,
        paused(s).0 == PlayState::Paused <==> s == PlayState::Running || s == PlayState::Paused,
        paused(s).1 == TimeChange::HoldProgress <==> s == PlayState::Running,
        s != PlayState::Running ==> paused(s) == (s, TimeChange::Keep),
{
}

/// An animation that neither runs nor is paused shows nothing. Before its start it shows where it
/// starts, if it fills backwards, and from then on a point of its iteration, the end of the last one
/// once all are over. Normal ones run forward, reversed ones back.
pub proof fn animations_show_where_they_are(
    s: PlayState,
    f: FillMode,
    d: Direction,
    waits: bool,
    iteration: nat,
    over: bool,
)
    ensures
        s == PlayState::Idle || s == PlayState::Finished ==> sample_of(
            s,
            f,
            d,
            waits,
            iteration,
            over,
        ) == Sample::Nothing,
        s == PlayState::Running || s == PlayState::Paused ==> {
            let x = sample_of(s, f, d, waits, iteration, over);
            &&& waits ==> (x == Sample::Start <==> f == FillMode::Backwards || f == FillMode::Both)
            &&& waits && x != Sample::Start ==> x == Sample::Nothing
            &&& !waits && over ==> (x matches Sample::End { forward } && forward == forward_in(
                d,
                iteration,
            ))
            &&& !waits && !over ==> (x matches Sample::Within { forward } && forward == forward_in(
                d,
                iteration,
            ))
        },
        forward_in(Direction::Normal, iteration),
        !forward_in(Direction::Reverse, iteration),
        forward_in(Direction::Alternate, 0),
        state_name(PlayState::Idle) == "idle"@,
        state_name(PlayState::Running) == "running"@,
        state_name(PlayState::Paused) == "paused"@,
        state_name(PlayState::Finished) == "finished"@,
{
}

/// The name of a property is the same again once its capitals were spelt with hyphens and back.
pub proof fn hyphenated_names_are_read_back(s: Seq<char>)
    requires
        forall|i: int| 0 <= i < s.len() ==> (#[trigger] s[i]) != '-' && s[i] as u32 <= 127,
    ensures
        style::camel_of(kebab_of(s)) == s,
        s.len() > 0 ==> kebab_of(s).len() > 0 && kebab_of(s).last() != '-',
    decreases s.len(),
{
    if s.len() == 0 {
        assert(style::camel_of(kebab_of(s)) =~= s);
    } else {
        let d = s.drop_last();
        let c = s.last();
        assert(s[s.len() - 1] == c);
        assert(d.push(c) =~= s);
        hyphenated_names_are_read_back(d);
        let k = kebab_of(d);
        text::letters_change_case(c, s, s.len() - 1);
        if 'A' <= c <= 'Z' {
            let l = text::lower_char(c);
            let e = Seq::<char>::empty();
            style::hyphens_become_capitals(k, l, e);
            assert(k + seq!['-', l] + e =~= k.push('-').push(l));
            assert(style::camel_of(e) =~= e);
            assert(kebab_of(s) == k.push('-').push(l));
            assert(style::camel_of(k).push(text::upper_char(l)) + e =~= d.push(c));
        } else {
            let w = k.push(c);
            assert(kebab_of(s) == w);
            assert(w.drop_last() =~= k);
            if w.len() >= 2 {
                assert(d.len() > 0);
                assert(w[w.len() - 2] == k.last());
            }
            assert(style::camel_of(w) == style::camel_of(k).push(c));
        }
    }
}

/// The properties of a keyframe are all that it has, in order and with their values, but for what says
/// how it is used.
pub proof fn keyframes_have_their_properties(
    own: Seq<(Seq<char>, Seq<char>)>,
    name: Seq<char>,
    value: Seq<char>,
)
    ensures
        name == "offset"@ || name == "easing"@ || name == "composite"@ ==> frame_properties(
            own.push((name, value)),
        ) == frame_properties(own),
        name != "offset"@ && name != "easing"@ && name != "composite"@ ==> frame_properties(
            own.push((name, value)),
        ) == frame_properties(own).push((kebab_of(name), value)),
        own.len() == 0 ==> frame_properties(own).len() == 0,
{
    assert(own.push((name, value)).drop_last() =~= own);
}

/// The properties that are sampled are those that have a value, each once, and the values of one are
/// all under its name and no others.
pub proof fn only_values_are_sampled(v: Seq<FrameValueView>, name: Seq<char>, k: int)
    ensures
        property_names(v).no_duplicates(),
        property_names(v).contains(name) ==> exists|i: int|
            0 <= i < v.len() && (#[trigger] v[i]).name == name,
        0 <= k < places_of(v, name).len() ==> 0 <= places_of(v, name)[k] < v.len()
            && v[places_of(v, name)[k]].name == name,
    decreases v.len(),
{
    if v.len() > 0 {
        let w = v.drop_last();
        only_values_are_sampled(w, name, k);
        let names = property_names(w);
        let last = v.last().name;
        assert(v[v.len() - 1] == v.last());
        if !names.contains(last) {
            assert forall|i: int| 0 <= i < names.len() implies #[trigger] names[i] != last by {
                assert(names.contains(names[i]));
            }
        }
        if property_names(v).contains(name) && name != last {
            let j = property_names(v).index_of(name);
            assert(names[j] == name);
            assert(names.contains(name));
            let i = choose|i: int| 0 <= i < w.len() && (#[trigger] w[i]).name == name;
            assert(v[i] == w[i]);
        }
        let p = places_of(w, name);
        if 0 <= k < p.len() {
            assert(v[p[k]] == w[p[k]]);
        }
    }
}

/// A number and its unit are parted where the first character stands that no number has; what begins
/// with such a character is no number.
pub proof fn numbers_are_parted_from_units(n: Seq<char>, u: Seq<char>)
    requires
        n.len() > 0,
        forall|i: int| 0 <= i < n.len() ==> number_char(#[trigger] n[i]),
        u.len() > 0,
        !number_char(u[0]),
        text::trimmed(u) == u,
    ensures
        number_and_unit(n + u) == Some((n, u)),
        number_and_unit(n) == Some((n, Seq::<char>::empty())),
        number_and_unit(u) is None,
{
    let p = |c: char| !number_char(c);
    let s = n + u;
    let k = text::CharClass::Space;
    text::lemma_trim_ends(u, k);
    text::spaces_are_not_seen(n[0]);
    text::spaces_are_not_seen(n.last());
    assert(number_char(n[0]) && number_char(n[n.len() - 1]));
    assert(s[0] == n[0] && s.last() == u.last());
    text::lemma_trimmed(s, k);
    text::lemma_trimmed(n, k);
    assert forall|j: int| 0 <= j < n.len() implies !p(#[trigger] s[j]) by {
        assert(s[j] == n[j]);
    }
    assert(s[n.len() as int] == u[0]);
    pairs::lemma_position(s, p, n.len() as int);
    pairs::lemma_position(u, p, 0);
    pairs::lemma_position_holds(n, p);
    assert(s.take(n.len() as int) =~= n);
    assert(s.skip(n.len() as int) =~= u);
    assert(n.take(n.len() as int) =~= n);
    assert(n.skip(n.len() as int) =~= Seq::<char>::empty());
    text::lemma_trimmed(Seq::empty(), k);
}

/// Values are blended as numbers only where both are numbers of one unit; where they are not, as
/// colours where both are, and otherwise not at all.
pub proof fn values_are_blended(
    a: Seq<char>,
    b: Seq<char>,
    from: Seq<char>,
    to: Seq<char>,
    unit: Seq<char>,
    other: Seq<char>,
)
    requires
        number_and_unit(a) == Some((from, unit)),
        number_and_unit(b) == Some((to, other)),
    ensures
        unit == other ==> blend_of(a, b, true) == (BlendView::Numbers { from, to, unit }),
        unit != other ==> !(blend_of(a, b, true) is Numbers),
        !(blend_of(a, b, false) is Numbers),
        blend_of(a, b, false) is Colors <==> color_of(a) is Some && color_of(b) is Some,
        color_of(a) is None || color_of(b) is None ==> blend_of(a, b, false) == BlendView::Snap,
        blend_of(a, b, false) matches BlendView::Colors { start, end } ==> Some(start) == color_of(a)
            && Some(end) == color_of(b),
{
}

/// Declarations that are put over others take the place of those with their name, the last of them
/// winning; declarations with other names stay.
pub proof fn overlaid_declarations_win(
    v: Seq<(Seq<char>, Seq<char>)>,
    more: Seq<(Seq<char>, Seq<char>)>,
    d: (Seq<char>, Seq<char>),
    x: (Seq<char>, Seq<char>),
)
    ensures
        overlaid(v, more.push(d)).last() == d,
        text::lower(x.0) == text::lower(d.0) && x != d ==> !overlaid(v, more.push(d)).contains(x),
        text::lower(x.0) != text::lower(d.0) ==> (overlaid(v, more.push(d)).contains(x) <==> overlaid(
            v,
            more,
        ).contains(x)),
        overlaid(v, Seq::empty()) == v,
{
    let u = overlaid(v, more);
    assert(more.push(d).drop_last() =~= more);
    let p = not_called(d.0);
    let w = u.filter(p);
    let r = w.push(d);
    assert(overlaid(v, more.push(d)) == r);
    if r.contains(x) && x != d {
        let k = r.index_of(x);
        assert(w[k] == x);
        u.lemma_filter_pred(p, k);
        assert(w.contains(x));
        u.lemma_filter_contains_rev(p, x);
    }
    if u.contains(x) && p(x) {
        u.lemma_filter_contains(p, u.index_of(x));
        assert(r[w.index_of(x)] == x);
    }
}

/// A colour is read from digits behind their sign, with its opacity where there are eight, or from
/// decimal numbers between brackets, with its opacity as it is written where there are more than three.
pub proof fn blended_colours_are_read(c: Color, a: Seq<char>)
    requires
        text::trimmed(a) == a,
        a.len() > 0,
    ensures
        color::hex_color(a) == Some(c) ==> color_of("#"@ + a) == Some(
            (
                c.r,
                c.g,
                c.b,
                if a.len() == 8 {
                    OpacityView::Byte(c.a)
                } else {
                    OpacityView::Full
                },
            ),
        ),
        color::hex_color(a) is None ==> color_of("#"@ + a) is None,
        color::comma_parts(a).len() < 3 ==> color_of("rgb("@ + a.push(')')) is None,
        color::comma_parts(a).len() == 3 && color::decimal_byte(color::comma_parts(a)[0]) == Some(
            c.r,
        ) && color::decimal_byte(color::comma_parts(a)[1]) == Some(c.g) && color::decimal_byte(
            color::comma_parts(a)[2],
        ) == Some(c.b) ==> color_of("rgb("@ + a.push(')')) == Some(
            (c.r, c.g, c.b, OpacityView::Full),
        ) && color_of("rgba("@ + a.push(')')) == Some((c.r, c.g, c.b, OpacityView::Full)),
        color::comma_parts(a).len() == 4 && color::decimal_byte(color::comma_parts(a)[0]) == Some(
            c.r,
        ) && color::decimal_byte(color::comma_parts(a)[1]) == Some(c.g) && color::decimal_byte(
            color::comma_parts(a)[2],
        ) == Some(c.b) ==> color_of("rgba("@ + a.push(')')) == Some(
            (c.r, c.g, c.b, OpacityView::Written(color::comma_parts(a)[3])),
        ),
{
    reveal_strlit("rgb(");
    reveal_strlit("rgba(");
    reveal_strlit("#");
    let p = "rgb("@ + a.push(')');
    let q = "rgba("@ + a.push(')');
    let h = "#"@ + a;
    assert(p[0] == 'r' && q[0] == 'r' && h[0] == '#');
    assert(p.last() == ')' && q.last() == ')' && h.last() == a.last());
    text::spaces_are_not_seen(')');
    text::spaces_are_not_seen('r');
    text::spaces_are_not_seen('#');
    text::lemma_trim_ends(a, text::CharClass::Space);
    text::lemma_trimmed(p, text::CharClass::Space);
    text::lemma_trimmed(q, text::CharClass::Space);
    text::lemma_trimmed(h, text::CharClass::Space);
    text::beginnings_and_ends(h, "#"@, a);
    text::beginnings_and_ends(p, "#"@, a);
    text::beginnings_and_ends(q, "#"@, a);
    text::beginnings_and_ends(q, "rgba("@, a.push(')'));
    assert(p[3] == '(' && "rgba("@[3] == 'a');
    if text::begins(p, "#"@) {
        assert(p.take(1)[0] == p[0]);
    }
    if text::begins(q, "#"@) {
        assert(q.take(1)[0] == q[0]);
    }
    if text::begins(p, "rgba("@) {
        assert(p.take(5)[3] == p[3]);
    }
    color::lists_are_read(a, a, "rgb("@, 0);
    color::lists_are_read(a, a, "rgba("@, 0);
}

/// The characters of numbers are the digits, the point, the signs and the letter of an exponent.
pub proof fn numbers_have_their_characters(c: char)
    ensures
        number_char(c) <==> '0' <= c <= '9' || c == '.' || c == '+' || c == '-' || c == 'e' || c
            == 'E',
{
}

/// The style of an element is read under its name in letters of either case; without one it has no
/// declarations.
pub proof fn styles_are_read_from_their_attribute(
    tag: Seq<char>,
    attrs: Seq<(Seq<char>, Seq<char>)>,
    v: Seq<char>,
)
    ensures
        pairs::value_ignoring_case(attrs, "style"@) == Some(v) ==> current_decls(
            KindView::Element { tag, attrs },
        ) == style::style_decls(v, false),
        pairs::value_ignoring_case(attrs, "style"@) is None ==> current_decls(
            KindView::Element { tag, attrs },
        ).len() == 0,
{
}

} // verus!
