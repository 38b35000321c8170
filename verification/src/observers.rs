//! Observers of a document: what each of them watches, which records it is handed, and when the
//! layout makes it call back.
use crate::pairs;
use crate::text;
use crate::tree::NodeId;
use vstd::prelude::*;

verus! {

/// What a mutation changed.
#[derive(Clone, Copy, PartialEq, Eq, Structural, Debug)]
pub enum MutationKind {
    Attributes,
    CharacterData,
    ChildList,
}

/// A mutation of a node.
pub struct MutationRecord {
    pub kind: MutationKind,
    pub target: NodeId,
    pub attribute_name: Option<String>,
}

/// A mutation of a node, over plain values.
pub struct RecordView {
    pub kind: MutationKind,
    pub target: NodeId,
    pub attribute_name: Option<Seq<char>>,
}

impl View for MutationRecord {
    type V = RecordView;

    open spec fn view(&self) -> RecordView {
        RecordView {
            kind: self.kind,
            target: self.target,
            attribute_name: text::opt_text(self.attribute_name),
        }
    }
}

/// What one `observe` call asks to be told of.
#[derive(Clone, Copy)]
pub struct MutationWatch {
    pub target: NodeId,
    pub attributes: bool,
    pub child_list: bool,
    pub character_data: bool,
    pub subtree: bool,
}

/// The plain values of a list of records.
pub open spec fn records_view(v: Seq<MutationRecord>) -> Seq<RecordView> {
    v.map_values(|r: MutationRecord| r@)
}

/// The plain values of a list of lists.
pub open spec fn nested<T>(v: Seq<Vec<T>>) -> Seq<Seq<T>> {
    v.map_values(|w: Vec<T>| w@)
}

/// What an intersection observer was last told of a target: whether it is in view, and how much
/// of it is, by the bits of that ratio. From zero to one, ratios are ordered as their bits are.
#[derive(Clone, Copy, PartialEq, Eq, Structural, Debug)]
pub struct Sight {
    pub intersecting: bool,
    pub ratio: u64,
}

/// The size of a target that a resize observer was last told of, by the bits of both its sides.
#[derive(Clone, Copy, PartialEq, Eq, Structural, Debug)]
pub struct Extent {
    pub width: u32,
    pub height: u32,
}

/// The bits of the ratio of a target that is in view as a whole.
pub const WHOLE: u64 = 0x3FF0_0000_0000_0000;

/// An intersection observer: the ratios at which it calls back, and its targets with what it was
/// last told of each.
pub struct IntersectionObserver {
    pub thresholds: Vec<u64>,
    pub targets: Vec<(NodeId, Sight)>,
}

/// An intersection observer over plain values.
pub struct IntersectionView {
    pub thresholds: Seq<u64>,
    pub targets: Seq<(NodeId, Sight)>,
}

impl View for IntersectionObserver {
    type V = IntersectionView;

    open spec fn view(&self) -> IntersectionView {
        IntersectionView { thresholds: self.thresholds@, targets: self.targets@ }
    }
}

/// The plain values of a list of intersection observers.
pub open spec fn intersections(v: Seq<IntersectionObserver>) -> Seq<IntersectionView> {
    v.map_values(|e: IntersectionObserver| e@)
}

/// What the observers of a document watch, and the mutations that they have yet to be told of.
pub struct ObserverState {
    pub pending: Vec<MutationRecord>,
    pub mutation_observers: Vec<Vec<MutationWatch>>,
    pub intersection_observers: Vec<IntersectionObserver>,
    pub resize_observers: Vec<Vec<(NodeId, Extent)>>,
}

/// The plain values of the observers.
pub struct ObserversView {
    pub pending: Seq<RecordView>,
    pub mutation_observers: Seq<Seq<MutationWatch>>,
    pub intersection_observers: Seq<IntersectionView>,
    pub resize_observers: Seq<Seq<(NodeId, Extent)>>,
}

impl View for ObserverState {
    type V = ObserversView;

    open spec fn view(&self) -> ObserversView {
        ObserversView {
            pending: records_view(self.pending@),
            mutation_observers: nested(self.mutation_observers@),
            intersection_observers: intersections(self.intersection_observers@),
            resize_observers: nested(self.resize_observers@),
        }
    }
}

/// The plain values of observers that may not be there.
pub open spec fn slot_view(s: Option<ObserverState>) -> Option<ObserversView> {
    match s {
        Some(o) => Some(o@),
        None => None,
    }
}

impl Default for ObserverState {
    /// No observers and no mutations.
    fn default() -> (r: Self)
        ensures
            r@ == (ObserversView {
                pending: Seq::empty(),
                mutation_observers: Seq::empty(),
                intersection_observers: Seq::empty(),
                resize_observers: Seq::empty(),
            }),
    {
        let r = ObserverState {
            pending: Vec::new(),
            mutation_observers: Vec::new(),
            intersection_observers: Vec::new(),
            resize_observers: Vec::new(),
        };
        proof {
            assert(r@.pending =~= Seq::empty());
            assert(r@.mutation_observers =~= Seq::empty());
            assert(r@.intersection_observers =~= Seq::empty());
            assert(r@.resize_observers =~= Seq::empty());
        }
        r
    }
}

/// The observers with one more mutation to be told of.
pub open spec fn recorded(s: Option<ObserversView>, r: RecordView) -> Option<ObserversView> {
    match s {
        Some(o) => Some(ObserversView { pending: o.pending.push(r), ..o }),
        None => None,
    }
}

/// Adds a mutation to those that the observers have yet to be told of. Where there are no
/// observers, nothing happens.
pub fn push_mutation_record(slot: &mut Option<ObserverState>, record: MutationRecord)
    ensures
        slot_view(*final(slot)) == recorded(slot_view(*old(slot)), record@),
{
    let ghost before = slot_view(*slot);
    let ghost rv = record@;
    match slot {
        Some(state) => {
            let ghost old_pending = state.pending@;
            state.pending.push(record);
            proof {
                assert(records_view(state.pending@) =~= records_view(old_pending).push(rv));
            }
        },
        None => {},
    }
}

/// Whether a watch asks to be told of a mutation.
pub open spec fn wants(w: MutationWatch, r: RecordView) -> bool {
    &&& match r.kind {
        MutationKind::Attributes => w.attributes,
        MutationKind::CharacterData => w.character_data,
        MutationKind::ChildList => w.child_list,
    }
    &&& w.subtree || r.target == w.target
}

/// Whether a watch asks to be told of a mutation. One that takes in the subtree takes in every
/// node.
pub fn watch_matches(watch: &MutationWatch, rec: &MutationRecord) -> (r: bool)
    ensures
        r == wants(*watch, rec@),
{
    let kind_match = match rec.kind {
        MutationKind::Attributes => watch.attributes,
        MutationKind::CharacterData => watch.character_data,
        MutationKind::ChildList => watch.child_list,
    };
    if !kind_match {
        return false;
    }
    if watch.subtree {
        return true;
    }
    rec.target.raw == watch.target.raw
}

/// Whether one of the watches asks to be told of a mutation.
pub open spec fn wanted_by(watches: Seq<MutationWatch>) -> spec_fn(RecordView) -> bool {
    |r: RecordView| exists|i: int| 0 <= i < watches.len() && wants(#[trigger] watches[i], r)
}

/// The batches for the first observers: each with the mutations that it asked for, in order;
/// none for an observer that asked for none of them.
pub open spec fn batches(
    observers: Seq<Seq<MutationWatch>>,
    pending: Seq<RecordView>,
    n: int,
) -> Seq<(int, Seq<RecordView>)>
    decreases n,
{
    if n <= 0 {
        Seq::empty()
    } else {
        let before = batches(observers, pending, n - 1);
        let mine = pending.filter(wanted_by(observers[n - 1]));
        if mine.len() > 0 {
            before.push((n - 1, mine))
        } else {
            before
        }
    }
}

/// The plain values of batches.
pub open spec fn batches_view(v: Seq<(usize, Vec<MutationRecord>)>) -> Seq<(int, Seq<RecordView>)> {
    v.map_values(|b: (usize, Vec<MutationRecord>)| (b.0 as int, records_view(b.1@)))
}

fn copy_record(r: &MutationRecord) -> (c: MutationRecord)
    ensures
        c@ == r@,
{
    let attribute_name: Option<String> = match &r.attribute_name {
        Some(s) => Some(text::copy(s)),
        None => None,
    };
    MutationRecord { kind: r.kind, target: r.target, attribute_name }
}

fn any_wants(watches: &Vec<MutationWatch>, rec: &MutationRecord) -> (r: bool)
    ensures
        r == wanted_by(watches@)(rec@),
{
    let mut i: usize = 0;
    while i < watches.len()
        invariant
            i <= watches@.len(),
            forall|j: int| 0 <= j < i ==> !wants(#[trigger] watches@[j], rec@),
        decreases watches@.len() - i,
    {
        if watch_matches(&watches[i], rec) {
            return true;
        }
        i = i + 1;
    }
    false
}

fn pick(watches: &Vec<MutationWatch>, pending: &Vec<MutationRecord>) -> (r: Vec<MutationRecord>)
    ensures
        records_view(r@) == records_view(pending@).filter(wanted_by(watches@)),
{
    let ghost pv = records_view(pending@);
    let ghost p = wanted_by(watches@);
    let mut out: Vec<MutationRecord> = Vec::new();
    let mut i: usize = 0;
    proof {
        reveal(Seq::filter);
        assert(pv.take(0).filter(p) =~= Seq::empty());
        assert(records_view(out@) =~= Seq::empty());
    }
    while i < pending.len()
        invariant
            i <= pending@.len(),
            pv == records_view(pending@),
            p == wanted_by(watches@),
            records_view(out@) == pv.take(i as int).filter(p),
        decreases pending@.len() - i,
    {
        proof {
            reveal(Seq::filter);
            assert(pv.take(i + 1).drop_last() =~= pv.take(i as int));
            assert(pv.take(i + 1).last() == pending@[i as int]@);
        }
        if any_wants(watches, &pending[i]) {
            let ghost prev = out@;
            let c = copy_record(&pending[i]);
            out.push(c);
            proof {
                assert(records_view(out@) =~= records_view(prev).push(pv[i as int]));
            }
        }
        i = i + 1;
    }
    proof {
        assert(pv.take(pv.len() as int) =~= pv);
    }
    out
}

/// Takes the mutations that the observers have yet to be told of, and gives for each observer
/// that asked for some of them its place and these, in order.
pub fn drain_mutation_records(slot: &mut Option<ObserverState>) -> (r: Vec<
    (usize, Vec<MutationRecord>),
>)
    ensures
        match slot_view(*old(slot)) {
            None => slot_view(*final(slot)) is None && r@.len() == 0,
            Some(o) => {
                &&& slot_view(*final(slot)) == Some(ObserversView { pending: Seq::empty(), ..o })
                &&& batches_view(r@) == batches(
                    o.mutation_observers,
                    o.pending,
                    o.mutation_observers.len() as int,
                )
            },
        },
{
    let mut out: Vec<(usize, Vec<MutationRecord>)> = Vec::new();
    match slot {
        None => out,
        Some(state) => {
            let mut drained: Vec<MutationRecord> = Vec::new();
            core::mem::swap(&mut drained, &mut state.pending);
            let ghost pv = records_view(drained@);
            let ghost ov = nested(state.mutation_observers@);
            let mut i: usize = 0;
            proof {
                assert(records_view(state.pending@) =~= Seq::empty());
                assert(batches_view(out@) =~= Seq::empty());
            }
            while i < state.mutation_observers.len()
                invariant
                    i <= state.mutation_observers@.len(),
                    pv == records_view(drained@),
                    ov == nested(state.mutation_observers@),
                    batches_view(out@) == batches(ov, pv, i as int),
                decreases state.mutation_observers@.len() - i,
            {
                let mine = pick(&state.mutation_observers[i], &drained);
                proof {
                    assert(ov[i as int] == state.mutation_observers@[i as int]@);
                }
                if mine.len() > 0 {
                    let ghost prev = out@;
                    let ghost mv = records_view(mine@);
                    out.push((i, mine));
                    proof {
                        assert(batches_view(out@) =~= batches_view(prev).push((i as int, mv)));
                    }
                }
                i = i + 1;
            }
            out
        },
    }
}

/// Adds a mutation observer that watches nothing yet, and gives its place; `usize::MAX` where
/// there is nowhere to keep it.
pub fn mutation_observer_ctor(slot: &mut Option<ObserverState>) -> (r: usize)
    ensures
        match slot_view(*old(slot)) {
            None => slot_view(*final(slot)) is None && r == usize::MAX,
            Some(o) => {
                &&& slot_view(*final(slot)) == Some(
                    ObserversView {
                        mutation_observers: o.mutation_observers.push(Seq::empty()),
                        ..o
                    },
                )
                &&& r == o.mutation_observers.len()
            },
        },
{
    match slot {
        None => usize::MAX,
        Some(state) => {
            let ghost before = state.mutation_observers@;
            let n: usize = state.mutation_observers.len();
            state.mutation_observers.push(Vec::new());
            proof {
                assert(nested(state.mutation_observers@) =~= nested(before).push(Seq::empty()));
            }
            n
        },
    }
}

/// What an `observe` call asks for: where it names no kind of mutation, all three.
pub open spec fn watch_of(
    target: NodeId,
    attributes: bool,
    child_list: bool,
    character_data: bool,
    subtree: bool,
) -> MutationWatch {
    let all = !attributes && !child_list && !character_data;
    MutationWatch {
        target,
        attributes: attributes || all,
        child_list: child_list || all,
        character_data: character_data || all,
        subtree,
    }
}

/// The lists with an item more in one of them, where there is such a list.
pub open spec fn with_item<T>(v: Seq<Seq<T>>, idx: int, item: T) -> Seq<Seq<T>> {
    if 0 <= idx < v.len() {
        v.update(idx, v[idx].push(item))
    } else {
        v
    }
}

/// The lists with one of them emptied, where there is such a list.
pub open spec fn emptied<T>(v: Seq<Seq<T>>, idx: int) -> Seq<Seq<T>> {
    if 0 <= idx < v.len() {
        v.update(idx, Seq::empty())
    } else {
        v
    }
}

/// Makes a mutation observer watch a node.
pub fn mutation_observer_observe(
    slot: &mut Option<ObserverState>,
    idx: usize,
    target: NodeId,
    attributes: bool,
    child_list: bool,
    character_data: bool,
    subtree: bool,
)
    ensures
        slot_view(*final(slot)) == match slot_view(*old(slot)) {
            None => None,
            Some(o) => Some(
                ObserversView {
                    mutation_observers: with_item(
                        o.mutation_observers,
                        idx as int,
                        watch_of(target, attributes, child_list, character_data, subtree),
                    ),
                    ..o
                },
            ),
        },
{
    let all = !attributes && !child_list && !character_data;
    let watch = MutationWatch {
        target,
        attributes: attributes || all,
        child_list: child_list || all,
        character_data: character_data || all,
        subtree,
    };
    match slot {
        None => {},
        Some(state) => {
            let ghost before = state.mutation_observers@;
            if idx < state.mutation_observers.len() {
                state.mutation_observers[idx].push(watch);
                proof {
                    assert(nested(state.mutation_observers@) =~= with_item(
                        nested(before),
                        idx as int,
                        watch,
                    ));
                }
            }
        },
    }
}

/// Makes a mutation observer watch nothing.
pub fn mutation_observer_disconnect(slot: &mut Option<ObserverState>, idx: usize)
    ensures
        slot_view(*final(slot)) == match slot_view(*old(slot)) {
            None => None,
            Some(o) => Some(
                ObserversView {
                    mutation_observers: emptied(o.mutation_observers, idx as int),
                    ..o
                },
            ),
        },
{
    match slot {
        None => {},
        Some(state) => {
            let ghost before = state.mutation_observers@;
            if idx < state.mutation_observers.len() {
                state.mutation_observers[idx].clear();
                proof {
                    assert(nested(state.mutation_observers@) =~= emptied(
                        nested(before),
                        idx as int,
                    ));
                }
            }
        },
    }
}

/// Whether a target is the node.
pub open spec fn of_node<S>(n: NodeId) -> spec_fn((NodeId, S)) -> bool {
    |p: (NodeId, S)| p.0 == n
}

/// Whether a target is another than the node.
pub open spec fn other_than<S>(n: NodeId) -> spec_fn((NodeId, S)) -> bool {
    |p: (NodeId, S)| p.0 != n
}

/// The targets with what was told of a node, which is a target then if it was none.
pub open spec fn with_target<S>(v: Seq<(NodeId, S)>, n: NodeId, s: S) -> Seq<(NodeId, S)> {
    let i = pairs::position(v, of_node(n));
    if i < v.len() {
        v.update(i, (n, s))
    } else {
        v.push((n, s))
    }
}

fn put_target<S: Copy>(v: &mut Vec<(NodeId, S)>, n: NodeId, s: S)
    ensures
        final(v)@ == with_target(old(v)@, n, s),
{
    let ghost p = of_node::<S>(n);
    let mut i: usize = 0;
    while i < v.len()
        invariant
            v@ == old(v)@,
            i <= v@.len(),
            p == of_node::<S>(n),
            forall|j: int| 0 <= j < i ==> !p(#[trigger] v@[j]),
        decreases v@.len() - i,
    {
        if v[i].0.raw == n.raw {
            proof {
                assert(v@[i as int].0 == n);
                pairs::lemma_position(v@, p, i as int);
            }
            v.set(i, (n, s));
            return ;
        }
        i = i + 1;
    }
    proof {
        pairs::lemma_position(v@, p, i as int);
    }
    v.push((n, s));
}

fn drop_target<S: Copy>(v: &Vec<(NodeId, S)>, n: NodeId) -> (r: Vec<(NodeId, S)>)
    ensures
        r@ == v@.filter(other_than(n)),
{
    let ghost p = other_than::<S>(n);
    let mut out: Vec<(NodeId, S)> = Vec::new();
    let mut i: usize = 0;
    proof {
        reveal(Seq::filter);
        assert(v@.take(0).filter(p) =~= Seq::empty());
    }
    while i < v.len()
        invariant
            i <= v@.len(),
            p == other_than::<S>(n),
            out@ == v@.take(i as int).filter(p),
        decreases v@.len() - i,
    {
        proof {
            reveal(Seq::filter);
            assert(v@.take(i + 1).drop_last() =~= v@.take(i as int));
            assert(v@.take(i + 1).last() == v@[i as int]);
        }
        if v[i].0.raw != n.raw {
            out.push(v[i]);
        }
        i = i + 1;
    }
    proof {
        assert(v@.take(v@.len() as int) =~= v@);
    }
    out
}

/// Whether a ratio is one of those given, and one that can be.
pub open spec fn is_given(given: Seq<u64>, x: u64) -> bool {
    given.contains(x) && x <= WHOLE
}

/// The ratios at which an observer calls back: those that were given, from the least up and each
/// once, or zero where there are none.
pub open spec fn are_thresholds(v: Seq<u64>, given: Seq<u64>) -> bool {
    if exists|x: u64| #[trigger] is_given(given, x) {
        &&& forall|i: int, j: int| #![trigger v[i], v[j]] 0 <= i < j < v.len() ==> v[i] < v[j]
        &&& forall|x: u64| #[trigger] v.contains(x) <==> is_given(given, x)
    } else {
        v == seq![0u64]
    }
}

fn put_in_order(v: &mut Vec<u64>, x: u64)
    requires
        forall|i: int, j: int|
            #![trigger old(v)@[i], old(v)@[j]]
            0 <= i < j < old(v)@.len() ==> old(v)@[i] < old(v)@[j],
    ensures
        forall|i: int, j: int|
            #![trigger final(v)@[i], final(v)@[j]]
            0 <= i < j < final(v)@.len() ==> final(v)@[i] < final(v)@[j],
        forall|y: u64| #[trigger]
            final(v)@.contains(y) <==> old(v)@.contains(y) || y == x,
{
    let ghost before = v@;
    let mut i: usize = 0;
    while i < v.len() && v[i] < x
        invariant
            v@ == before,
            i <= v@.len(),
            forall|j: int| 0 <= j < i ==> v@[j] < x,
        decreases v@.len() - i,
    {
        i = i + 1;
    }
    if i < v.len() && v[i] == x {
        proof {
            assert(before[i as int] == x);
        }
        return ;
    }
    v.insert(i, x);
    proof {
        assert(v@ =~= before.insert(i as int, x));
        assert(v@[i as int] == x);
        assert forall|y: u64| #[trigger] v@.contains(y) <==> before.contains(y) || y == x by {
            if v@.contains(y) {
                let k = choose|k: int| 0 <= k < v@.len() && v@[k] == y;
                if k < i {
                    assert(before[k] == y);
                } else if k > i {
                    assert(before[k - 1] == y);
                }
            }
            if before.contains(y) {
                let k = choose|k: int| 0 <= k < before.len() && before[k] == y;
                if k < i {
                    assert(v@[k] == y);
                } else {
                    assert(v@[k + 1] == y);
                }
            }
        }
    }
}

/// The ratios at which an observer calls back.
pub fn read_thresholds(given: &Vec<u64>) -> (r: Vec<u64>)
    ensures
        are_thresholds(r@, given@),
{
    let mut out: Vec<u64> = Vec::new();
    let mut i: usize = 0;
    while i < given.len()
        invariant
            i <= given@.len(),
            forall|a: int, b: int|
                #![trigger out@[a], out@[b]]
                0 <= a < b < out@.len() ==> out@[a] < out@[b],
            forall|x: u64| #[trigger]
                out@.contains(x) <==> is_given(given@.take(i as int), x),
        decreases given@.len() - i,
    {
        let x = given[i];
        proof {
            let done = given@.take(i as int);
            let next = given@.take(i + 1);
            assert(next =~= done.push(x));
            assert(next[i as int] == x);
            assert forall|y: u64| #[trigger]
                next.contains(y) <==> done.contains(y) || y == x by {
                if done.contains(y) {
                    let k = choose|k: int| 0 <= k < done.len() && done[k] == y;
                    assert(next[k] == y);
                }
                if next.contains(y) && y != x {
                    let k = choose|k: int| 0 <= k < next.len() && next[k] == y;
                    assert(done[k] == y);
                }
            }
        }
        if x <= WHOLE {
            put_in_order(&mut out, x);
        }
        i = i + 1;
    }
    proof {
        assert(given@.take(given@.len() as int) =~= given@);
    }
    if out.len() == 0 {
        proof {
            assert forall|x: u64| !#[trigger] is_given(given@, x) by {
                assert(!out@.contains(x));
            }
        }
        out.push(0);
        proof {
            assert(out@ =~= seq![0u64]);
        }
    } else {
        proof {
            assert(out@.contains(out@[0]));
            assert(is_given(given@, out@[0]));
        }
    }
    out
}

/// Adds an intersection observer without targets that calls back at the given ratios, and gives
/// its place; `usize::MAX` where there is nowhere to keep it.
pub fn intersection_observer_ctor(slot: &mut Option<ObserverState>, given: &Vec<u64>) -> (r: usize)
    ensures
        match slot_view(*old(slot)) {
            None => slot_view(*final(slot)) is None && r == usize::MAX,
            Some(o) => {
                &&& slot_view(*final(slot)) matches Some(n) && {
                    &&& n == (ObserversView {
                        intersection_observers: n.intersection_observers,
                        ..o
                    })
                    &&& n.intersection_observers.len() == o.intersection_observers.len() + 1
                    &&& n.intersection_observers.drop_last() == o.intersection_observers
                    &&& n.intersection_observers.last().targets == Seq::<(NodeId, Sight)>::empty()
                    &&& are_thresholds(n.intersection_observers.last().thresholds, given@)
                }
                &&& r == o.intersection_observers.len()
            },
        },
{
    match slot {
        None => usize::MAX,
        Some(state) => {
            let ghost before = state.intersection_observers@;
            let n: usize = state.intersection_observers.len();
            let e = IntersectionObserver {
                thresholds: read_thresholds(given),
                targets: Vec::new(),
            };
            let ghost added = e@;
            state.intersection_observers.push(e);
            proof {
                assert(intersections(state.intersection_observers@) =~= intersections(before).push(
                    added,
                ));
                assert(intersections(before).push(added).drop_last() =~= intersections(before));
                assert(added.targets =~= Seq::empty());
            }
            n
        },
    }
}

/// The observers with other targets for one of them, where there is such an observer.
pub open spec fn with_targets(
    v: Seq<IntersectionView>,
    idx: int,
    targets: Seq<(NodeId, Sight)>,
) -> Seq<IntersectionView> {
    if 0 <= idx < v.len() {
        v.update(idx, IntersectionView { targets, ..v[idx] })
    } else {
        v
    }
}

/// Adds a target to an intersection observer, once; tells whether there is such an observer,
/// which is then called back at once and told that the target is in view as a whole.
pub fn intersection_observe(slot: &mut Option<ObserverState>, idx: usize, target: NodeId) -> (r:
    bool)
    ensures
        slot_view(*final(slot)) == match slot_view(*old(slot)) {
            None => None,
            Some(o) => Some(
                ObserversView {
                    intersection_observers: with_targets(
                        o.intersection_observers,
                        idx as int,
                        with_target(
                            o.intersection_observers[idx as int].targets,
                            target,
                            Sight { intersecting: true, ratio: WHOLE },
                        ),
                    ),
                    ..o
                },
            ),
        },
        r == (slot_view(*old(slot)) matches Some(o) && idx < o.intersection_observers.len()),
{
    match slot {
        None => false,
        Some(state) => {
            if idx < state.intersection_observers.len() {
                let ghost before = state.intersection_observers@;
                put_target(
                    &mut state.intersection_observers[idx].targets,
                    target,
                    Sight { intersecting: true, ratio: WHOLE },
                );
                proof {
                    assert(intersections(state.intersection_observers@) =~= with_targets(
                        intersections(before),
                        idx as int,
                        with_target(
                            before[idx as int].targets@,
                            target,
                            Sight { intersecting: true, ratio: WHOLE },
                        ),
                    ));
                }
                true
            } else {
                false
            }
        },
    }
}

/// Removes a target from an intersection observer.
pub fn intersection_unobserve(slot: &mut Option<ObserverState>, idx: usize, target: NodeId)
    ensures
        slot_view(*final(slot)) == match slot_view(*old(slot)) {
            None => None,
            Some(o) => Some(
                ObserversView {
                    intersection_observers: with_targets(
                        o.intersection_observers,
                        idx as int,
                        o.intersection_observers[idx as int].targets.filter(other_than(target)),
                    ),
                    ..o
                },
            ),
        },
{
    match slot {
        None => {},
        Some(state) => {
            if idx < state.intersection_observers.len() {
                let ghost before = state.intersection_observers@;
                let rest = drop_target(&state.intersection_observers[idx].targets, target);
                let ghost kept = rest@;
                state.intersection_observers[idx].targets = rest;
                proof {
                    assert(intersections(state.intersection_observers@) =~= with_targets(
                        intersections(before),
                        idx as int,
                        kept,
                    ));
                }
            }
        },
    }
}

/// Removes all targets from an intersection observer.
pub fn intersection_disconnect(slot: &mut Option<ObserverState>, idx: usize)
    ensures
        slot_view(*final(slot)) == match slot_view(*old(slot)) {
            None => None,
            Some(o) => Some(
                ObserversView {
                    intersection_observers: with_targets(
                        o.intersection_observers,
                        idx as int,
                        Seq::empty(),
                    ),
                    ..o
                },
            ),
        },
{
    match slot {
        None => {},
        Some(state) => {
            if idx < state.intersection_observers.len() {
                let ghost before = state.intersection_observers@;
                state.intersection_observers[idx].targets = Vec::new();
                proof {
                    assert(intersections(state.intersection_observers@) =~= with_targets(
                        intersections(before),
                        idx as int,
                        Seq::empty(),
                    ));
                }
            }
        },
    }
}

/// Adds a resize observer without targets, and gives its place; `usize::MAX` where there is
/// nowhere to keep it.
pub fn resize_observer_ctor(slot: &mut Option<ObserverState>) -> (r: usize)
    ensures
        match slot_view(*old(slot)) {
            None => slot_view(*final(slot)) is None && r == usize::MAX,
            Some(o) => {
                &&& slot_view(*final(slot)) == Some(
                    ObserversView {
                        resize_observers: o.resize_observers.push(Seq::empty()),
                        ..o
                    },
                )
                &&& r == o.resize_observers.len()
            },
        },
{
    match slot {
        None => usize::MAX,
        Some(state) => {
            let ghost before = state.resize_observers@;
            let n: usize = state.resize_observers.len();
            state.resize_observers.push(Vec::new());
            proof {
                assert(nested(state.resize_observers@) =~= nested(before).push(Seq::empty()));
            }
            n
        },
    }
}

/// The lists with another in the place of one of them, where there is such a list.
pub open spec fn replaced<T>(v: Seq<Seq<T>>, idx: int, w: Seq<T>) -> Seq<Seq<T>> {
    if 0 <= idx < v.len() {
        v.update(idx, w)
    } else {
        v
    }
}

/// Adds a target to a resize observer, once; tells whether there is such an observer, which is
/// then called back at once and told of a target without extent.
pub fn resize_observe(slot: &mut Option<ObserverState>, idx: usize, target: NodeId) -> (r: bool)
    ensures
        slot_view(*final(slot)) == match slot_view(*old(slot)) {
            None => None,
            Some(o) => Some(
                ObserversView {
                    resize_observers: replaced(
                        o.resize_observers,
                        idx as int,
                        with_target(
                            o.resize_observers[idx as int],
                            target,
                            Extent { width: 0, height: 0 },
                        ),
                    ),
                    ..o
                },
            ),
        },
        r == (slot_view(*old(slot)) matches Some(o) && idx < o.resize_observers.len()),
{
    match slot {
        None => false,
        Some(state) => {
            if idx < state.resize_observers.len() {
                let ghost before = state.resize_observers@;
                put_target(
                    &mut state.resize_observers[idx],
                    target,
                    Extent { width: 0, height: 0 },
                );
                proof {
                    assert(nested(state.resize_observers@) =~= replaced(
                        nested(before),
                        idx as int,
                        with_target(
                            before[idx as int]@,
                            target,
                            Extent { width: 0, height: 0 },
                        ),
                    ));
                }
                true
            } else {
                false
            }
        },
    }
}

/// Removes a target from a resize observer.
pub fn resize_unobserve(slot: &mut Option<ObserverState>, idx: usize, target: NodeId)
    ensures
        slot_view(*final(slot)) == match slot_view(*old(slot)) {
            None => None,
            Some(o) => Some(
                ObserversView {
                    resize_observers: replaced(
                        o.resize_observers,
                        idx as int,
                        o.resize_observers[idx as int].filter(other_than(target)),
                    ),
                    ..o
                },
            ),
        },
{
    match slot {
        None => {},
        Some(state) => {
            if idx < state.resize_observers.len() {
                let ghost before = state.resize_observers@;
                let rest = drop_target(&state.resize_observers[idx], target);
                let ghost kept = rest@;
                state.resize_observers[idx] = rest;
                proof {
                    assert(nested(state.resize_observers@) =~= replaced(
                        nested(before),
                        idx as int,
                        kept,
                    ));
                }
            }
        },
    }
}

/// Removes all targets from a resize observer.
pub fn resize_disconnect(slot: &mut Option<ObserverState>, idx: usize)
    ensures
        slot_view(*final(slot)) == match slot_view(*old(slot)) {
            None => None,
            Some(o) => Some(
                ObserversView { resize_observers: emptied(o.resize_observers, idx as int), ..o },
            ),
        },
{
    match slot {
        None => {},
        Some(state) => {
            if idx < state.resize_observers.len() {
                let ghost before = state.resize_observers@;
                state.resize_observers[idx].clear();
                proof {
                    assert(nested(state.resize_observers@) =~= emptied(nested(before), idx as int));
                }
            }
        },
    }
}

/// What the layout makes of a node: how much of it is in view, and its size.
#[derive(Clone, Copy)]
pub struct LaidOut {
    pub node: NodeId,
    pub sight: Sight,
    pub extent: Extent,
}

/// Whether a box is the node's.
pub open spec fn box_for(n: NodeId) -> spec_fn(LaidOut) -> bool {
    |b: LaidOut| b.node == n
}

/// The first box of a node.
pub open spec fn box_of(boxes: Seq<LaidOut>, n: NodeId) -> Option<LaidOut> {
    let i = pairs::position(boxes, box_for(n));
    if i < boxes.len() {
        Some(boxes[i])
    } else {
        None
    }
}

fn find_box(boxes: &Vec<LaidOut>, n: NodeId) -> (r: Option<LaidOut>)
    ensures
        r == box_of(boxes@, n),
{
    let ghost p = box_for(n);
    let mut i: usize = 0;
    while i < boxes.len()
        invariant
            i <= boxes@.len(),
            p == box_for(n),
            forall|j: int| 0 <= j < i ==> !p(#[trigger] boxes@[j]),
        decreases boxes@.len() - i,
    {
        if boxes[i].node.raw == n.raw {
            proof {
                assert(boxes@[i as int].node == n);
                pairs::lemma_position(boxes@, p, i as int);
            }
            return Some(boxes[i]);
        }
        i = i + 1;
    }
    proof {
        pairs::lemma_position(boxes@, p, i as int);
    }
    None
}

/// Whether a threshold lies between two ratios: one is below it and the other is not.
pub open spec fn crosses(thresholds: Seq<u64>, a: u64, b: u64) -> bool {
    exists|i: int|
        0 <= i < thresholds.len() && (a < #[trigger] thresholds[i]) != (b < thresholds[i])
}

fn is_crossed(thresholds: &Vec<u64>, a: u64, b: u64) -> (r: bool)
    ensures
        r == crosses(thresholds@, a, b),
{
    let mut i: usize = 0;
    while i < thresholds.len()
        invariant
            i <= thresholds@.len(),
            forall|j: int|
                0 <= j < i ==> (a < #[trigger] thresholds@[j]) == (b < thresholds@[j]),
        decreases thresholds@.len() - i,
    {
        let t = thresholds[i];
        if (a < t) != (b < t) {
            proof {
                assert((a < thresholds@[i as int]) != (b < thresholds@[i as int]));
            }
            return true;
        }
        i = i + 1;
    }
    false
}

/// Whether an observer is called back for a target: it came into view or left it, or as much more
/// or less of it is in view as to cross a threshold.
pub open spec fn seen_otherwise(thresholds: Seq<u64>, boxes: Seq<LaidOut>) -> spec_fn(
    (NodeId, Sight),
) -> bool {
    |p: (NodeId, Sight)|
        match box_of(boxes, p.0) {
            Some(b) => b.sight.intersecting != p.1.intersecting || crosses(
                thresholds,
                p.1.ratio,
                b.sight.ratio,
            ),
            None => false,
        }
}

/// Whether an observer is called back for a target: its size is another.
pub open spec fn sized_otherwise(boxes: Seq<LaidOut>) -> spec_fn((NodeId, Extent)) -> bool {
    |p: (NodeId, Extent)|
        match box_of(boxes, p.0) {
            Some(b) => b.extent != p.1,
            None => false,
        }
}

/// The observer once it was told what the layout changed for its targets.
pub open spec fn told_sights(e: IntersectionView, boxes: Seq<LaidOut>) -> IntersectionView {
    let due = seen_otherwise(e.thresholds, boxes);
    IntersectionView {
        targets: e.targets.map_values(
            |p: (NodeId, Sight)|
                if due(p) {
                    (p.0, box_of(boxes, p.0)->0.sight)
                } else {
                    p
                },
        ),
        ..e
    }
}

/// The targets of an observer once it was told what the layout changed for them.
pub open spec fn told_extents(v: Seq<(NodeId, Extent)>, boxes: Seq<LaidOut>) -> Seq<
    (NodeId, Extent),
> {
    v.map_values(
        |p: (NodeId, Extent)|
            if sized_otherwise(boxes)(p) {
                (p.0, box_of(boxes, p.0)->0.extent)
            } else {
                p
            },
    )
}

/// The nodes of targets.
pub open spec fn nodes_of<S>(v: Seq<(NodeId, S)>) -> Seq<NodeId> {
    v.map_values(|p: (NodeId, S)| p.0)
}

fn tell_sights(e: &mut IntersectionObserver, boxes: &Vec<LaidOut>) -> (r: Vec<NodeId>)
    ensures
        final(e)@ == told_sights(old(e)@, boxes@),
        r@ == nodes_of(old(e)@.targets.filter(seen_otherwise(old(e)@.thresholds, boxes@))),
{
    let ghost before = e@;
    let ghost due = seen_otherwise(before.thresholds, boxes@);
    let mut out: Vec<NodeId> = Vec::new();
    let mut i: usize = 0;
    proof {
        reveal(Seq::filter);
        assert(before.targets.take(0).filter(due) =~= Seq::empty());
        assert(out@ =~= nodes_of(before.targets.take(0).filter(due)));
    }
    while i < e.targets.len()
        invariant
            i <= e.targets@.len(),
            e.targets@.len() == before.targets.len(),
            e.thresholds@ == before.thresholds,
            due == seen_otherwise(before.thresholds, boxes@),
            forall|j: int|
                0 <= j < i ==> #[trigger] e.targets@[j] == told_sights(before, boxes@).targets[j],
            forall|j: int| i <= j < e.targets@.len() ==> #[trigger] e.targets@[j] == before.targets[j],
            out@ == nodes_of(before.targets.take(i as int).filter(due)),
        decreases e.targets@.len() - i,
    {
        let ghost done = before.targets.take(i as int).filter(due);
        proof {
            reveal(Seq::filter);
            assert(before.targets.take(i + 1).drop_last() =~= before.targets.take(i as int));
            assert(before.targets.take(i + 1).last() == before.targets[i as int]);
        }
        let (n, last) = e.targets[i];
        if let Some(b) = find_box(boxes, n) {
            if b.sight.intersecting != last.intersecting || is_crossed(
                &e.thresholds,
                last.ratio,
                b.sight.ratio,
            ) {
                e.targets.set(i, (n, b.sight));
                out.push(n);
                proof {
                    assert(nodes_of(done.push(before.targets[i as int])) =~= nodes_of(done).push(n));
                }
            }
        }
        i = i + 1;
    }
    proof {
        assert(before.targets.take(before.targets.len() as int) =~= before.targets);
        assert(e.targets@ =~= told_sights(before, boxes@).targets);
    }
    out
}

fn tell_extents(v: &mut Vec<(NodeId, Extent)>, boxes: &Vec<LaidOut>) -> (r: Vec<NodeId>)
    ensures
        final(v)@ == told_extents(old(v)@, boxes@),
        r@ == nodes_of(old(v)@.filter(sized_otherwise(boxes@))),
{
    let ghost before = v@;
    let ghost due = sized_otherwise(boxes@);
    let mut out: Vec<NodeId> = Vec::new();
    let mut i: usize = 0;
    proof {
        reveal(Seq::filter);
        assert(before.take(0).filter(due) =~= Seq::empty());
        assert(out@ =~= nodes_of(before.take(0).filter(due)));
    }
    while i < v.len()
        invariant
            i <= v@.len(),
            v@.len() == before.len(),
            due == sized_otherwise(boxes@),
            forall|j: int| 0 <= j < i ==> #[trigger] v@[j] == told_extents(before, boxes@)[j],
            forall|j: int| i <= j < v@.len() ==> #[trigger] v@[j] == before[j],
            out@ == nodes_of(before.take(i as int).filter(due)),
        decreases v@.len() - i,
    {
        let ghost done = before.take(i as int).filter(due);
        proof {
            reveal(Seq::filter);
            assert(before.take(i + 1).drop_last() =~= before.take(i as int));
            assert(before.take(i + 1).last() == before[i as int]);
        }
        let (n, last) = v[i];
        if let Some(b) = find_box(boxes, n) {
            if b.extent != last {
                v.set(i, (n, b.extent));
                out.push(n);
                proof {
                    assert(nodes_of(done.push(before[i as int])) =~= nodes_of(done).push(n));
                }
            }
        }
        i = i + 1;
    }
    proof {
        assert(before.take(before.len() as int) =~= before);
        assert(v@ =~= told_extents(before, boxes@));
    }
    out
}

/// For each observer, by its place, the targets that it is called back for.
pub struct LayoutNotices {
    pub intersections: Vec<Vec<NodeId>>,
    pub resizes: Vec<Vec<NodeId>>,
}

/// The observers once they were told what the layout changed for their targets.
pub open spec fn told(o: ObserversView, boxes: Seq<LaidOut>) -> ObserversView {
    ObserversView {
        intersection_observers: o.intersection_observers.map_values(
            |e: IntersectionView| told_sights(e, boxes),
        ),
        resize_observers: o.resize_observers.map_values(
            |v: Seq<(NodeId, Extent)>| told_extents(v, boxes),
        ),
        ..o
    }
}

/// For each intersection observer, the targets that it is called back for.
pub open spec fn sight_notices(o: ObserversView, boxes: Seq<LaidOut>) -> Seq<Seq<NodeId>> {
    o.intersection_observers.map_values(
        |e: IntersectionView| nodes_of(e.targets.filter(seen_otherwise(e.thresholds, boxes))),
    )
}

/// For each resize observer, the targets that it is called back for.
pub open spec fn extent_notices(o: ObserversView, boxes: Seq<LaidOut>) -> Seq<Seq<NodeId>> {
    o.resize_observers.map_values(
        |v: Seq<(NodeId, Extent)>| nodes_of(v.filter(sized_otherwise(boxes))),
    )
}

/// Tells the observers of a new layout, and gives the targets that each of them is called back
/// for.
pub fn tick_layout_observers(slot: &mut Option<ObserverState>, boxes: &Vec<LaidOut>) -> (r:
    LayoutNotices)
    ensures
        match slot_view(*old(slot)) {
            None => {
                &&& slot_view(*final(slot)) is None
                &&& r.intersections@.len() == 0
                &&& r.resizes@.len() == 0
            },
            Some(o) => {
                &&& slot_view(*final(slot)) == Some(told(o, boxes@))
                &&& nested(r.intersections@) == sight_notices(o, boxes@)
                &&& nested(r.resizes@) == extent_notices(o, boxes@)
            },
        },
{
    let mut sights: Vec<Vec<NodeId>> = Vec::new();
    let mut extents: Vec<Vec<NodeId>> = Vec::new();
    match slot {
        None => {},
        Some(state) => {
            let ghost o = state@;
            let ghost before = state.intersection_observers@;
            let ghost lists = state.resize_observers@;
            let mut i: usize = 0;
            while i < state.intersection_observers.len()
                invariant
                    i <= state.intersection_observers@.len(),
                    state.intersection_observers@.len() == before.len(),
                    o == (ObserversView {
                        intersection_observers: intersections(before),
                        ..state@
                    }),
                    state.resize_observers@ == lists,
                    sights@.len() == i,
                    forall|j: int|
                        0 <= j < i ==> (#[trigger] state.intersection_observers@[j])@
                            == told_sights(before[j]@, boxes@),
                    forall|j: int|
                        i <= j < before.len() ==> #[trigger] state.intersection_observers@[j]
                            == before[j],
                    forall|j: int|
                        0 <= j < i ==> (#[trigger] sights@[j])@ == sight_notices(o, boxes@)[j],
                decreases state.intersection_observers@.len() - i,
            {
                let due = tell_sights(&mut state.intersection_observers[i], boxes);
                sights.push(due);
                i = i + 1;
            }
            proof {
                assert(intersections(state.intersection_observers@) =~= told(
                    o,
                    boxes@,
                ).intersection_observers);
            }
            let ghost half = state@;
            let mut k: usize = 0;
            while k < state.resize_observers.len()
                invariant
                    k <= state.resize_observers@.len(),
                    state.resize_observers@.len() == lists.len(),
                    half == (ObserversView { resize_observers: nested(lists), ..state@ }),
                    o.resize_observers == nested(lists),
                    extents@.len() == k,
                    forall|j: int|
                        0 <= j < k ==> (#[trigger] state.resize_observers@[j])@ == told_extents(
                            lists[j]@,
                            boxes@,
                        ),
                    forall|j: int|
                        k <= j < lists.len() ==> #[trigger] state.resize_observers@[j] == lists[j],
                    forall|j: int|
                        0 <= j < k ==> (#[trigger] extents@[j])@ == extent_notices(o, boxes@)[j],
                decreases state.resize_observers@.len() - k,
            {
                let due = tell_extents(&mut state.resize_observers[k], boxes);
                extents.push(due);
                k = k + 1;
            }
            proof {
                assert(nested(state.resize_observers@) =~= told(o, boxes@).resize_observers);
                assert(nested(sights@) =~= sight_notices(o, boxes@));
                assert(nested(extents@) =~= extent_notices(o, boxes@));
            }
        },
    }
    LayoutNotices { intersections: sights, resizes: extents }
}

proof fn lemma_filter_none<T>(v: Seq<T>, p: spec_fn(T) -> bool)
    requires
        forall|i: int| 0 <= i < v.len() ==> !p(#[trigger] v[i]),
    ensures
        v.filter(p) == Seq::<T>::empty(),
    decreases v.len(),
{
    reveal(Seq::filter);
    if v.len() > 0 {
        lemma_filter_none(v.drop_last(), p);
    }
}

/// A layout is told once: where it stays as it is, no observer is called back again.
pub proof fn same_layout_is_told_once(o: ObserversView, boxes: Seq<LaidOut>)
    ensures
        told(told(o, boxes), boxes) == told(o, boxes),
        forall|i: int|
            0 <= i < o.intersection_observers.len() ==> #[trigger] sight_notices(
                told(o, boxes),
                boxes,
            )[i] == Seq::<NodeId>::empty(),
        forall|i: int|
            0 <= i < o.resize_observers.len() ==> #[trigger] extent_notices(
                told(o, boxes),
                boxes,
            )[i] == Seq::<NodeId>::empty(),
{
    let once = told(o, boxes);
    assert forall|i: int| 0 <= i < o.intersection_observers.len() implies #[trigger] sight_notices(
        once,
        boxes,
    )[i] == Seq::<NodeId>::empty() && told_sights(once.intersection_observers[i], boxes)
        == once.intersection_observers[i] by {
        let e = once.intersection_observers[i];
        let due = seen_otherwise(e.thresholds, boxes);
        assert forall|j: int| 0 <= j < e.targets.len() implies !due(#[trigger] e.targets[j]) by {
            let first = o.intersection_observers[i].targets[j];
            assert(e.targets[j].0 == first.0);
        }
        lemma_filter_none(e.targets, due);
        assert(told_sights(e, boxes).targets =~= e.targets);
        assert(nodes_of(e.targets.filter(due)) =~= Seq::empty());
    }
    assert forall|i: int| 0 <= i < o.resize_observers.len() implies #[trigger] extent_notices(
        once,
        boxes,
    )[i] == Seq::<NodeId>::empty() && told_extents(once.resize_observers[i], boxes)
        == once.resize_observers[i] by {
        let v = once.resize_observers[i];
        let due = sized_otherwise(boxes);
        assert forall|j: int| 0 <= j < v.len() implies !due(#[trigger] v[j]) by {
            let first = o.resize_observers[i][j];
            assert(v[j].0 == first.0);
        }
        lemma_filter_none(v, due);
        assert(told_extents(v, boxes) =~= v);
        assert(nodes_of(v.filter(due)) =~= Seq::empty());
    }
    assert forall|i: int| 0 <= i < o.intersection_observers.len() implies told(
        once,
        boxes,
    ).intersection_observers[i] == once.intersection_observers[i] by {
        assert(sight_notices(once, boxes)[i] == Seq::<NodeId>::empty());
    }
    assert forall|i: int| 0 <= i < o.resize_observers.len() implies told(
        once,
        boxes,
    ).resize_observers[i] == once.resize_observers[i] by {
        assert(extent_notices(once, boxes)[i] == Seq::<NodeId>::empty());
    }
    assert(told(once, boxes).intersection_observers =~= once.intersection_observers);
    assert(told(once, boxes).resize_observers =~= once.resize_observers);
}

/// The name of a kind of mutation, as records show it.
pub open spec fn kind_name(k: MutationKind) -> Seq<char> {
    match k {
        MutationKind::Attributes => "attributes"@,
        MutationKind::CharacterData => "characterData"@,
        MutationKind::ChildList => "childList"@,
    }
}

/// The name of a kind of mutation, as records show it.
pub fn mutation_type(k: MutationKind) -> (r: String)
    ensures
        r@ == kind_name(k),
{
    match k {
        MutationKind::Attributes => text::copy("attributes"),
        MutationKind::CharacterData => text::copy("characterData"),
        MutationKind::ChildList => text::copy("childList"),
    }
}

/// An observer that takes in the subtree of any node is told of every mutation of a kind that
/// it asked for, whatever its target.
pub proof fn subtree_watch_misses_nothing(w: MutationWatch, r: RecordView)
    requires
        w.subtree,
        match r.kind {
            MutationKind::Attributes => w.attributes,
            MutationKind::CharacterData => w.character_data,
            MutationKind::ChildList => w.child_list,
        },
    ensures
        wanted_by(seq![w])(r),
{
    assert(wants(seq![w][0], r));
}

/// A disconnected observer is handed nothing.
pub proof fn disconnected_gets_nothing(observers: Seq<Seq<MutationWatch>>, pending: Seq<RecordView>, idx: int, n: int)
    requires
        0 <= idx < observers.len(),
        0 <= n <= observers.len(),
    ensures
        forall|k: int|
            0 <= k < batches(emptied(observers, idx), pending, n).len() ==> (
            #[trigger] batches(emptied(observers, idx), pending, n)[k]).0 != idx,
    decreases n,
{
    if n > 0 {
        let o = emptied(observers, idx);
        disconnected_gets_nothing(observers, pending, idx, n - 1);
        if n - 1 == idx {
            let p = wanted_by(o[n - 1]);
            lemma_filter_none(pending, p);
        }
        let b = batches(o, pending, n);
        assert forall|k: int| 0 <= k < b.len() implies (#[trigger] b[k]).0 != idx by {
            let before = batches(o, pending, n - 1);
            if k < before.len() {
                assert(b[k] == before[k]);
            }
        }
    }
}

/// A mutation is told to who asked for its kind, at its target or anywhere below the document where
/// the subtree was asked for, and to nobody else.
pub proof fn watches_ask_for_their_kinds(w: MutationWatch, r: RecordView)
    ensures
        wants(w, r) ==> w.subtree || w.target == r.target,
        w.subtree || w.target == r.target ==> {
            &&& r.kind == MutationKind::Attributes ==> (wants(w, r) <==> w.attributes)
            &&& r.kind == MutationKind::CharacterData ==> (wants(w, r) <==> w.character_data)
            &&& r.kind == MutationKind::ChildList ==> (wants(w, r) <==> w.child_list)
        },
{
}

/// Each observer is handed one batch, with all the mutations that one of its watches asked for and
/// nothing else, unless there is none; the batches are in the order of the observers.
pub proof fn batches_hold_what_was_asked(
    observers: Seq<Seq<MutationWatch>>,
    pending: Seq<RecordView>,
    n: int,
    i: int,
    r: RecordView,
)
    requires
        0 <= i < n <= observers.len(),
    ensures
        batches(observers, pending, n).contains((i, pending.filter(wanted_by(observers[i]))))
            <==> pending.filter(wanted_by(observers[i])).len() > 0,
        pending.filter(wanted_by(observers[i])).contains(r) <==> pending.contains(r) && exists|k: int|
            0 <= k < observers[i].len() && wants(#[trigger] observers[i][k], r),
        forall|k: int|
            0 <= k < batches(observers, pending, n).len() ==> {
                let b = #[trigger] batches(observers, pending, n)[k];
                0 <= b.0 < n && b.1.len() > 0 && b.1 == pending.filter(wanted_by(observers[b.0]))
            },
        forall|j: int, k: int|
            0 <= j < k < batches(observers, pending, n).len() ==> (#[trigger] batches(
                observers,
                pending,
                n,
            )[j]).0 < (#[trigger] batches(observers, pending, n)[k]).0,
    decreases n,
{
    lemma_batches_form(observers, pending, n);
    let p = wanted_by(observers[i]);
    let mine = pending.filter(p);
    if mine.contains(r) {
        pending.lemma_filter_pred(p, mine.index_of(r));
        pending.lemma_filter_contains_rev(p, r);
    }
    if pending.contains(r) && p(r) {
        pending.lemma_filter_contains(p, pending.index_of(r));
    }
    let v = batches(observers, pending, n);
    if v.contains((i, mine)) {
        let k = v.index_of((i, mine));
        assert(v[k].1.len() > 0);
    }
    if mine.len() > 0 {
        lemma_batch_there(observers, pending, n, i);
    }
}

proof fn lemma_batches_form(
    observers: Seq<Seq<MutationWatch>>,
    pending: Seq<RecordView>,
    n: int,
)
    requires
        0 <= n <= observers.len(),
    ensures
        forall|k: int|
            0 <= k < batches(observers, pending, n).len() ==> {
                let b = #[trigger] batches(observers, pending, n)[k];
                0 <= b.0 < n && b.1.len() > 0 && b.1 == pending.filter(wanted_by(observers[b.0]))
            },
        forall|j: int, k: int|
            0 <= j < k < batches(observers, pending, n).len() ==> (#[trigger] batches(
                observers,
                pending,
                n,
            )[j]).0 < (#[trigger] batches(observers, pending, n)[k]).0,
    decreases n,
{
    if n > 0 {
        lemma_batches_form(observers, pending, n - 1);
        let u = batches(observers, pending, n - 1);
        let v = batches(observers, pending, n);
        assert forall|k: int| 0 <= k < v.len() implies {
            let b = #[trigger] v[k];
            0 <= b.0 < n && b.1.len() > 0 && b.1 == pending.filter(wanted_by(observers[b.0]))
        } by {
            if k < u.len() {
                assert(v[k] == u[k]);
            }
        }
        assert forall|j: int, k: int| 0 <= j < k < v.len() implies (#[trigger] v[j]).0 < (
        #[trigger] v[k]).0 by {
            assert(v[j] == u[j]);
            if k < u.len() {
                assert(v[k] == u[k]);
            }
        }
    }
}

proof fn lemma_batch_there(
    observers: Seq<Seq<MutationWatch>>,
    pending: Seq<RecordView>,
    n: int,
    i: int,
)
    requires
        0 <= i < n <= observers.len(),
        pending.filter(wanted_by(observers[i])).len() > 0,
    ensures
        batches(observers, pending, n).contains((i, pending.filter(wanted_by(observers[i])))),
    decreases n,
{
    let b = (i, pending.filter(wanted_by(observers[i])));
    let v = batches(observers, pending, n);
    let u = batches(observers, pending, n - 1);
    if i == n - 1 {
        assert(v[u.len() as int] == b);
    } else {
        lemma_batch_there(observers, pending, n - 1, i);
        assert(v[u.index_of(b)] == b);
    }
}

/// A call that names kinds of mutations asks for these, and one that names none for all.
pub proof fn calls_ask_for_what_they_name(
    target: NodeId,
    attributes: bool,
    child_list: bool,
    character_data: bool,
    subtree: bool,
    r: RecordView,
)
    ensures
        ({
            let w = watch_of(target, attributes, child_list, character_data, subtree);
            &&& w.target == target
            &&& w.subtree == subtree
            &&& attributes || child_list || character_data ==> w.attributes == attributes
                && w.child_list == child_list && w.character_data == character_data
            &&& !attributes && !child_list && !character_data ==> (wants(w, r) <==> subtree
                || r.target == target)
        }),
{
}

/// Changing the list of one observer changes that one alone, and that of none where there is no such
/// observer.
pub proof fn lists_change_alone<T>(v: Seq<Seq<T>>, idx: int, item: T, w: Seq<T>, i: int)
    requires
        0 <= i < v.len(),
    ensures
        with_item(v, idx, item).len() == v.len(),
        emptied(v, idx).len() == v.len(),
        replaced(v, idx, w).len() == v.len(),
        i == idx ==> with_item(v, idx, item)[i] == v[i].push(item),
        i == idx ==> emptied(v, idx)[i].len() == 0,
        i == idx ==> replaced(v, idx, w)[i] == w,
        i != idx ==> with_item(v, idx, item)[i] == v[i],
        i != idx ==> emptied(v, idx)[i] == v[i],
        i != idx ==> replaced(v, idx, w)[i] == v[i],
{
}

/// A node that is told of is a target with what was told, and the other targets stay as they are; a
/// node is never a target twice.
pub proof fn targets_are_kept_once<S>(
    v: Seq<(NodeId, S)>,
    n: NodeId,
    s: S,
    m: NodeId,
    x: S,
)
    requires
        forall|i: int, j: int|
            #![trigger v[i], v[j]]
            0 <= i < j < v.len() ==> v[i].0 != v[j].0,
    ensures
        ({
            let w = with_target(v, n, s);
            &&& w.contains((n, s))
            &&& m != n ==> (w.contains((m, x)) <==> v.contains((m, x)))
            &&& forall|i: int, j: int|
                #![trigger w[i], w[j]]
                0 <= i < j < w.len() ==> w[i].0 != w[j].0
        }),
{
    let p = of_node::<S>(n);
    pairs::lemma_position_holds(v, p);
    let i = pairs::position(v, p);
    let w = with_target(v, n, s);
    if i < v.len() {
        assert(w[i] == (n, s));
        assert(v[i].0 == n);
    } else {
        assert(w[v.len() as int] == (n, s));
        assert forall|j: int| 0 <= j < v.len() implies (#[trigger] v[j]).0 != n by {
            assert(!p(v[j]));
        }
    }
    if m != n {
        if w.contains((m, x)) {
            let k = w.index_of((m, x));
            assert(v[k] == (m, x));
        }
        if v.contains((m, x)) {
            let k = v.index_of((m, x));
            assert(w[k] == (m, x));
        }
    }
}

/// A threshold is crossed where one of two ratios reaches it and the other does not, whichever of the
/// two comes first; two equal ratios cross none.
pub proof fn thresholds_are_crossed(thresholds: Seq<u64>, a: u64, b: u64, i: int)
    requires
        0 <= i < thresholds.len(),
    ensures
        crosses(thresholds, a, b) == crosses(thresholds, b, a),
        !crosses(thresholds, a, a),
        a < thresholds[i] && thresholds[i] <= b ==> crosses(thresholds, a, b),
        (forall|j: int|
            0 <= j < thresholds.len() ==> (a < #[trigger] thresholds[j] && b < thresholds[j]) || (
            thresholds[j] <= a && thresholds[j] <= b)) ==> !crosses(thresholds, a, b),
{
    if a < thresholds[i] && thresholds[i] <= b {
        assert((a < thresholds[i]) != (b < thresholds[i]));
    }
    if crosses(thresholds, a, b) {
        let j = choose|j: int|
            0 <= j < thresholds.len() && (a < #[trigger] thresholds[j]) != (b < thresholds[j]);
        assert((b < thresholds[j]) != (a < thresholds[j]));
    }
    if crosses(thresholds, b, a) {
        let j = choose|j: int|
            0 <= j < thresholds.len() && (b < #[trigger] thresholds[j]) != (a < thresholds[j]);
        assert((a < thresholds[j]) != (b < thresholds[j]));
    }
}

/// An observer's thresholds are never none. Each is one of those that were given and no more than the
/// whole, or else it is zero; each that was given and can be is among them; and they go up.
pub proof fn thresholds_are_those_given(v: Seq<u64>, given: Seq<u64>, x: u64)
    requires
        are_thresholds(v, given),
    ensures
        v.len() > 0,
        given.contains(x) && x <= WHOLE ==> v.contains(x),
        v.contains(x) && x > 0 ==> given.contains(x),
        v.contains(x) ==> x <= WHOLE,
        given.len() == 0 ==> v == seq![0u64],
        forall|i: int, j: int| #![trigger v[i], v[j]] 0 <= i < j < v.len() ==> v[i] < v[j],
{
    if exists|y: u64| #[trigger] is_given(given, y) {
        let y = choose|y: u64| #[trigger] is_given(given, y);
        assert(v.contains(y));
        assert(v.contains(x) <==> is_given(given, x));
    } else {
        assert(!is_given(given, x));
        if v.contains(x) {
            let k = v.index_of(x);
            assert(v[k] == 0);
        }
    }
}

/// An observer of sights is called back for a target that came into view or left it, or of which so
/// much more or less is in view; one of sizes for a target whose size is another. A target without a
/// box is not told of.
pub proof fn layouts_are_told(
    thresholds: Seq<u64>,
    boxes: Seq<LaidOut>,
    i: int,
    s: Sight,
    e: Extent,
)
    requires
        0 <= i < boxes.len(),
        forall|j: int| 0 <= j < i ==> (#[trigger] boxes[j]).node != boxes[i].node,
    ensures
        box_of(boxes, boxes[i].node) == Some(boxes[i]),
        seen_otherwise(thresholds, boxes)((boxes[i].node, s)) <==> s.intersecting
            != boxes[i].sight.intersecting || crosses(thresholds, s.ratio, boxes[i].sight.ratio),
        sized_otherwise(boxes)((boxes[i].node, e)) <==> e != boxes[i].extent,
        forall|n: NodeId|
            (forall|j: int| 0 <= j < boxes.len() ==> (#[trigger] boxes[j]).node != n) ==> (
            #[trigger] box_of(boxes, n)) is None && !seen_otherwise(thresholds, boxes)((n, s))
                && !sized_otherwise(boxes)((n, e)),
{
    let p = box_for(boxes[i].node);
    pairs::lemma_position(boxes, p, i);
    assert forall|n: NodeId|
        (forall|j: int| 0 <= j < boxes.len() ==> (#[trigger] boxes[j]).node != n) implies (
    #[trigger] box_of(boxes, n)) is None && !seen_otherwise(thresholds, boxes)((n, s))
        && !sized_otherwise(boxes)((n, e)) by {
        pairs::lemma_position_holds(boxes, box_for(n));
    }
}

/// Once told, an observer knows what the layout makes of the targets that it was called back for, and
/// knows of the others what it knew.
pub proof fn told_observers_know(
    e: IntersectionView,
    v: Seq<(NodeId, Extent)>,
    boxes: Seq<LaidOut>,
    i: int,
    j: int,
)
    requires
        0 <= i < e.targets.len(),
        0 <= j < v.len(),
    ensures
        told_sights(e, boxes).thresholds == e.thresholds,
        told_sights(e, boxes).targets.len() == e.targets.len(),
        told_sights(e, boxes).targets[i].0 == e.targets[i].0,
        seen_otherwise(e.thresholds, boxes)(e.targets[i]) ==> (box_of(boxes, e.targets[i].0)
            matches Some(b) && told_sights(e, boxes).targets[i].1 == b.sight),
        !seen_otherwise(e.thresholds, boxes)(e.targets[i]) ==> told_sights(e, boxes).targets[i]
            == e.targets[i],
        told_extents(v, boxes).len() == v.len(),
        told_extents(v, boxes)[j].0 == v[j].0,
        box_of(boxes, v[j].0) matches Some(b) ==> told_extents(v, boxes)[j].1 == b.extent,
        box_of(boxes, v[j].0) is None ==> told_extents(v, boxes)[j] == v[j],
{
}

/// An observer is called back for just the targets that the layout changed something for.
pub proof fn changed_targets_are_noticed(
    o: ObserversView,
    boxes: Seq<LaidOut>,
    i: int,
    j: int,
    n: NodeId,
)
    requires
        0 <= i < o.intersection_observers.len(),
        0 <= j < o.resize_observers.len(),
    ensures
        sight_notices(o, boxes).len() == o.intersection_observers.len(),
        extent_notices(o, boxes).len() == o.resize_observers.len(),
        sight_notices(o, boxes)[i].contains(n) <==> exists|p: (NodeId, Sight)|
            #[trigger] o.intersection_observers[i].targets.contains(p) && p.0 == n
                && seen_otherwise(o.intersection_observers[i].thresholds, boxes)(p),
        extent_notices(o, boxes)[j].contains(n) <==> exists|p: (NodeId, Extent)|
            #[trigger] o.resize_observers[j].contains(p) && p.0 == n && sized_otherwise(boxes)(p),
{
    let e = o.intersection_observers[i];
    lemma_nodes_kept(e.targets, seen_otherwise(e.thresholds, boxes), n);
    lemma_nodes_kept(o.resize_observers[j], sized_otherwise(boxes), n);
}

proof fn lemma_nodes_kept<S>(v: Seq<(NodeId, S)>, f: spec_fn((NodeId, S)) -> bool, n: NodeId)
    ensures
        nodes_of(v.filter(f)).contains(n) <==> exists|p: (NodeId, S)|
            #[trigger] v.contains(p) && p.0 == n && f(p),
{
    let w = v.filter(f);
    let u = nodes_of(w);
    if u.contains(n) {
        let k = u.index_of(n);
        assert(w[k].0 == n);
        v.lemma_filter_pred(f, k);
        assert(w.contains(w[k]));
        v.lemma_filter_contains_rev(f, w[k]);
        assert(v.contains(w[k]));
    }
    if exists|p: (NodeId, S)| #[trigger] v.contains(p) && p.0 == n && f(p) {
        let p = choose|p: (NodeId, S)| #[trigger] v.contains(p) && p.0 == n && f(p);
        v.lemma_filter_contains(f, v.index_of(p));
        let k = w.index_of(p);
        assert(u[k] == n);
    }
}

/// A mutation that is recorded comes behind those that wait, and changes nothing else; where nobody
/// observes, nothing is recorded. The kinds have names of their own.
pub proof fn mutations_wait_in_order(o: ObserversView, r: RecordView)
    ensures
        recorded(None, r) is None,
        recorded(Some(o), r) matches Some(u) && u.pending == o.pending.push(r)
            && u.mutation_observers == o.mutation_observers && u.intersection_observers
            == o.intersection_observers && u.resize_observers == o.resize_observers,
        kind_name(MutationKind::Attributes) == "attributes"@,
        kind_name(MutationKind::CharacterData) == "characterData"@,
        kind_name(MutationKind::ChildList) == "childList"@,
{
}

/// Giving one observer other targets leaves its thresholds and all other observers as they are; a node
/// that is no longer observed is no target, and all others still are.
pub proof fn targets_change_alone(
    v: Seq<IntersectionView>,
    idx: int,
    targets: Seq<(NodeId, Sight)>,
    i: int,
    n: NodeId,
    p: (NodeId, Sight),
)
    requires
        0 <= i < v.len(),
    ensures
        with_targets(v, idx, targets).len() == v.len(),
        i == idx ==> with_targets(v, idx, targets)[i].targets == targets,
        with_targets(v, idx, targets)[i].thresholds == v[i].thresholds,
        i != idx ==> with_targets(v, idx, targets)[i] == v[i],
        targets.filter(other_than(n)).contains(p) <==> targets.contains(p) && p.0 != n,
{
    let f = other_than::<Sight>(n);
    if targets.filter(f).contains(p) {
        targets.lemma_filter_pred(f, targets.filter(f).index_of(p));
        targets.lemma_filter_contains_rev(f, p);
    }
    if targets.contains(p) && p.0 != n {
        targets.lemma_filter_contains(f, targets.index_of(p));
    }
}

} // verus!
