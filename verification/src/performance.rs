//! The timeline of a page: marks and measures, who watches them, and where a measure begins and
//! ends. Times are of any type, for the timeline itself does not reckon with them.
use crate::pairs;
use crate::text;
use vstd::prelude::*;
use vstd::string::*;

verus! {

/// An entry of the timeline.
pub struct PerformanceEntry<N> {
    pub name: String,
    pub entry_type: String,
    pub start_time_ms: N,
    pub duration_ms: N,
}

/// An entry over plain values.
pub struct EntryView<N> {
    pub name: Seq<char>,
    pub entry_type: Seq<char>,
    pub start: N,
    pub duration: N,
}

impl<N> View for PerformanceEntry<N> {
    type V = EntryView<N>;

    open spec fn view(&self) -> EntryView<N> {
        EntryView {
            name: self.name@,
            entry_type: self.entry_type@,
            start: self.start_time_ms,
            duration: self.duration_ms,
        }
    }
}

/// The plain values of entries.
pub open spec fn entries_view<N>(v: Seq<PerformanceEntry<N>>) -> Seq<EntryView<N>> {
    v.map_values(|e: PerformanceEntry<N>| e@)
}

/// A watcher: its callback, and the types of entries that it is told of.
pub struct ObserverEntry<C> {
    pub callback: C,
    pub types: Vec<String>,
}

/// A watcher over plain values.
pub ghost struct ObserverView<C> {
    pub callback: C,
    pub types: Seq<Seq<char>>,
}

impl<C> View for ObserverEntry<C> {
    type V = ObserverView<C>;

    open spec fn view(&self) -> ObserverView<C> {
        ObserverView { callback: self.callback, types: text::texts(self.types@) }
    }
}

/// The plain values of watchers.
pub open spec fn observers_view<C>(v: Seq<ObserverEntry<C>>) -> Seq<ObserverView<C>> {
    v.map_values(|o: ObserverEntry<C>| o@)
}

/// A call to a watcher that is still to be made, with the entries it is told of.
pub struct DeferredObserve<C, N> {
    pub callback: C,
    pub entries: Vec<PerformanceEntry<N>>,
}

/// The plain values of calls.
pub open spec fn calls_view<C, N>(v: Seq<DeferredObserve<C, N>>) -> Seq<(C, Seq<EntryView<N>>)> {
    v.map_values(|d: DeferredObserve<C, N>| (d.callback, entries_view(d.entries@)))
}

/// The timeline of a page, its watchers, and the calls that are still to be made.
pub struct Timeline<C, N> {
    pub entries: Vec<PerformanceEntry<N>>,
    pub observers: Vec<ObserverEntry<C>>,
    pub queue: Vec<DeferredObserve<C, N>>,
}

/// A timeline over plain values.
pub ghost struct TimelineView<C, N> {
    pub entries: Seq<EntryView<N>>,
    pub observers: Seq<ObserverView<C>>,
    pub queue: Seq<(C, Seq<EntryView<N>>)>,
}

impl<C, N> View for Timeline<C, N> {
    type V = TimelineView<C, N>;

    open spec fn view(&self) -> TimelineView<C, N> {
        TimelineView {
            entries: entries_view(self.entries@),
            observers: observers_view(self.observers@),
            queue: calls_view(self.queue@),
        }
    }
}

fn copy_entry<N: Copy>(e: &PerformanceEntry<N>) -> (r: PerformanceEntry<N>)
    ensures
        r@ == e@,
{
    PerformanceEntry {
        name: text::copy(&e.name),
        entry_type: text::copy(&e.entry_type),
        start_time_ms: e.start_time_ms,
        duration_ms: e.duration_ms,
    }
}

fn lists(v: &Vec<String>, word: &str) -> (r: bool)
    ensures
        r == text::texts(v@).contains(word@),
{
    let ghost t = text::texts(v@);
    let mut i: usize = 0;
    while i < v.len()
        invariant
            i <= v@.len(),
            t == text::texts(v@),
            forall|j: int| 0 <= j < i ==> #[trigger] t[j] != word@,
        decreases v@.len() - i,
    {
        proof {
            assert(t[i as int] == v@[i as int]@);
        }
        if text::same(&v[i], word) {
            return true;
        }
        i = i + 1;
    }
    false
}

/// The calls that an entry makes: one to each watcher of its type, in order.
pub open spec fn notices<C, N>(observers: Seq<ObserverView<C>>, e: EntryView<N>) -> Seq<
    (C, Seq<EntryView<N>>),
>
    decreases observers.len(),
{
    if observers.len() == 0 {
        Seq::empty()
    } else if observers.last().types.contains(e.entry_type) {
        notices(observers.drop_last(), e).push((observers.last().callback, seq![e]))
    } else {
        notices(observers.drop_last(), e)
    }
}

/// Which entries a question is for: those of a type, or with a name, or both, or all.
pub struct EntryFilter {
    pub name: Option<String>,
    pub entry_type: Option<String>,
}

/// Whether an entry answers a question.
pub open spec fn answers<N>(name: Option<Seq<char>>, ty: Option<Seq<char>>) -> spec_fn(
    EntryView<N>,
) -> bool {
    |e: EntryView<N>|
        (name is Some ==> e.name == name->0) && (ty is Some ==> e.entry_type == ty->0)
}

/// Whether an entry stays when those of a type, or of a type with a name, are cleared.
pub open spec fn survives<N>(ty: Seq<char>, name: Option<Seq<char>>) -> spec_fn(
    EntryView<N>,
) -> bool {
    |e: EntryView<N>| e.entry_type != ty || (name is Some && e.name != name->0)
}

/// Whether an entry is of one of the types.
pub open spec fn of_types<N>(types: Seq<Seq<char>>) -> spec_fn(EntryView<N>) -> bool {
    |e: EntryView<N>| types.contains(e.entry_type)
}

/// Types with more types added, each once.
pub open spec fn with_types(have: Seq<Seq<char>>, more: Seq<Seq<char>>) -> Seq<Seq<char>>
    decreases more.len(),
{
    if more.len() == 0 {
        have
    } else {
        let before = with_types(have, more.drop_last());
        if before.contains(more.last()) {
            before
        } else {
            before.push(more.last())
        }
    }
}

/// The entries of a list that answer a question, in order.
fn select_entries<N: Copy>(list: &Vec<PerformanceEntry<N>>, filter: &EntryFilter) -> (r: Vec<PerformanceEntry<N>>)
    ensures
        entries_view(r@) == entries_view(list@).filter(
            answers(text::opt_text(filter.name), text::opt_text(filter.entry_type)),
        ),
{
    let ghost t = entries_view(list@);
    let ghost keep = answers::<N>(
        text::opt_text(filter.name),
        text::opt_text(filter.entry_type),
    );
    let mut out: Vec<PerformanceEntry<N>> = Vec::new();
    let mut i: usize = 0;
    proof {
        reveal(Seq::filter);
        assert(entries_view(out@) =~= t.take(0).filter(keep));
    }
    while i < list.len()
        invariant
            i <= list@.len(),
            t == entries_view(list@),
            keep == answers::<N>(
                text::opt_text(filter.name),
                text::opt_text(filter.entry_type),
            ),
            entries_view(out@) == t.take(i as int).filter(keep),
        decreases list@.len() - i,
    {
        let ghost prev = out@;
        proof {
            reveal(Seq::filter);
            assert(t.take(i + 1).drop_last() =~= t.take(i as int));
            assert(t.take(i + 1).last() == list@[i as int]@);
        }
        let named = match &filter.name {
            Some(n) => text::same(&list[i].name, n),
            None => true,
        };
        let typed = match &filter.entry_type {
            Some(n) => text::same(&list[i].entry_type, n),
            None => true,
        };
        if named && typed {
            out.push(copy_entry(&list[i]));
            proof {
                assert(entries_view(out@) =~= entries_view(prev).push(t[i as int]));
            }
        }
        i = i + 1;
    }
    proof {
        assert(t.take(t.len() as int) =~= t);
    }
    out
}

impl<C: Copy, N: Copy> DeferredObserve<C, N> {
    /// The entries of a type that a watcher is told of.
    pub fn list_get_by_type(&self, ty: &str) -> (r: Vec<PerformanceEntry<N>>)
        ensures
            entries_view(r@) == entries_view(self.entries@).filter(answers(None, Some(ty@))),
    {
        select_entries(&self.entries, &EntryFilter { name: None, entry_type: Some(text::copy(ty)) })
    }

    /// The entries with a name that a watcher is told of.
    pub fn list_get_by_name(&self, name: &str) -> (r: Vec<PerformanceEntry<N>>)
        ensures
            entries_view(r@) == entries_view(self.entries@).filter(answers(Some(name@), None)),
    {
        select_entries(&self.entries, &EntryFilter { name: Some(text::copy(name)), entry_type: None })
    }
}

impl<C: Copy, N: Copy> Timeline<C, N> {
    /// An empty timeline.
    pub fn new() -> (r: Self)
        ensures
            r@ == (TimelineView::<C, N> {
                entries: Seq::empty(),
                observers: Seq::empty(),
                queue: Seq::empty(),
            }),
    {
        let r = Timeline { entries: Vec::new(), observers: Vec::new(), queue: Vec::new() };
        proof {
            assert(r@.entries =~= Seq::empty());
            assert(r@.observers =~= Seq::empty());
            assert(r@.queue =~= Seq::empty());
        }
        r
    }

    /// Adds an entry, and has the watchers of its type told of it.
    pub fn record_entry(&mut self, entry: PerformanceEntry<N>)
        ensures
            final(self)@ == (TimelineView {
                entries: old(self)@.entries.push(entry@),
                queue: old(self)@.queue + notices(old(self)@.observers, entry@),
                ..old(self)@
            }),
    {
        let ghost start = self@;
        let ghost e = entry@;
        let mut i: usize = 0;
        proof {
            assert(self@.queue =~= start.queue + notices(start.observers.take(0), e));
        }
        while i < self.observers.len()
            invariant
                i <= self.observers@.len(),
                e == entry@,
                self@ == (TimelineView {
                    queue: start.queue + notices(start.observers.take(i as int), e),
                    ..start
                }),
            decreases self.observers@.len() - i,
        {
            proof {
                assert(start.observers.take(i + 1).drop_last() =~= start.observers.take(i as int));
                assert(start.observers.take(i + 1).last() == self.observers@[i as int]@);
            }
            if lists(&self.observers[i].types, &entry.entry_type) {
                let mut one: Vec<PerformanceEntry<N>> = Vec::new();
                one.push(copy_entry(&entry));
                proof {
                    assert(entries_view(one@) =~= seq![e]);
                }
                let callback: C = self.observers[i].callback;
                let ghost prev = self.queue@;
                self.queue.push(DeferredObserve { callback, entries: one });
                proof {
                    assert(calls_view(self.queue@) =~= calls_view(prev).push((callback, seq![e])));
                    assert(self@.queue =~= start.queue + notices(start.observers.take(i + 1), e));
                }
            }
            i = i + 1;
        }
        let ghost before = self.entries@;
        self.entries.push(entry);
        proof {
            assert(start.observers.take(start.observers.len() as int) =~= start.observers);
            assert(entries_view(self.entries@) =~= entries_view(before).push(e));
        }
    }

    /// The entries that answer a question, in order.
    pub fn get_entries(&self, filter: &EntryFilter) -> (r: Vec<PerformanceEntry<N>>)
        ensures
            entries_view(r@) == self@.entries.filter(
                answers(text::opt_text(filter.name), text::opt_text(filter.entry_type)),
            ),
    {
        select_entries(&self.entries, filter)
    }

    /// Clears the entries of a type, or those of them with a name.
    pub fn clear_entries(&mut self, ty: &str, name: &Option<String>)
        ensures
            final(self)@ == (TimelineView {
                entries: old(self)@.entries.filter(survives(ty@, text::opt_text(*name))),
                ..old(self)@
            }),
    {
        let ghost t = self@.entries;
        let ghost keep = survives::<N>(ty@, text::opt_text(*name));
        let mut out: Vec<PerformanceEntry<N>> = Vec::new();
        let mut i: usize = 0;
        proof {
            reveal(Seq::filter);
            assert(entries_view(out@) =~= t.take(0).filter(keep));
        }
        while i < self.entries.len()
            invariant
                i <= self.entries@.len(),
                t == self@.entries,
                keep == survives::<N>(ty@, text::opt_text(*name)),
                entries_view(out@) == t.take(i as int).filter(keep),
            decreases self.entries@.len() - i,
        {
            let ghost prev = out@;
            proof {
                reveal(Seq::filter);
                assert(t.take(i + 1).drop_last() =~= t.take(i as int));
                assert(t.take(i + 1).last() == self.entries@[i as int]@);
            }
            let stays = !text::same(&self.entries[i].entry_type, ty) || match name {
                Some(n) => !text::same(&self.entries[i].name, n),
                None => false,
            };
            if stays {
                out.push(copy_entry(&self.entries[i]));
                proof {
                    assert(entries_view(out@) =~= entries_view(prev).push(t[i as int]));
                }
            }
            i = i + 1;
        }
        proof {
            assert(t.take(t.len() as int) =~= t);
        }
        self.entries = out;
    }

    /// Clears the marks, or those with a name.
    pub fn performance_clear_marks(&mut self, name: &Option<String>)
        ensures
            final(self)@ == (TimelineView {
                entries: old(self)@.entries.filter(survives("mark"@, text::opt_text(*name))),
                ..old(self)@
            }),
    {
        self.clear_entries("mark", name);
    }

    /// Clears the measures, or those with a name.
    pub fn performance_clear_measures(&mut self, name: &Option<String>)
        ensures
            final(self)@ == (TimelineView {
                entries: old(self)@.entries.filter(survives("measure"@, text::opt_text(*name))),
                ..old(self)@
            }),
    {
        self.clear_entries("measure", name);
    }

    /// Adds a watcher that is told of nothing yet, and gives its place.
    pub fn observer_ctor(&mut self, callback: C) -> (r: usize)
        ensures
            r == old(self)@.observers.len(),
            final(self)@ == (TimelineView {
                observers: old(self)@.observers.push(
                    (ObserverView { callback, types: Seq::empty() }),
                ),
                ..old(self)@
            }),
    {
        let ghost before = self.observers@;
        let at: usize = self.observers.len();
        let o = ObserverEntry { callback, types: Vec::new() };
        proof {
            assert(o@.types =~= Seq::empty());
        }
        let ghost ov = o@;
        self.observers.push(o);
        proof {
            assert(observers_view(self.observers@) =~= observers_view(before).push(ov));
        }
        at
    }

    fn set_types(&mut self, at: usize, types: Vec<String>)
        requires
            at < old(self)@.observers.len(),
        ensures
            final(self)@ == (TimelineView {
                observers: old(self)@.observers.update(
                    at as int,
                    (ObserverView {
                        callback: old(self)@.observers[at as int].callback,
                        types: text::texts(types@),
                    }),
                ),
                ..old(self)@
            }),
    {
        let ghost before = self.observers@;
        let callback: C = self.observers[at].callback;
        let o = ObserverEntry { callback, types };
        let ghost ov = o@;
        self.observers[at] = o;
        proof {
            assert(observers_view(self.observers@) =~= observers_view(before).update(
                at as int,
                ov,
            ));
        }
    }

    fn of_type_list(&self, types: &Vec<String>) -> (r: Vec<PerformanceEntry<N>>)
        ensures
            entries_view(r@) == self@.entries.filter(of_types(text::texts(types@))),
    {
        let ghost t = self@.entries;
        let ghost keep = of_types::<N>(text::texts(types@));
        let mut out: Vec<PerformanceEntry<N>> = Vec::new();
        let mut i: usize = 0;
        proof {
            reveal(Seq::filter);
            assert(entries_view(out@) =~= t.take(0).filter(keep));
        }
        while i < self.entries.len()
            invariant
                i <= self.entries@.len(),
                t == self@.entries,
                keep == of_types::<N>(text::texts(types@)),
                entries_view(out@) == t.take(i as int).filter(keep),
            decreases self.entries@.len() - i,
        {
            let ghost prev = out@;
            proof {
                reveal(Seq::filter);
                assert(t.take(i + 1).drop_last() =~= t.take(i as int));
                assert(t.take(i + 1).last() == self.entries@[i as int]@);
            }
            if lists(types, &self.entries[i].entry_type) {
                out.push(copy_entry(&self.entries[i]));
                proof {
                    assert(entries_view(out@) =~= entries_view(prev).push(t[i as int]));
                }
            }
            i = i + 1;
        }
        proof {
            assert(t.take(t.len() as int) =~= t);
        }
        out
    }

    /// Has a watcher told of more types of entries; of those that are there already too, in one
    /// call, where that is asked for and there are any.
    pub fn observer_observe(&mut self, at: usize, types: &Vec<String>, buffered: bool)
        ensures
            final(self)@ == (if at < old(self)@.observers.len() {
                let o = old(self)@.observers[at as int];
                let past = old(self)@.entries.filter(of_types(text::texts(types@)));
                TimelineView {
                    observers: old(self)@.observers.update(
                        at as int,
                        (ObserverView {
                            callback: o.callback,
                            types: with_types(o.types, text::texts(types@)),
                        }),
                    ),
                    queue: if buffered && past.len() > 0 {
                        old(self)@.queue.push((o.callback, past))
                    } else {
                        old(self)@.queue
                    },
                    ..old(self)@
                }
            } else {
                old(self)@
            }),
    {
        if at >= self.observers.len() {
            return ;
        }
        let ghost start = self@;
        let ghost o = start.observers[at as int];
        let callback: C = self.observers[at].callback;
        let all = add_types(&self.observers[at].types, types);
        proof {
            assert(o == self.observers@[at as int]@);
        }
        self.set_types(at, all);
        if buffered {
            let past = self.of_type_list(types);
            if past.len() > 0 {
                let ghost prev = self.queue@;
                let ghost pv = entries_view(past@);
                proof {
                    assert(pv.len() == past@.len());
                }
                self.queue.push(DeferredObserve { callback, entries: past });
                proof {
                    assert(calls_view(self.queue@) =~= calls_view(prev).push((callback, pv)));
                }
            } else {
                proof {
                    assert(entries_view(past@).len() == 0);
                }
            }
        }
    }

    /// Has a watcher told of nothing any more.
    pub fn observer_disconnect(&mut self, at: usize)
        ensures
            final(self)@ == (if at < old(self)@.observers.len() {
                TimelineView {
                    observers: old(self)@.observers.update(
                        at as int,
                        (ObserverView {
                            callback: old(self)@.observers[at as int].callback,
                            types: Seq::empty(),
                        }),
                    ),
                    ..old(self)@
                }
            } else {
                old(self)@
            }),
            at < old(self)@.observers.len() ==> final(self)@.observers[at as int].types.len() == 0,
    {
        if at < self.observers.len() {
            let none: Vec<String> = Vec::new();
            proof {
                assert(text::texts(none@) =~= Seq::empty());
            }
            self.set_types(at, none);
        }
    }

    /// Takes the calls that are still to be made, in order.
    pub fn drain_observers(&mut self) -> (r: Vec<DeferredObserve<C, N>>)
        ensures
            calls_view(r@) == old(self)@.queue,
            final(self)@ == (TimelineView { queue: Seq::empty(), ..old(self)@ }),
    {
        let mut out: Vec<DeferredObserve<C, N>> = Vec::new();
        core::mem::swap(&mut out, &mut self.queue);
        proof {
            assert(self@.queue =~= Seq::empty());
        }
        out
    }

    /// The start of the last mark with a name.
    pub fn lookup_mark(&self, name: &str) -> (r: Option<N>)
        ensures
            r == last_mark(self@.entries, name@),
    {
        let ghost t = self@.entries;
        let mut i: usize = self.entries.len();
        proof {
            assert(t.take(t.len() as int) =~= t);
        }
        while i > 0
            invariant
                i <= self.entries@.len(),
                t == self@.entries,
                last_mark(t, name@) == last_mark(t.take(i as int), name@),
            decreases i,
        {
            i = i - 1;
            proof {
                assert(t.take(i + 1).drop_last() =~= t.take(i as int));
                assert(t.take(i + 1).last() == self.entries@[i as int]@);
            }
            if text::same(&self.entries[i].entry_type, "mark") && text::same(
                &self.entries[i].name,
                name,
            ) {
                return Some(self.entries[i].start_time_ms);
            }
        }
        None
    }
}

fn add_types(have: &Vec<String>, more: &Vec<String>) -> (r: Vec<String>)
    ensures
        text::texts(r@) == with_types(text::texts(have@), text::texts(more@)),
{
    let ghost h = text::texts(have@);
    let ghost m = text::texts(more@);
    let mut out: Vec<String> = Vec::new();
    let mut i: usize = 0;
    proof {
        assert(text::texts(out@) =~= h.take(0));
    }
    while i < have.len()
        invariant
            i <= have@.len(),
            h == text::texts(have@),
            text::texts(out@) == h.take(i as int),
        decreases have@.len() - i,
    {
        let ghost prev = out@;
        out.push(text::copy(&have[i]));
        proof {
            assert(text::texts(out@) =~= text::texts(prev).push(h[i as int]));
            assert(h.take(i + 1) =~= h.take(i as int).push(h[i as int]));
        }
        i = i + 1;
    }
    let mut k: usize = 0;
    proof {
        assert(h.take(h.len() as int) =~= h);
        assert(m.take(0) =~= Seq::empty());
    }
    while k < more.len()
        invariant
            k <= more@.len(),
            m == text::texts(more@),
            text::texts(out@) == with_types(h, m.take(k as int)),
        decreases more@.len() - k,
    {
        proof {
            assert(m.take(k + 1).drop_last() =~= m.take(k as int));
            assert(m.take(k + 1).last() == more@[k as int]@);
        }
        if !lists(&out, &more[k]) {
            let ghost prev = out@;
            out.push(text::copy(&more[k]));
            proof {
                assert(text::texts(out@) =~= text::texts(prev).push(more@[k as int]@));
            }
        }
        k = k + 1;
    }
    proof {
        assert(m.take(m.len() as int) =~= m);
    }
    out
}

/// The start of the last mark with a name.
pub open spec fn last_mark<N>(v: Seq<EntryView<N>>, name: Seq<char>) -> Option<N>
    decreases v.len(),
{
    if v.len() == 0 {
        None
    } else if v.last().entry_type == "mark"@ && v.last().name == name {
        Some(v.last().start)
    } else {
        last_mark(v.drop_last(), name)
    }
}

/// A mark that was just made is the one that its name stands for, and clearing the marks leaves
/// no name that stands for one.
pub proof fn marked_is_found<N>(v: Seq<EntryView<N>>, e: EntryView<N>, name: Seq<char>)
    requires
        e.entry_type == "mark"@,
    ensures
        last_mark(v.push(e), e.name) == Some(e.start),
        name != e.name ==> last_mark(v.push(e), name) == last_mark(v, name),
        last_mark(v.filter(survives("mark"@, None)), name) is None,
{
    assert(v.push(e).drop_last() =~= v);
    let rest = v.filter(survives::<N>("mark"@, None));
    assert forall|i: int| 0 <= i < rest.len() implies (#[trigger] rest[i]).entry_type != "mark"@ by {
        v.lemma_filter_pred(survives::<N>("mark"@, None), i);
    }
    lemma_no_marks(rest, name);
}

proof fn lemma_no_marks<N>(v: Seq<EntryView<N>>, name: Seq<char>)
    requires
        forall|i: int| 0 <= i < v.len() ==> (#[trigger] v[i]).entry_type != "mark"@,
    ensures
        last_mark(v, name) is None,
    decreases v.len(),
{
    if v.len() > 0 {
        assert(v.last() == v[v.len() - 1]);
        lemma_no_marks(v.drop_last(), name);
    }
}

proof fn lemma_notices_to<C, N>(observers: Seq<ObserverView<C>>, e: EntryView<N>)
    requires
        forall|i: int|
            0 <= i < observers.len() ==> !(#[trigger] observers[i]).types.contains(e.entry_type),
    ensures
        notices(observers, e).len() == 0,
    decreases observers.len(),
{
    if observers.len() > 0 {
        assert(observers.last() == observers[observers.len() - 1]);
        lemma_notices_to(observers.drop_last(), e);
    }
}

/// An entry that nobody watches makes no calls.
pub proof fn unwatched_entries_are_silent<C, N>(observers: Seq<ObserverView<C>>, e: EntryView<N>)
    requires
        forall|i: int|
            0 <= i < observers.len() ==> !(#[trigger] observers[i]).types.contains(e.entry_type),
    ensures
        notices(observers, e) == Seq::<(C, Seq<EntryView<N>>)>::empty(),
{
    lemma_notices_to(observers, e);
    assert(notices(observers, e) =~= Seq::empty());
}

/// An end of a measure as a script writes it: the name of a mark, or a time.
pub enum Endpoint<N> {
    Mark(String),
    Time(N),
}

/// The time that an end of a measure stands for.
pub open spec fn endpoint_time<N>(v: Seq<EntryView<N>>, e: Option<Endpoint<N>>) -> Option<N> {
    match e {
        Some(Endpoint::Mark(s)) => last_mark(v, s@),
        Some(Endpoint::Time(n)) => Some(n),
        None => None,
    }
}

/// A time, as a sum to be reckoned.
#[derive(PartialEq, Eq, Debug)]
pub enum Bound<N> {
    Zero,
    Now,
    At(N),
    Later(N, N),
    Earlier(N, N),
}

/// Where a measure begins and ends, by what is given of its start, its end and its length.
pub open spec fn bounds_of<N>(start: Option<N>, end: Option<N>, duration: Option<N>) -> (
    Bound<N>,
    Bound<N>,
) {
    match (start, end, duration) {
        (Some(s), Some(e), _) => (Bound::At(s), Bound::At(e)),
        (Some(s), None, Some(d)) => (Bound::At(s), Bound::Later(s, d)),
        (None, Some(e), Some(d)) => (Bound::Earlier(e, d), Bound::At(e)),
        (Some(s), None, None) => (Bound::At(s), Bound::Now),
        (None, Some(e), None) => (Bound::Zero, Bound::At(e)),
        (None, None, _) => (Bound::Zero, Bound::Now),
    }
}

impl<C: Copy, N: Copy> Timeline<C, N> {
    fn resolve_endpoint(&self, e: &Option<Endpoint<N>>) -> (r: Option<N>)
        ensures
            r == endpoint_time(self@.entries, *e),
    {
        match e {
            Some(Endpoint::Mark(s)) => self.lookup_mark(s),
            Some(Endpoint::Time(n)) => Some(*n),
            None => None,
        }
    }

    /// Where a measure begins and ends: from its start and end, which may be the names of marks,
    /// and its length. What is missing is the beginning of the timeline, or now.
    pub fn resolve_measure_bounds(
        &self,
        start: &Option<Endpoint<N>>,
        end: &Option<Endpoint<N>>,
        duration: Option<N>,
    ) -> (r: (Bound<N>, Bound<N>))
        ensures
            r == bounds_of(
                endpoint_time(self@.entries, *start),
                endpoint_time(self@.entries, *end),
                duration,
            ),
    {
        let s = self.resolve_endpoint(start);
        let e = self.resolve_endpoint(end);
        match (s, e, duration) {
            (Some(s), Some(e), _) => (Bound::At(s), Bound::At(e)),
            (Some(s), None, Some(d)) => (Bound::At(s), Bound::Later(s, d)),
            (None, Some(e), Some(d)) => (Bound::Earlier(e, d), Bound::At(e)),
            (Some(s), None, None) => (Bound::At(s), Bound::Now),
            (None, Some(e), None) => (Bound::Zero, Bound::At(e)),
            (None, None, _) => (Bound::Zero, Bound::Now),
        }
    }
}

/// An entry is told to every watcher of its type, in order and by itself, and to no other.
pub proof fn watchers_are_told_of_their_types<C, N>(
    a: Seq<ObserverView<C>>,
    b: Seq<ObserverView<C>>,
    o: ObserverView<C>,
    e: EntryView<N>,
)
    ensures
        notices(a + b, e) == notices(a, e) + notices(b, e),
        o.types.contains(e.entry_type) ==> notices(seq![o], e) == seq![(o.callback, seq![e])],
        !o.types.contains(e.entry_type) ==> notices(seq![o], e).len() == 0,
    decreases b.len(),
{
    reveal_with_fuel(notices, 2);
    assert(seq![o].drop_last() =~= Seq::<ObserverView<C>>::empty());
    assert(seq![o].last() == o);
    if b.len() == 0 {
        assert(a + b =~= a);
        assert(notices(a, e) + notices(b, e) =~= notices(a, e));
    } else {
        watchers_are_told_of_their_types(a, b.drop_last(), o, e);
        assert((a + b).drop_last() =~= a + b.drop_last());
        assert((a + b).last() == b.last());
        assert(notices(a + b, e) =~= notices(a, e) + notices(b, e));
    }
}

/// Asking for entries gives all with the name and the type, as far as these are given; clearing those
/// of a type takes all of the type, or just those with the name; all others stay.
pub proof fn entries_are_asked_for<N>(
    v: Seq<EntryView<N>>,
    e: EntryView<N>,
    name: Seq<char>,
    ty: Seq<char>,
    types: Seq<Seq<char>>,
)
    ensures
        v.filter(answers(None, None)).contains(e) <==> v.contains(e),
        v.filter(answers(Some(name), None)).contains(e) <==> v.contains(e) && e.name == name,
        v.filter(answers(None, Some(ty))).contains(e) <==> v.contains(e) && e.entry_type == ty,
        v.filter(answers(Some(name), Some(ty))).contains(e) <==> v.contains(e) && e.name == name
            && e.entry_type == ty,
        v.filter(survives(ty, None)).contains(e) <==> v.contains(e) && e.entry_type != ty,
        v.filter(survives(ty, Some(name))).contains(e) <==> v.contains(e) && !(e.entry_type == ty
            && e.name == name),
        v.filter(of_types(types)).contains(e) <==> v.contains(e) && types.contains(e.entry_type),
{
    lemma_kept(v, answers(None, None), e);
    lemma_kept(v, answers(Some(name), None), e);
    lemma_kept(v, answers(None, Some(ty)), e);
    lemma_kept(v, answers(Some(name), Some(ty)), e);
    lemma_kept(v, survives(ty, None), e);
    lemma_kept(v, survives(ty, Some(name)), e);
    lemma_kept(v, of_types(types), e);
}

proof fn lemma_kept<N>(v: Seq<EntryView<N>>, p: spec_fn(EntryView<N>) -> bool, e: EntryView<N>)
    ensures
        v.filter(p).contains(e) <==> v.contains(e) && p(e),
{
    if v.filter(p).contains(e) {
        v.lemma_filter_pred(p, v.filter(p).index_of(e));
        v.lemma_filter_contains_rev(p, e);
    }
    if v.contains(e) && p(e) {
        v.lemma_filter_contains(p, v.index_of(e));
    }
}

/// Types that are added are watched, those that were are too, and none is there twice that was not.
pub proof fn watched_types_are_added(
    have: Seq<Seq<char>>,
    more: Seq<Seq<char>>,
    ty: Seq<char>,
)
    ensures
        with_types(have, more).contains(ty) <==> have.contains(ty) || more.contains(ty),
        have.no_duplicates() ==> with_types(have, more).no_duplicates(),
        with_types(have, more).len() >= have.len(),
        with_types(have, more).take(have.len() as int) == have,
    decreases more.len(),
{
    if more.len() == 0 {
        assert(have.take(have.len() as int) =~= have);
    } else {
        let fewer = more.drop_last();
        let x = more.last();
        watched_types_are_added(have, fewer, ty);
        let a = with_types(have, fewer);
        let b = with_types(have, more);
        assert(more[more.len() - 1] == x);
        if fewer.contains(ty) {
            assert(more[fewer.index_of(ty)] == ty);
        }
        if more.contains(ty) && ty != x {
            assert(fewer[more.index_of(ty)] == ty);
        }
        if a.contains(ty) {
            assert(b[a.index_of(ty)] == ty);
        }
        if b.contains(ty) && ty != x {
            assert(a[b.index_of(ty)] == ty);
        }
        if !a.contains(x) {
            assert(b[a.len() as int] == x);
            assert forall|i: int| 0 <= i < a.len() implies #[trigger] a[i] != x by {
                assert(a.contains(a[i]));
            }
        }
        assert(b.take(have.len() as int) =~= have);
    }
}

/// The time of a mark's name is that of the last mark with it; other entries say nothing, and a time
/// that is given is itself.
pub proof fn last_mark_counts<N>(
    v: Seq<EntryView<N>>,
    e: EntryView<N>,
    name: String,
    time: N,
)
    ensures
        e.entry_type == "mark"@ && e.name == name@ ==> endpoint_time(
            v.push(e),
            Some(Endpoint::Mark(name)),
        ) == Some(e.start),
        e.entry_type != "mark"@ || e.name != name@ ==> endpoint_time(
            v.push(e),
            Some(Endpoint::Mark(name)),
        ) == endpoint_time(v, Some(Endpoint::Mark(name))),
        endpoint_time(Seq::<EntryView<N>>::empty(), Some(Endpoint::Mark(name))) is None,
        endpoint_time(v, Some(Endpoint::Time(time))) == Some(time),
        endpoint_time(v, None) is None,
{
    assert(v.push(e).drop_last() =~= v);
}

/// A measure begins and ends where that is given. Where only one of the two is, its length gives the
/// other; without a length it begins at zero or ends now.
pub proof fn measures_have_their_bounds<N>(s: N, e: N, d: N, x: Option<N>)
    ensures
        bounds_of(Some(s), x, Some(d)).0 == Bound::At(s),
        bounds_of(Some(s), x, None).0 == Bound::At(s),
        bounds_of(x, Some(e), Some(d)).1 == Bound::At(e),
        bounds_of(x, Some(e), None).1 == Bound::At(e),
        bounds_of(Some(s), None, Some(d)).1 == Bound::Later(s, d),
        bounds_of(None, Some(e), Some(d)).0 == Bound::Earlier(e, d),
        bounds_of(Some(s), None, None).1 == Bound::<N>::Now,
        bounds_of(None, Some(e), None).0 == Bound::<N>::Zero,
        bounds_of(None, None, x) == (Bound::<N>::Zero, Bound::<N>::Now),
{
}

} // verus!
