//! Signals that tell scripts to stop, and how one stops others.
use crate::registry;
use crate::registry::{Registry, RegistryView};
use crate::text;
use vstd::prelude::*;
use vstd::string::*;

verus! {

broadcast use crate::registry::group_registry;

/// A signal. Values of scripts are of any type: the reason it was given, its handlers and the
/// object that stands for it.
pub struct SignalState<T> {
    pub aborted: bool,
    pub reason: T,
    pub listeners: Vec<T>,
    pub handle: Option<T>,
    pub follow: Vec<u32>,
}

/// A signal over plain values.
pub ghost struct SignalView<T> {
    pub aborted: bool,
    pub reason: T,
    pub listeners: Seq<T>,
    pub handle: Option<T>,
    pub follow: Seq<u32>,
}

impl<T> View for SignalState<T> {
    type V = SignalView<T>;

    open spec fn view(&self) -> SignalView<T> {
        SignalView {
            aborted: self.aborted,
            reason: self.reason,
            listeners: self.listeners@,
            handle: self.handle,
            follow: self.follow@,
        }
    }
}

/// A new signal.
pub open spec fn fresh<T>(aborted: bool, reason: T) -> SignalView<T> {
    SignalView { aborted, reason, listeners: Seq::empty(), handle: None, follow: Seq::empty() }
}

/// The signals with one changed, where it is there.
pub open spec fn changed<T>(
    r: RegistryView<SignalView<T>>,
    id: u32,
    f: spec_fn(SignalView<T>) -> SignalView<T>,
) -> RegistryView<SignalView<T>> {
    match r.found(id) {
        Some(s) => r.with(id, f(s)),
        None => r,
    }
}

/// Makes a signal, and gives its number.
pub fn create_signal<T>(signals: &mut Registry<SignalState<T>>, aborted: bool, reason: T) -> (r: u32)
    ensures
        r == old(signals)@.next,
        registry::views(final(signals)@) == registry::views(old(signals)@).added(
            fresh(aborted, reason),
        ),
{
    let s = SignalState {
        aborted,
        reason,
        listeners: Vec::new(),
        handle: None,
        follow: Vec::new(),
    };
    proof {
        assert(s@.listeners =~= Seq::empty());
        assert(s@.follow =~= Seq::empty());
    }
    signals.insert_next(s)
}

/// A signal with the object that stands for it.
pub open spec fn with_handle<T>(h: T) -> spec_fn(SignalView<T>) -> SignalView<T> {
    |s: SignalView<T>| SignalView { handle: Some(h), ..s }
}

/// A signal with a handler more.
pub open spec fn with_listener<T>(l: T) -> spec_fn(SignalView<T>) -> SignalView<T> {
    |s: SignalView<T>| SignalView { listeners: s.listeners.push(l), ..s }
}

/// A signal without handlers.
pub open spec fn without_listeners<T>() -> spec_fn(SignalView<T>) -> SignalView<T> {
    |s: SignalView<T>| SignalView { listeners: Seq::empty(), ..s }
}

/// A signal that another follows.
pub open spec fn with_follower<T>(id: u32) -> spec_fn(SignalView<T>) -> SignalView<T> {
    |s: SignalView<T>| SignalView { follow: s.follow.push(id), ..s }
}

/// Notes the object that stands for a signal, where it is there.
pub fn attach_handle<T>(signals: &mut Registry<SignalState<T>>, id: u32, handle: T)
    ensures
        registry::views(final(signals)@) == changed(
            registry::views(old(signals)@),
            id,
            with_handle(handle),
        ),
{
    let ghost before = registry::views(signals@);
    match signals.take(id) {
        None => {
            proof {
                assert(registry::views(signals@).items =~= before.items);
            }
        },
        Some(mut s) => {
            s.handle = Some(handle);
            signals.put(id, s);
        },
    }
}

/// Adds a handler to a signal, for its one event only.
pub fn signal_add_event_listener<T>(
    signals: &mut Registry<SignalState<T>>,
    id: u32,
    name: &str,
    listener: T,
)
    ensures
        registry::views(final(signals)@) == (if name@ == "abort"@ {
            changed(registry::views(old(signals)@), id, with_listener(listener))
        } else {
            registry::views(old(signals)@)
        }),
{
    if !text::same(name, "abort") {
        return ;
    }
    let ghost before = registry::views(signals@);
    match signals.take(id) {
        None => {
            proof {
                assert(registry::views(signals@).items =~= before.items);
            }
        },
        Some(mut s) => {
            s.listeners.push(listener);
            signals.put(id, s);
        },
    }
}

/// Drops the handlers of a signal: handlers cannot be told apart, so all of them go.
pub fn signal_remove_event_listener<T>(signals: &mut Registry<SignalState<T>>, id: u32)
    ensures
        registry::views(final(signals)@) == changed(
            registry::views(old(signals)@),
            id,
            without_listeners(),
        ),
{
    let ghost before = registry::views(signals@);
    match signals.take(id) {
        None => {
            proof {
                assert(registry::views(signals@).items =~= before.items);
            }
        },
        Some(mut s) => {
            s.listeners.clear();
            proof {
                assert(s.listeners@ =~= Seq::empty());
            }
            signals.put(id, s);
        },
    }
}

/// Whether a signal is aborted; one that is not there is not.
pub open spec fn is_aborted<T>(r: RegistryView<SignalView<T>>, id: u32) -> bool {
    r.found(id) matches Some(s) && s.aborted
}

/// Whether a signal is aborted.
pub fn signal_is_aborted<T>(signals: &Registry<SignalState<T>>, id: u32) -> (r: bool)
    ensures
        r == is_aborted(registry::views(signals@), id),
{
    match signals.get(id) {
        Some(s) => s.aborted,
        None => false,
    }
}

/// The reason that a signal was given, where it is aborted.
pub fn signal_throw_if_aborted<T: Copy>(signals: &Registry<SignalState<T>>, id: u32) -> (r: Option<
    T,
>)
    ensures
        r == (if is_aborted(registry::views(signals@), id) {
            Some(registry::views(signals@).found(id)->0.reason)
        } else {
            None
        }),
{
    match signals.get(id) {
        Some(s) => if s.aborted {
            Some(s.reason)
        } else {
            None
        },
        None => None,
    }
}

/// Whether a signal can still be aborted: it is there and is not.
pub open spec fn is_live<T>(r: RegistryView<SignalView<T>>, id: u32) -> bool {
    r.found(id) matches Some(s) && !s.aborted
}

/// The topmost signal of a stack that can still be aborted, and what is below it.
pub open spec fn next_live<T>(r: RegistryView<SignalView<T>>, pending: Seq<u32>) -> Option<
    (Seq<u32>, u32),
>
    decreases pending.len(),
{
    if pending.len() == 0 {
        None
    } else if is_live(r, pending.last()) {
        Some((pending.drop_last(), pending.last()))
    } else {
        next_live(r, pending.drop_last())
    }
}

/// A signal once it is aborted.
pub open spec fn stopped<T>(reason: T) -> spec_fn(SignalView<T>) -> SignalView<T> {
    |s: SignalView<T>| SignalView { aborted: true, reason, ..s }
}

/// A signal that was just aborted: the object that stands for it, and the handlers to call.
pub struct Fired<T> {
    pub id: u32,
    pub handle: Option<T>,
    pub listeners: Vec<T>,
}

fn copy_values<T: Copy>(v: &Vec<T>) -> (r: Vec<T>)
    ensures
        r@ == v@,
{
    let mut out: Vec<T> = Vec::new();
    let mut i: usize = 0;
    while i < v.len()
        invariant
            i <= v@.len(),
            out@ == v@.take(i as int),
        decreases v@.len() - i,
    {
        out.push(v[i]);
        proof {
            assert(v@.take(i + 1) =~= v@.take(i as int).push(v@[i as int]));
        }
        i = i + 1;
    }
    proof {
        assert(v@.take(v@.len() as int) =~= v@);
    }
    out
}

fn push_reversed(out: &mut Vec<u32>, v: &Vec<u32>)
    ensures
        final(out)@ == old(out)@ + v@.reverse(),
{
    let ghost before = out@;
    let mut k: usize = v.len();
    proof {
        assert(before + v@.skip(k as int).reverse() =~= before);
    }
    while k > 0
        invariant
            k <= v@.len(),
            out@ == before + v@.skip(k as int).reverse(),
        decreases k,
    {
        k = k - 1;
        out.push(v[k]);
        proof {
            assert(out@ =~= before + v@.skip(k as int).reverse());
        }
    }
    proof {
        assert(v@.skip(0) =~= v@);
    }
}

/// Aborts the next signal of a stack of signals to abort, and puts those that follow it on top,
/// so that they come next, in order, each with its own followers. A signal that is not there or
/// is aborted already is passed over. A signal that no object stands for has no handlers to call.
pub fn fire_abort<T: Copy>(
    signals: &mut Registry<SignalState<T>>,
    pending: &mut Vec<u32>,
    reason: T,
) -> (r: Option<Fired<T>>)
    ensures
        match next_live(registry::views(old(signals)@), old(pending)@) {
            None => r is None && final(pending)@.len() == 0 && final(signals)@ == old(signals)@,
            Some((rest, id)) => {
                let s = registry::views(old(signals)@).found(id)->0;
                &&& registry::views(final(signals)@) == registry::views(old(signals)@).with(
                    id,
                    stopped(reason)(s),
                )
                &&& final(pending)@ == rest + s.follow.reverse()
                &&& r matches Some(f) && f.id == id && f.handle == s.handle && f.listeners@ == (
                if s.handle is Some {
                    s.listeners
                } else {
                    Seq::empty()
                })
            },
        },
{
    let ghost before = registry::views(signals@);
    let ghost start = pending@;
    while pending.len() > 0
        invariant
            before == registry::views(signals@),
            signals@ == old(signals)@,
            start == old(pending)@,
            next_live(before, pending@) == next_live(before, start),
        decreases pending@.len(),
    {
        let ghost prev = pending@;
        let id: u32 = pending.pop().unwrap();
        proof {
            assert(pending@ =~= prev.drop_last());
        }
        let live = match signals.get(id) {
            Some(s) => !s.aborted,
            None => false,
        };
        if live {
            match signals.take(id) {
                Some(mut s) => {
                    s.aborted = true;
                    s.reason = reason;
                    push_reversed(pending, &s.follow);
                    let handle = s.handle;
                    let listeners = match handle {
                        Some(_) => copy_values(&s.listeners),
                        None => Vec::new(),
                    };
                    proof {
                        if handle is None {
                            assert(listeners@ =~= Seq::empty());
                        }
                    }
                    signals.put(id, s);
                    return Some(Fired { id, handle, listeners });
                },
                None => {
                    proof {
                        assert(false);
                    }
                },
            }
        }
    }
    None
}

/// An aborted signal stays aborted, whatever is aborted after it, and is aborted only once: its
/// reason stays the first one.
pub proof fn aborted_once<T>(
    r: RegistryView<SignalView<T>>,
    pending: Seq<u32>,
    reason: T,
    other: u32,
)
    requires
        is_aborted(r, other),
    ensures
        next_live(r, pending) matches Some((rest, id)) ==> id != other && r.with(
            id,
            stopped(reason)(r.found(id)->0),
        ).found(other) == r.found(other),
    decreases pending.len(),
{
    if pending.len() > 0 && !is_live(r, pending.last()) {
        aborted_once(r, pending.drop_last(), reason, other);
    }
}

/// A signal that can still be aborted and is next is aborted, and then those that follow it are
/// next.
pub proof fn followers_come_next<T>(r: RegistryView<SignalView<T>>, pending: Seq<u32>, id: u32)
    requires
        is_live(r, id),
    ensures
        next_live(r, pending.push(id)) == Some((pending, id)),
{
    assert(pending.push(id).drop_last() =~= pending);
}

/// The signals once one is made to follow others, up to the first that is aborted already.
pub open spec fn following<T>(
    r: RegistryView<SignalView<T>>,
    children: Seq<u32>,
    id: u32,
) -> RegistryView<SignalView<T>>
    decreases children.len(),
{
    if children.len() == 0 || is_aborted(r, children[0]) {
        r
    } else {
        following(changed(r, children[0], with_follower(id)), children.skip(1), id)
    }
}

/// The reason of the first of some signals that is aborted already.
pub open spec fn first_reason<T>(r: RegistryView<SignalView<T>>, children: Seq<u32>) -> Option<T>
    decreases children.len(),
{
    if children.len() == 0 {
        None
    } else if is_aborted(r, children[0]) {
        Some(r.found(children[0])->0.reason)
    } else {
        first_reason(r, children.skip(1))
    }
}

proof fn lemma_follow_keeps<T>(
    r: RegistryView<SignalView<T>>,
    child: u32,
    id: u32,
    children: Seq<u32>,
)
    ensures
        first_reason(changed(r, child, with_follower(id)), children) == first_reason(r, children),
    decreases children.len(),
{
    if children.len() > 0 {
        lemma_follow_keeps(r, child, id, children.skip(1));
    }
}

/// Makes a signal that is aborted when any of some others is, and gives its number; gives too
/// the reason of the first of these that is aborted already, with which it is to be aborted.
pub fn signal_static_any<T: Copy>(
    signals: &mut Registry<SignalState<T>>,
    children: &Vec<u32>,
    undefined: T,
) -> (r: (u32, Option<T>))
    ensures
        r.0 == old(signals)@.next,
        ({
            let made = registry::views(old(signals)@).added(fresh(false, undefined));
            registry::views(final(signals)@) == following(made, children@, r.0) && r.1
                == first_reason(made, children@)
        }),
{
    let ghost start = registry::views(signals@).added(fresh(false, undefined));
    let id = create_signal(signals, false, undefined);
    let mut i: usize = 0;
    proof {
        assert(children@.skip(0) =~= children@);
    }
    while i < children.len()
        invariant
            i <= children@.len(),
            id == old(signals)@.next,
            start == registry::views(old(signals)@).added(fresh(false, undefined)),
            following(start, children@, id) == following(
                registry::views(signals@),
                children@.skip(i as int),
                id,
            ),
            first_reason(start, children@) == first_reason(
                registry::views(signals@),
                children@.skip(i as int),
            ),
        decreases children@.len() - i,
    {
        let child: u32 = children[i];
        let ghost now = registry::views(signals@);
        proof {
            assert(children@.skip(i as int)[0] == child);
            assert(children@.skip(i as int).skip(1) =~= children@.skip(i + 1));
            lemma_follow_keeps(now, child, id, children@.skip(i + 1));
        }
        match signal_throw_if_aborted(signals, child) {
            Some(reason) => {
                return (id, Some(reason));
            },
            None => {},
        }
        match signals.take(child) {
            None => {
                proof {
                    assert(registry::views(signals@).items =~= now.items);
                }
            },
            Some(mut s) => {
                s.follow.push(id);
                signals.put(child, s);
            },
        }
        i = i + 1;
    }
    (id, None)
}

proof fn lemma_following_grows<T>(
    r: RegistryView<SignalView<T>>,
    children: Seq<u32>,
    id: u32,
    child: u32,
)
    requires
        r.found(child) is Some,
        r.found(child)->0.follow.contains(id),
    ensures
        following(r, children, id).found(child) is Some,
        following(r, children, id).found(child)->0.follow.contains(id),
    decreases children.len(),
{
    if children.len() > 0 && !is_aborted(r, children[0]) {
        let next = changed(r, children[0], with_follower(id));
        let f = r.found(child)->0.follow;
        let k = choose|k: int| 0 <= k < f.len() && f[k] == id;
        assert(f.push(id)[k] == id);
        lemma_following_grows(next, children.skip(1), id, child);
    }
}

/// A signal made of others follows each of them that is there, unless one is aborted already.
pub proof fn any_follows_all<T>(
    r: RegistryView<SignalView<T>>,
    children: Seq<u32>,
    id: u32,
    i: int,
)
    requires
        0 <= i < children.len(),
        first_reason(r, children) is None,
        r.found(children[i]) is Some,
    ensures
        following(r, children, id).found(children[i]) is Some,
        following(r, children, id).found(children[i])->0.follow.contains(id),
    decreases children.len(),
{
    let next = changed(r, children[0], with_follower(id));
    lemma_follow_keeps(r, children[0], id, children.skip(1));
    if i == 0 {
        let f = r.found(children[0])->0.follow;
        assert(f.push(id)[f.len() as int] == id);
        lemma_following_grows(next, children.skip(1), id, children[0]);
    } else {
        assert(children.skip(1)[i - 1] == children[i]);
        any_follows_all(next, children.skip(1), id, i - 1);
    }
}

/// The next signal to abort is one of those that wait and can still be aborted, and none that came
/// later can; there is none just where none that waits can be aborted.
pub proof fn latest_live_is_next<T>(r: RegistryView<SignalView<T>>, pending: Seq<u32>, i: int)
    requires
        0 <= i < pending.len(),
    ensures
        next_live(r, pending) is None ==> !is_live(r, pending[i]),
        next_live(r, pending) matches Some((rest, id)) ==> {
            &&& is_live(r, id)
            &&& rest.len() < pending.len()
            &&& pending.take(rest.len() as int + 1) == rest.push(id)
            &&& i > rest.len() ==> !is_live(r, pending[i])
        },
    decreases pending.len(),
{
    let n = pending.len() - 1;
    if is_live(r, pending.last()) {
        assert(pending.take(n + 1) =~= pending.drop_last().push(pending.last()));
    } else if n > 0 {
        let j = if i < n {
            i
        } else {
            0
        };
        latest_live_is_next(r, pending.drop_last(), j);
        if next_live(r, pending) is Some {
            let (rest, _) = next_live(r, pending)->0;
            assert(pending.take(rest.len() as int + 1) =~= pending.drop_last().take(
                rest.len() as int + 1,
            ));
        }
    }
}

/// Of some signals the reason of the first that is aborted counts, and there is none just where none
/// is aborted.
pub proof fn first_reason_counts<T>(r: RegistryView<SignalView<T>>, children: Seq<u32>, i: int)
    requires
        0 <= i < children.len(),
        forall|j: int| 0 <= j < i ==> !is_aborted(r, #[trigger] children[j]),
    ensures
        is_aborted(r, children[i]) ==> first_reason(r, children) == Some(
            r.found(children[i])->0.reason,
        ),
        i == children.len() - 1 && !is_aborted(r, children[i]) ==> first_reason(r, children) is None,
    decreases i,
{
    reveal_with_fuel(first_reason, 2);
    if i > 0 {
        assert(!is_aborted(r, children[0]));
        let rest = children.skip(1);
        assert forall|j: int| 0 <= j < i - 1 implies !is_aborted(r, #[trigger] rest[j]) by {
            assert(rest[j] == children[j + 1]);
        }
        first_reason_counts(r, rest, i - 1);
        assert(rest[i - 1] == children[i]);
    } else if children.len() == 1 {
        assert(children.skip(1).len() == 0);
    }
}

/// Being followed changes nothing else of a signal, and no signal is followed by one that was not made
/// of it.
pub proof fn followed_signals_stay<T>(
    r: RegistryView<SignalView<T>>,
    children: Seq<u32>,
    id: u32,
    x: u32,
)
    ensures
        r.found(x) is None ==> following(r, children, id).found(x) is None,
        r.found(x) matches Some(s) ==> (following(r, children, id).found(x) matches Some(u)
            && u.aborted == s.aborted && u.reason == s.reason && u.listeners == s.listeners
            && u.handle == s.handle),
        !children.contains(x) ==> following(r, children, id).found(x) == r.found(x),
    decreases children.len(),
{
    if children.len() > 0 && !is_aborted(r, children[0]) {
        let u = changed(r, children[0], with_follower(id));
        let rest = children.skip(1);
        followed_signals_stay(u, rest, id, x);
        assert(children.contains(children[0]));
        if rest.contains(x) {
            assert(children[rest.index_of(x) + 1] == x);
        }
    }
}

/// A new signal has no handlers. One that is stopped is aborted for the reason given, and keeps the
/// handlers that are then called; changing one changes no other.
pub proof fn stopped_signals_keep_handlers<T>(
    r: RegistryView<SignalView<T>>,
    id: u32,
    s: SignalView<T>,
    reason: T,
    handler: T,
    other: u32,
)
    requires
        r.found(id) == Some(s),
        other != id,
    ensures
        fresh(false, reason).listeners.len() == 0 && !fresh(false, reason).aborted,
        fresh(true, reason).aborted && fresh(true, reason).reason == reason,
        changed(r, id, stopped(reason)).found(id) matches Some(u) && u.aborted && u.reason == reason
            && u.listeners == s.listeners && u.follow == s.follow && u.handle == s.handle,
        changed(r, id, with_listener(handler)).found(id) matches Some(u) && u.listeners
            == s.listeners.push(handler) && u.aborted == s.aborted && u.reason == s.reason,
        changed(r, id, without_listeners()).found(id) matches Some(u) && u.listeners.len() == 0
            && u.aborted == s.aborted && u.reason == s.reason,
        changed(r, id, with_handle(handler)).found(id) matches Some(u) && u.handle == Some(handler)
            && u.listeners == s.listeners && u.aborted == s.aborted,
        changed(r, id, stopped(reason)).found(other) == r.found(other),
        changed(r, id, with_listener(handler)).found(other) == r.found(other),
        is_live(r, id) != is_aborted(r, id),
{
}

/// A signal is aborted once it was stopped and live before; one that is not there is neither.
pub proof fn signals_are_live_or_aborted<T>(
    r: RegistryView<SignalView<T>>,
    id: u32,
    reason: T,
)
    ensures
        r.found(id) is None ==> !is_live(r, id) && !is_aborted(r, id),
        r.found(id) matches Some(s) ==> (is_aborted(r, id) <==> s.aborted) && (is_live(r, id)
            <==> !s.aborted),
        r.found(id) is Some ==> is_aborted(changed(r, id, stopped(reason)), id),
        is_live(r.added(fresh(false, reason)), r.next),
{
}

} // verus!
