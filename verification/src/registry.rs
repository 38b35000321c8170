//! Values kept under numbers that are handed out one after the other.
use std::collections::HashMap;
use vstd::prelude::*;

verus! {

broadcast use vstd::std_specs::hash::group_hash_axioms;

/// The number after a number; after the highest comes zero.
pub open spec fn next_after(n: u32) -> u32 {
    if n == u32::MAX {
        0
    } else {
        (n + 1) as u32
    }
}

/// Takes the next number, and moves on to the one after it.
pub fn next_id(counter: &mut u32) -> (r: u32)
    ensures
        r == *old(counter),
        *final(counter) == next_after(*old(counter)),
{
    let id: u32 = *counter;
    *counter = id.wrapping_add(1);
    id
}

/// Values under numbers.
pub struct Registry<V> {
    items: HashMap<u32, V>,
    next: u32,
}

/// What a registry holds, and the number that it hands out next.
pub ghost struct RegistryView<V> {
    pub items: Map<u32, V>,
    pub next: u32,
}

impl<V> View for Registry<V> {
    type V = RegistryView<V>;

    closed spec fn view(&self) -> RegistryView<V> {
        RegistryView { items: self.items@, next: self.next }
    }
}

impl<V> RegistryView<V> {
    /// The registry once a value was added.
    pub open spec fn added(self, v: V) -> RegistryView<V> {
        RegistryView { items: self.items.insert(self.next, v), next: next_after(self.next) }
    }

    /// The value under a number.
    pub open spec fn found(self, id: u32) -> Option<V> {
        if self.items.dom().contains(id) {
            Some(self.items[id])
        } else {
            None
        }
    }

    /// The registry with a value under a number replaced.
    pub open spec fn with(self, id: u32, v: V) -> RegistryView<V> {
        RegistryView { items: self.items.insert(id, v), next: self.next }
    }

    /// The registry with nothing under a number.
    pub open spec fn without(self, id: u32) -> RegistryView<V> {
        RegistryView { items: self.items.remove(id), next: self.next }
    }
}

impl<V> Registry<V> {
    /// An empty registry, whose first number is one.
    pub fn new() -> (r: Self)
        ensures
            r@ == (RegistryView::<V> { items: Map::empty(), next: 1 }),
    {
        let r = Registry { items: HashMap::new(), next: 1 };
        proof {
            assert(r@.items =~= Map::empty());
        }
        r
    }

    /// Takes the next number without keeping anything under it.
    pub fn skip_id(&mut self) -> (r: u32)
        ensures
            r == old(self)@.next,
            final(self)@ == (RegistryView::<V> {
                items: old(self)@.items,
                next: next_after(old(self)@.next),
            }),
    {
        next_id(&mut self.next)
    }

    /// Keeps a value under the next number, which it returns.
    pub fn insert_next(&mut self, v: V) -> (r: u32)
        ensures
            r == old(self)@.next,
            final(self)@ == old(self)@.added(v),
    {
        let id = next_id(&mut self.next);
        self.items.insert(id, v);
        id
    }

    /// Whether there is a value under a number.
    pub fn has(&self, id: u32) -> (r: bool)
        ensures
            r == self@.items.dom().contains(id),
    {
        self.items.contains_key(&id)
    }

    /// The value under a number.
    pub fn get(&self, id: u32) -> (r: Option<&V>)
        ensures
            r == match self@.found(id) {
                Some(v) => Some(&v),
                None => None,
            },
    {
        self.items.get(&id)
    }

    /// Takes the value from under a number.
    pub fn take(&mut self, id: u32) -> (r: Option<V>)
        ensures
            r == old(self)@.found(id),
            final(self)@ == old(self)@.without(id),
    {
        let ghost before = self@;
        let r = self.items.remove(&id);
        proof {
            assert(self@.items =~= before.items.remove(id));
        }
        r
    }

    /// The numbers under which there are values, each once, in no particular order.
    pub fn ids(&self) -> (r: Vec<u32>)
        ensures
            r@.no_duplicates(),
            r@.to_set() == self@.items.dom(),
    {
        let mut out: Vec<u32> = Vec::new();
        let keys = self.items.keys();
        let ghost all = vstd::std_specs::iter::IteratorSpec::remaining(&keys).unref();
        for k in it: keys
            invariant
                all == it.seq().unref(),
                all.len() == it.seq().len(),
                all.to_set() == self.items@.dom(),
                it.seq().no_duplicates(),
                all.no_duplicates(),
                out@ == all.take(it.index()),
        {
            out.push(*k);
            proof {
                assert(all.take(it.index() + 1) =~= all.take(it.index()).push(all[it.index()]));
            }
        }
        proof {
            assert(all.take(all.len() as int) =~= all);
        }
        out
    }

    /// Keeps a value under a number.
    pub fn put(&mut self, id: u32, v: V)
        ensures
            final(self)@ == old(self)@.with(id, v),
    {
        self.items.insert(id, v);
    }
}

/// What was added is found under its number, and what was found under other numbers stays.
pub proof fn added_is_found<V>(r: RegistryView<V>, v: V, other: u32)
    ensures
        r.added(v).found(r.next) == Some(v),
        other != r.next ==> r.added(v).found(other) == r.found(other),
{
}

/// Two values added one after the other are kept under different numbers.
pub proof fn numbers_differ<V>(r: RegistryView<V>, a: V, b: V)
    ensures
        r.added(a).next != r.next,
        r.added(a).added(b).found(r.next) == Some(a),
        r.added(a).added(b).found(r.added(a).next) == Some(b),
{
}

/// The number after so many others.
pub open spec fn nth_after(n: u32, k: nat) -> u32
    decreases k,
{
    if k == 0 {
        n
    } else {
        next_after(nth_after(n, (k - 1) as nat))
    }
}

/// A number comes round again only after all others: no two of any `u32::MAX + 1` numbers that
/// are handed out in a row are the same.
pub proof fn numbers_repeat_late(n: u32, i: nat, j: nat)
    requires
        i < j,
        j - i <= u32::MAX,
    ensures
        nth_after(n, i) != nth_after(n, j),
{
    lemma_nth(n, i);
    lemma_nth(n, j);
    let m: int = 0x1_0000_0000;
    if (n + i) % m == (n + j) % m {
        vstd::arithmetic::div_mod::lemma_fundamental_div_mod(n + i, m);
        vstd::arithmetic::div_mod::lemma_fundamental_div_mod(n + j, m);
        let a = (n + i) / m;
        let b = (n + j) / m;
        assert(m * b - m * a == j - i);
        assert(m * (b - a) == m * b - m * a) by (nonlinear_arith);
        assert(0 < m * (b - a) < m);
        assert(b - a >= 1 ==> m * (b - a) >= m) by (nonlinear_arith)
            requires
                m == 0x1_0000_0000,
        ;
        assert(b - a <= 0 ==> m * (b - a) <= 0) by (nonlinear_arith)
            requires
                m == 0x1_0000_0000,
        ;
    }
}

proof fn lemma_nth(n: u32, k: nat)
    ensures
        nth_after(n, k) == (n + k) % 0x1_0000_0000,
    decreases k,
{
    if k > 0 {
        lemma_nth(n, (k - 1) as nat);
    }
}

/// A registry over the plain values of what it holds.
pub open spec fn views<V: View>(r: RegistryView<V>) -> RegistryView<V::V> {
    RegistryView { items: r.items.map_values(|v: V| v@), next: r.next }
}

/// Adding, replacing, removing and finding a value are, over plain values, the same.
pub broadcast proof fn lemma_views_added<V: View>(r: RegistryView<V>, v: V)
    ensures
        #[trigger] views(r.added(v)) == views(r).added(v@),
{
    assert(views(r.added(v)).items =~= views(r).added(v@).items);
}

pub broadcast proof fn lemma_views_with<V: View>(r: RegistryView<V>, id: u32, v: V)
    ensures
        #[trigger] views(r.with(id, v)) == views(r).with(id, v@),
{
    assert(views(r.with(id, v)).items =~= views(r).with(id, v@).items);
}

pub broadcast proof fn lemma_views_without<V: View>(r: RegistryView<V>, id: u32)
    ensures
        #[trigger] views(r.without(id)) == views(r).without(id),
{
    assert(views(r.without(id)).items =~= views(r).without(id).items);
}

pub broadcast proof fn lemma_views_found<V: View>(r: RegistryView<V>, id: u32)
    ensures
        #![trigger views(r).found(id)]
        #![trigger r.found(id), views(r)]
        views(r).found(id) == match r.found(id) {
            Some(v) => Some(v@),
            None => None,
        },
{
}

/// Putting a value back where it was taken from is replacing it.
pub broadcast proof fn lemma_put_back<V>(r: RegistryView<V>, id: u32, v: V)
    ensures
        #[trigger] r.without(id).with(id, v) == r.with(id, v),
{
    assert(r.without(id).with(id, v).items =~= r.with(id, v).items);
}

/// Putting the same value back leaves a registry as it was.
pub broadcast proof fn lemma_put_same<V>(r: RegistryView<V>, id: u32)
    requires
        r.items.dom().contains(id),
    ensures
        #[trigger] r.with(id, r.items[id]) == r,
{
    assert(r.with(id, r.items[id]).items =~= r.items);
}

pub broadcast group group_registry {
    lemma_views_added,
    lemma_views_with,
    lemma_views_without,
    lemma_views_found,
    lemma_put_back,
    lemma_put_same,
}

/// What is put under a number is found there, what is taken away is not, and all other numbers keep
/// what they have.
pub proof fn kept_values_are_found<V>(r: RegistryView<V>, id: u32, v: V, other: u32)
    ensures
        r.with(id, v).found(id) == Some(v),
        r.without(id).found(id) is None,
        other != id ==> r.with(id, v).found(other) == r.found(other),
        other != id ==> r.without(id).found(other) == r.found(other),
        r.with(id, v).next == r.next,
        r.without(id).next == r.next,
        r.next < u32::MAX ==> r.added(v).next == r.next + 1,
        r.next == u32::MAX ==> r.added(v).next == 0,
{
}

} // verus!
