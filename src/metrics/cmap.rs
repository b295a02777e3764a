use crate::metrics::{count_of, fits_count, no_counts};
use dashmap::DashMap;
use vstd::prelude::*;

verus! {

#[verifier::external_type_specification]
#[verifier::external_body]
#[verifier::reject_recursive_types(K)]
#[verifier::reject_recursive_types(V)]
#[verifier::reject_recursive_types(S)]
pub struct ExDashMap<K, V, S>(DashMap<K, V, S>);

/// The key-to-value mapping that a concurrent map holds, keys read as text.
pub uninterp spec fn dash_contents(m: DashMap<String, i64>) -> Map<Seq<char>, i64>;

/// Relies on `DashMap::new`: a map with no entries.
#[verifier::external_body]
fn dash_new() -> (r: DashMap<String, i64>)
    ensures
        dash_contents(r) == no_counts(),
{
    DashMap::new()
}

/// Relies on `DashMap::get`: the value stored under a key equal to `key`, if any.
#[verifier::external_body]
fn dash_get(m: &DashMap<String, i64>, key: &String) -> (r: Option<i64>)
    ensures
        r == (if dash_contents(*m).contains_key(key@) {
            Some(dash_contents(*m)[key@])
        } else {
            None::<i64>
        }),
{
    m.get(key).map(|v| *v)
}

/// Relies on `DashMap::insert`: afterwards `key` maps to `value`, every other
/// key keeps its value.
#[verifier::external_body]
fn dash_insert(m: &mut DashMap<String, i64>, key: String, value: i64)
    ensures
        dash_contents(*final(m)) == dash_contents(*old(m)).insert(key@, value),
{
    m.insert(key, value);
}

/// Relies on `DashMap::clear`: every entry is removed.
#[verifier::external_body]
fn dash_clear(m: &mut DashMap<String, i64>)
    ensures
        dash_contents(*final(m)) == no_counts(),
{
    m.clear();
}

/// Relies on `DashMap`'s `Clone`: a separate map with the same entries.
#[verifier::external_body]
fn dash_clone(m: &DashMap<String, i64>) -> (r: DashMap<String, i64>)
    ensures
        dash_contents(r) == dash_contents(*m),
{
    m.clone()
}

/// A store of named signed counters held in a concurrent hash map. A key that
/// was never touched reads as absent; the first increment or decrement of a
/// key starts it from zero.
pub struct CmapMetrics {
    data: DashMap<String, i64>,
}

impl View for CmapMetrics {
    type V = Map<Seq<char>, i64>;

    closed spec fn view(&self) -> Map<Seq<char>, i64> {
        dash_contents(self.data)
    }
}

impl CmapMetrics {
    /// An empty store.
    pub fn new() -> (r: CmapMetrics)
        ensures
            r@ == no_counts(),
    {
        CmapMetrics { data: dash_new() }
    }

    /// Adds `delta` to the counter of `key`, starting it from zero when absent.
    fn add(&mut self, key: &str, delta: i64)
        requires
            fits_count(old(self)@, key@, delta as int),
        ensures
            final(self)@ == old(self)@.insert(key@, (count_of(old(self)@, key@) + delta) as i64),
    {
        let key = key.to_owned();
        let count: i64 = match dash_get(&self.data, &key) {
            Some(v) => v + delta,
            None => delta,
        };
        dash_insert(&mut self.data, key, count);
    }

    /// Adds one to the counter of `key`.
    pub fn increment(&mut self, key: &str)
        requires
            fits_count(old(self)@, key@, 1),
        ensures
            final(self)@ == old(self)@.insert(key@, (count_of(old(self)@, key@) + 1) as i64),
    {
        self.add(key, 1);
    }

    /// Subtracts one from the counter of `key`.
    pub fn decrement(&mut self, key: &str)
        requires
            fits_count(old(self)@, key@, -1),
        ensures
            final(self)@ == old(self)@.insert(key@, (count_of(old(self)@, key@) - 1) as i64),
    {
        self.add(key, -1);
    }

    /// A separate map holding every key with its count.
    pub fn snapshot(&self) -> (r: DashMap<String, i64>)
        ensures
            dash_contents(r) == self@,
    {
        dash_clone(&self.data)
    }

    /// Removes every counter.
    pub fn clear(&mut self)
        ensures
            final(self)@ == no_counts(),
    {
        dash_clear(&mut self.data);
    }
}

impl Default for CmapMetrics {
    fn default() -> (r: CmapMetrics)
        ensures
            r@ == no_counts(),
    {
        CmapMetrics::new()
    }
}

} // verus!
