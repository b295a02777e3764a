use vstd::prelude::*;

pub mod amap;
pub mod cmap;

verus! {

/// The map from key text to count that a list of entries stands for; a later
/// entry for a key overrides an earlier one.
pub open spec fn entries_map(s: Seq<(String, i64)>) -> Map<Seq<char>, i64>
    decreases s.len(),
{
    if s.len() == 0 {
        Map::empty()
    } else {
        entries_map(s.drop_last()).insert(s.last().0@, s.last().1)
    }
}

/// No key text occurs twice among the entries.
pub open spec fn unique_keys(s: Seq<(String, i64)>) -> bool {
    forall|i: int, j: int|
        0 <= i < s.len() && 0 <= j < s.len() && i != j ==> (#[trigger] s[i]).0@ != (#[trigger] s[j]).0@
}

/// With unique keys, the map holds exactly the entries' keys, each with its
/// entry's count.
pub proof fn lemma_entries_map(s: Seq<(String, i64)>)
    requires
        unique_keys(s),
    ensures
        forall|i: int|
            0 <= i < s.len() ==> entries_map(s).contains_key((#[trigger] s[i]).0@) && entries_map(
                s,
            )[s[i].0@] == s[i].1,
        forall|k: Seq<char>|
            #[trigger] entries_map(s).contains_key(k) ==> exists|i: int|
                0 <= i < s.len() && (#[trigger] s[i]).0@ == k,
    decreases s.len(),
{
    if s.len() > 0 {
        let rest = s.drop_last();
        assert(unique_keys(rest)) by {
            assert forall|i: int, j: int|
                0 <= i < rest.len() && 0 <= j < rest.len() && i != j implies (#[trigger] rest[i]).0@
                != (#[trigger] rest[j]).0@ by {
                assert(rest[i] == s[i]);
                assert(rest[j] == s[j]);
            }
        }
        lemma_entries_map(rest);
        assert forall|i: int|
            0 <= i < s.len() implies entries_map(s).contains_key((#[trigger] s[i]).0@) && entries_map(
            s,
        )[s[i].0@] == s[i].1 by {
            if i < s.len() - 1 {
                assert(rest[i] == s[i]);
                assert(s[i].0@ != s[s.len() - 1].0@);
            }
        }
        assert forall|k: Seq<char>| #[trigger] entries_map(s).contains_key(k) implies exists|i: int|
            0 <= i < s.len() && (#[trigger] s[i]).0@ == k by {
            if k != s.last().0@ {
                assert(entries_map(rest).contains_key(k));
                let i = choose|i: int| 0 <= i < rest.len() && (#[trigger] rest[i]).0@ == k;
                assert(rest[i] == s[i]);
            } else {
                assert(s[s.len() - 1].0@ == k);
                assert(0 <= s.len() - 1 < s.len());
            }
        }
    }
}

/// A key that no entry holds is not in the map.
pub proof fn lemma_entries_map_absent(s: Seq<(String, i64)>, k: Seq<char>)
    requires
        forall|i: int| 0 <= i < s.len() ==> (#[trigger] s[i]).0@ != k,
    ensures
        !entries_map(s).contains_key(k),
    decreases s.len(),
{
    if s.len() > 0 {
        let rest = s.drop_last();
        assert forall|i: int| 0 <= i < rest.len() implies (#[trigger] rest[i]).0@ != k by {
            assert(rest[i] == s[i]);
        }
        lemma_entries_map_absent(rest, k);
        assert(s[s.len() - 1].0@ != k);
    }
}

/// Replacing the count of entry `i` replaces the count of its key.
pub proof fn lemma_entries_map_update(s: Seq<(String, i64)>, i: int, v: i64)
    requires
        unique_keys(s),
        0 <= i < s.len(),
    ensures
        entries_map(s.update(i, (s[i].0, v))) == entries_map(s).insert(s[i].0@, v),
        unique_keys(s.update(i, (s[i].0, v))),
    decreases s.len(),
{
    let t = s.update(i, (s[i].0, v));
    assert(unique_keys(t)) by {
        assert forall|a: int, b: int|
            0 <= a < t.len() && 0 <= b < t.len() && a != b implies (#[trigger] t[a]).0@
            != (#[trigger] t[b]).0@ by {
            assert(t[a].0 == s[a].0);
            assert(t[b].0 == s[b].0);
        }
    }
    let rest = s.drop_last();
    assert(unique_keys(rest)) by {
        assert forall|a: int, b: int|
            0 <= a < rest.len() && 0 <= b < rest.len() && a != b implies (#[trigger] rest[a]).0@
            != (#[trigger] rest[b]).0@ by {
            assert(rest[a] == s[a]);
            assert(rest[b] == s[b]);
        }
    }
    if i == s.len() - 1 {
        assert(t.drop_last() =~= rest);
        assert(entries_map(t) =~= entries_map(s).insert(s[i].0@, v));
    } else {
        lemma_entries_map_update(rest, i, v);
        assert(t.drop_last() =~= rest.update(i, (rest[i].0, v)));
        assert(rest[i] == s[i]);
        assert(s[i].0@ != s[s.len() - 1].0@);
        assert(entries_map(t) =~= entries_map(s).insert(s[i].0@, v));
    }
}

/// The position of the entry whose key text is `key`, if any.
pub(crate) fn find_entry(entries: &Vec<(String, i64)>, key: &String) -> (r: Option<usize>)
    ensures
        match r {
            Some(i) => i < entries@.len() && entries@[i as int].0@ == key@,
            None => forall|i: int| 0 <= i < entries@.len() ==> (#[trigger] entries@[i]).0@ != key@,
        },
{
    let mut i: usize = 0;
    while i < entries.len()
        invariant
            i <= entries@.len(),
            forall|t: int| 0 <= t < i ==> (#[trigger] entries@[t]).0@ != key@,
        decreases entries@.len() - i,
    {
        if entries[i].0 == *key {
            return Some(i);
        }
        i = i + 1;
    }
    None
}

/// A store of named signed counters. A key that was never touched reads as
/// absent; the first increment or decrement of a key starts it from zero.
pub struct Metrics {
    data: Vec<(String, i64)>,
}

impl View for Metrics {
    type V = Map<Seq<char>, i64>;

    closed spec fn view(&self) -> Map<Seq<char>, i64> {
        entries_map(self.data@)
    }
}

impl Metrics {
    /// The store's internal consistency: each key is held once.
    pub closed spec fn wf(&self) -> bool {
        unique_keys(self.data@)
    }

    /// An empty store.
    pub fn new() -> (r: Metrics)
        ensures
            r.wf(),
            r@ == no_counts(),
    {
        Metrics { data: Vec::new() }
    }

    /// Adds `delta` to the counter of `key`, starting it from zero when absent.
    fn add(&mut self, key: &str, delta: i64)
        requires
            old(self).wf(),
            fits_count(old(self)@, key@, delta as int),
        ensures
            final(self).wf(),
            final(self)@ == old(self)@.insert(key@, (count_of(old(self)@, key@) + delta) as i64),
    {
        let key = key.to_owned();
        match find_entry(&self.data, &key) {
            Some(i) => {
                proof {
                    lemma_entries_map(self.data@);
                    lemma_entries_map_update(self.data@, i as int, (self.data@[i as int].1 + delta) as i64);
                }
                let name = self.data[i].0.clone();
                let count: i64 = self.data[i].1 + delta;
                self.data.set(i, (name, count));
            },
            None => {
                proof {
                    lemma_entries_map_absent(self.data@, key@);
                }
                let ghost pre = self.data@;
                self.data.push((key, delta));
                proof {
                    assert(self.data@.drop_last() =~= pre);
                    assert forall|a: int, b: int|
                        0 <= a < self.data@.len() && 0 <= b < self.data@.len() && a != b implies (
                        #[trigger] self.data@[a]).0@ != (#[trigger] self.data@[b]).0@ by {
                        if a < pre.len() {
                            assert(self.data@[a] == pre[a]);
                        }
                        if b < pre.len() {
                            assert(self.data@[b] == pre[b]);
                        }
                    }
                }
            },
        }
    }

    /// Adds one to the counter of `key`.
    pub fn increment(&mut self, key: &str)
        requires
            old(self).wf(),
            fits_count(old(self)@, key@, 1),
        ensures
            final(self).wf(),
            final(self)@ == old(self)@.insert(key@, (count_of(old(self)@, key@) + 1) as i64),
    {
        self.add(key, 1);
    }

    /// Subtracts one from the counter of `key`.
    pub fn decrement(&mut self, key: &str)
        requires
            old(self).wf(),
            fits_count(old(self)@, key@, -1),
        ensures
            final(self).wf(),
            final(self)@ == old(self)@.insert(key@, (count_of(old(self)@, key@) - 1) as i64),
    {
        self.add(key, -1);
    }

    /// A copy of every key with its count, each key once.
    pub fn snapshot(&self) -> (r: Vec<(String, i64)>)
        requires
            self.wf(),
        ensures
            unique_keys(r@),
            entries_map(r@) == self@,
    {
        let mut out: Vec<(String, i64)> = Vec::new();
        let mut i: usize = 0;
        while i < self.data.len()
            invariant
                i <= self.data@.len(),
                out@.len() == i,
                forall|t: int| 0 <= t < i ==> (#[trigger] out@[t]).0@ == self.data@[t].0@ && out@[t].1 == self.data@[t].1,
            decreases self.data@.len() - i,
        {
            let name = self.data[i].0.clone();
            out.push((name, self.data[i].1));
            i = i + 1;
        }
        proof {
            lemma_same_entries(out@, self.data@);
        }
        out
    }

    /// Removes every counter.
    pub fn clear(&mut self)
        ensures
            final(self).wf(),
            final(self)@ == no_counts(),
    {
        self.data = Vec::new();
    }
}

impl Default for Metrics {
    fn default() -> (r: Metrics)
        ensures
            r.wf(),
            r@ == no_counts(),
    {
        Metrics::new()
    }
}

/// The map with no counters.
pub open spec fn no_counts() -> Map<Seq<char>, i64> {
    Map::empty()
}

/// The count held for `key`, zero when absent.
pub open spec fn count_of(m: Map<Seq<char>, i64>, key: Seq<char>) -> int {
    if m.contains_key(key) {
        m[key] as int
    } else {
        0
    }
}

/// Adding `delta` to the count of `key` stays within `i64`.
pub open spec fn fits_count(m: Map<Seq<char>, i64>, key: Seq<char>, delta: int) -> bool {
    i64::MIN <= count_of(m, key) + delta <= i64::MAX
}

/// Two entry lists with the same key texts and counts, position by position,
/// stand for the same map and keep keys unique alike.
pub proof fn lemma_same_entries(s: Seq<(String, i64)>, t: Seq<(String, i64)>)
    requires
        s.len() == t.len(),
        forall|i: int| 0 <= i < s.len() ==> (#[trigger] s[i]).0@ == t[i].0@ && s[i].1 == t[i].1,
    ensures
        entries_map(s) == entries_map(t),
        unique_keys(s) == unique_keys(t),
    decreases s.len(),
{
    if s.len() > 0 {
        lemma_same_entries(s.drop_last(), t.drop_last());
        assert(s[s.len() - 1].0@ == t[t.len() - 1].0@);
    }
    if unique_keys(t) {
        assert forall|i: int, j: int|
            0 <= i < s.len() && 0 <= j < s.len() && i != j implies (#[trigger] s[i]).0@
            != (#[trigger] s[j]).0@ by {
            assert(t[i].0@ != t[j].0@);
        }
    }
    if unique_keys(s) {
        assert forall|i: int, j: int|
            0 <= i < t.len() && 0 <= j < t.len() && i != j implies (#[trigger] t[i]).0@
            != (#[trigger] t[j]).0@ by {
            assert(s[i].0@ != s[j].0@);
        }
    }
}

} // verus!
