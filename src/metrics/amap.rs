use crate::error::MetricsError;
use crate::metrics::{entries_map, find_entry, lemma_entries_map, lemma_entries_map_absent,
    lemma_entries_map_update, unique_keys};
use crate::text::{decimal, decimal_text};
use vstd::prelude::*;
use vstd::string::StringExecFns;

verus! {

/// The count after one more increment, wrapping from `i64::MAX` to `i64::MIN`.
pub open spec fn wrapping_inc(v: i64) -> i64 {
    if v == i64::MAX {
        i64::MIN
    } else {
        (v + 1) as i64
    }
}

/// Each entry written as `key: count, `, in order.
pub open spec fn entries_text(s: Seq<(String, i64)>) -> Seq<char>
    decreases s.len(),
{
    if s.len() == 0 {
        Seq::empty()
    } else {
        entries_text(s.drop_last()) + s.last().0@ + seq![':', ' '] + decimal(s.last().1 as int)
            + seq![',', ' ']
    }
}

/// A store of counters over a set of metric names fixed when it is made.
/// Every name starts at zero; incrementing a name outside the set fails.
pub struct AmapMetrics {
    data: Vec<(String, i64)>,
}

impl View for AmapMetrics {
    type V = Map<Seq<char>, i64>;

    closed spec fn view(&self) -> Map<Seq<char>, i64> {
        entries_map(self.data@)
    }
}

impl AmapMetrics {
    /// The store's internal consistency: each name is held once.
    pub closed spec fn wf(&self) -> bool {
        unique_keys(self.data@)
    }

    /// The counters in the order their names were first registered.
    pub closed spec fn entries(&self) -> Seq<(String, i64)> {
        self.data@
    }

    /// A store holding a zero counter for each distinct name of `metric_names`.
    pub fn new(metric_names: &[&str]) -> (r: AmapMetrics)
        ensures
            r.wf(),
            entries_map(r.entries()) == r@,
            forall|k: Seq<char>|
                r@.contains_key(k) <==> exists|i: int|
                    0 <= i < metric_names@.len() && (#[trigger] metric_names@[i])@ == k,
            forall|k: Seq<char>| #[trigger] r@.contains_key(k) ==> r@[k] == 0,
    {
        let mut data: Vec<(String, i64)> = Vec::new();
        let mut i: usize = 0;
        while i < metric_names.len()
            invariant
                i <= metric_names@.len(),
                unique_keys(data@),
                forall|k: Seq<char>|
                    entries_map(data@).contains_key(k) <==> exists|t: int|
                        0 <= t < i && (#[trigger] metric_names@[t])@ == k,
                forall|k: Seq<char>| #[trigger] entries_map(data@).contains_key(k) ==> entries_map(data@)[k] == 0,
            decreases metric_names@.len() - i,
        {
            let name: String = metric_names[i].to_owned();
            match find_entry(&data, &name) {
                Some(p) => {
                    proof {
                        lemma_entries_map(data@);
                        assert forall|k: Seq<char>|
                            (exists|t: int|
                                0 <= t < i + 1 && (#[trigger] metric_names@[t])@ == k) implies entries_map(data@).contains_key(k) by {
                            if k == name@ {
                                assert(data@[p as int].0@ == k);
                            } else {
                                let t = choose|t: int| 0 <= t < i + 1 && (#[trigger] metric_names@[t])@ == k;
                                assert(t < i);
                            }
                        }
                    }
                },
                None => {
                    proof {
                        lemma_entries_map_absent(data@, name@);
                    }
                    let ghost pre = data@;
                    data.push((name, 0));
                    proof {
                        assert(data@.drop_last() =~= pre);
                        assert forall|a: int, b: int|
                            0 <= a < data@.len() && 0 <= b < data@.len() && a != b implies (
                            #[trigger] data@[a]).0@ != (#[trigger] data@[b]).0@ by {
                            if a < pre.len() {
                                assert(data@[a] == pre[a]);
                            }
                            if b < pre.len() {
                                assert(data@[b] == pre[b]);
                            }
                        }
                        assert forall|k: Seq<char>|
                            (exists|t: int|
                                0 <= t < i + 1 && (#[trigger] metric_names@[t])@ == k) implies entries_map(data@).contains_key(k) by {
                            if k != name@ {
                                let t = choose|t: int| 0 <= t < i + 1 && (#[trigger] metric_names@[t])@ == k;
                                assert(t < i);
                            }
                        }
                        assert forall|k: Seq<char>|
                            entries_map(data@).contains_key(k) implies exists|t: int|
                                0 <= t < i + 1 && (#[trigger] metric_names@[t])@ == k by {
                            if k == name@ {
                                assert(metric_names@[i as int]@ == k);
                            }
                        }
                    }
                },
            }
            i = i + 1;
        }
        AmapMetrics { data }
    }

    /// Adds one to the counter of `key`, wrapping at `i64::MAX`; fails, and
    /// changes nothing, when `key` is not a registered name.
    pub fn increment(&mut self, key: &str) -> (r: Result<(), MetricsError>)
        requires
            old(self).wf(),
        ensures
            final(self).wf(),
            match r {
                Ok(()) => old(self)@.contains_key(key@) && final(self)@ == old(self)@.insert(
                    key@,
                    wrapping_inc(old(self)@[key@]),
                ),
                Err(e) => !old(self)@.contains_key(key@) && e == MetricsError::KeyNotFound
                    && final(self)@ == old(self)@,
            },
    {
        let key = key.to_owned();
        match find_entry(&self.data, &key) {
            Some(i) => {
                let v: i64 = self.data[i].1;
                let next: i64 = if v == i64::MAX {
                    i64::MIN
                } else {
                    v + 1
                };
                proof {
                    lemma_entries_map(self.data@);
                    lemma_entries_map_update(self.data@, i as int, next);
                }
                let name = self.data[i].0.clone();
                self.data.set(i, (name, next));
                Ok(())
            },
            None => {
                proof {
                    lemma_entries_map_absent(self.data@, key@);
                }
                Err(MetricsError::KeyNotFound)
            },
        }
    }

    /// Every counter written as `key: count, `, in registration order.
    pub fn to_string(&self) -> (r: String)
        ensures
            r@ == entries_text(self.entries()),
    {
        let mut s = String::new();
        let mut i: usize = 0;
        while i < self.data.len()
            invariant
                i <= self.data@.len(),
                s@ == entries_text(self.data@.subrange(0, i as int)),
            decreases self.data@.len() - i,
        {
            proof {
                reveal_strlit(": ");
                reveal_strlit(", ");
            }
            s.append(self.data[i].0.as_str());
            s.append(": ");
            let d = decimal_text(self.data[i].1);
            s.append(d.as_str());
            s.append(", ");
            proof {
                let post = self.data@.subrange(0, i + 1);
                assert(post.drop_last() =~= self.data@.subrange(0, i as int));
            }
            i = i + 1;
        }
        assert(self.data@.subrange(0, self.data@.len() as int) =~= self.data@);
        s
    }
}

} // verus!
