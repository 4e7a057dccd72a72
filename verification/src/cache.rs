//! Bounded keyed caches for the transport: send and receive packet
//! caches, the frame table, outstanding pings and NACK-response
//! cooldowns all map a `u64` key to a stamped value.
//!
//! The store is a list of distinct-keyed entries whose mathematical
//! image is a `Map`; a janitor drops every entry stamped before a
//! cutoff.

use vstd::prelude::*;

verus! {

/// A value the janitor can age out: it carries the wall-clock
/// millisecond it should be judged by.
pub trait Stamped {
    /// The moment this value is judged by, for specifications.
    spec fn stamp_spec(&self) -> u64;

    /// The moment this value is judged by.
    fn stamp(&self) -> (r: u64)
        ensures
            r == self.stamp_spec(),
    ;
}

/// The map an entry list denotes: later entries win, though a
/// well-formed cache never repeats a key.
pub open spec fn map_of<V>(entries: Seq<(u64, V)>) -> Map<u64, V>
    decreases entries.len(),
{
    if entries.len() == 0 {
        Map::empty()
    } else {
        map_of(entries.drop_last()).insert(entries.last().0, entries.last().1)
    }
}

/// Whether no two entries share a key.
pub open spec fn distinct_keys<V>(entries: Seq<(u64, V)>) -> bool {
    forall|i: int, j: int|
        0 <= i < j < entries.len() ==> (#[trigger] entries[i]).0 != (#[trigger] entries[j]).0
}

/// What an entry list with distinct keys denotes: each entry is in
/// the map, nothing else is, and the map is exactly as large as the
/// list.
proof fn lemma_map_of_char<V>(entries: Seq<(u64, V)>)
    requires
        distinct_keys(entries),
    ensures
        forall|i: int|
            0 <= i < entries.len() ==> map_of(entries).dom().contains(
                (#[trigger] entries[i]).0,
            ) && map_of(entries)[entries[i].0] == entries[i].1,
        forall|k: u64|
            map_of(entries).dom().contains(k) ==> exists|i: int|
                0 <= i < entries.len() && (#[trigger] entries[i]).0 == k,
        map_of(entries).dom().finite(),
        map_of(entries).dom().len() == entries.len(),
    decreases entries.len(),
{
    if entries.len() > 0 {
        let rest = entries.drop_last();
        assert(distinct_keys(rest)) by {
            assert(forall|i: int|
                0 <= i < rest.len() ==> rest[i] == (#[trigger] entries[i]));
        }
        lemma_map_of_char(rest);
        assert(!map_of(rest).dom().contains(entries.last().0)) by {
            if map_of(rest).dom().contains(entries.last().0) {
                let i = choose|i: int| 0 <= i < rest.len() && rest[i].0 == entries.last().0;
                assert(entries[i].0 == entries[entries.len() - 1].0);
            }
        }
        assert forall|i: int| 0 <= i < entries.len() implies map_of(entries).dom().contains(
            (#[trigger] entries[i]).0,
        ) && map_of(entries)[entries[i].0] == entries[i].1 by {
            if i < entries.len() - 1 {
                assert(rest[i] == entries[i]);
                assert(entries[i].0 != entries.last().0);
            }
        }
    }
}

/// A keyed cache with one entry per key.
pub struct CacheMap<V> {
    entries: Vec<(u64, V)>,
}

impl<V> View for CacheMap<V> {
    type V = Map<u64, V>;

    closed spec fn view(&self) -> Map<u64, V> {
        map_of(self.entries@)
    }
}

impl<V> CacheMap<V> {
    /// No key twice.
    pub closed spec fn wf(&self) -> bool {
        distinct_keys(self.entries@)
    }

    /// A well-formed cache maps finitely many keys.
    pub proof fn finite_dom(&self)
        requires
            self.wf(),
        ensures
            self@.dom().finite(),
    {
        lemma_map_of_char(self.entries@);
    }

    /// An empty cache.
    pub fn new() -> (r: CacheMap<V>)
        ensures
            r.wf(),
            r@ == Map::<u64, V>::empty(),
    {
        CacheMap { entries: Vec::new() }
    }

    /// Where `key` sits in the entry list.
    fn position(&self, key: u64) -> (r: Option<usize>)
        ensures
            match r {
                Some(i) => i < self.entries@.len() && self.entries@[i as int].0 == key,
                None => forall|i: int|
                    0 <= i < self.entries@.len() ==> (#[trigger] self.entries@[i]).0 != key,
            },
    {
        let mut i: usize = 0;
        while i < self.entries.len()
            invariant
                i <= self.entries@.len(),
                forall|j: int| 0 <= j < i ==> (#[trigger] self.entries@[j]).0 != key,
            decreases self.entries@.len() - i,
        {
            if self.entries[i].0 == key {
                return Some(i);
            }
            i = i + 1;
        }
        None
    }

    /// How many entries the cache holds.
    pub fn len(&self) -> (r: usize)
        requires
            self.wf(),
        ensures
            r == self@.dom().len(),
    {
        proof {
            lemma_map_of_char(self.entries@);
        }
        self.entries.len()
    }

    /// Whether `key` is cached.
    pub fn contains_key(&self, key: u64) -> (r: bool)
        requires
            self.wf(),
        ensures
            r == self@.dom().contains(key),
    {
        proof {
            lemma_map_of_char(self.entries@);
        }
        match self.position(key) {
            Some(_) => true,
            None => {
                assert(!self@.dom().contains(key)) by {
                    if self@.dom().contains(key) {
                        let i = choose|i: int|
                            0 <= i < self.entries@.len() && self.entries@[i].0 == key;
                    }
                }
                false
            },
        }
    }

    /// The cached value under `key`, if any.
    pub fn get(&self, key: u64) -> (r: Option<&V>)
        requires
            self.wf(),
        ensures
            match r {
                Some(v) => self@.dom().contains(key) && self@[key] == *v,
                None => !self@.dom().contains(key),
            },
    {
        proof {
            lemma_map_of_char(self.entries@);
        }
        match self.position(key) {
            Some(i) => Some(&self.entries[i].1),
            None => {
                assert(!self@.dom().contains(key)) by {
                    if self@.dom().contains(key) {
                        let i = choose|i: int|
                            0 <= i < self.entries@.len() && self.entries@[i].0 == key;
                    }
                }
                None
            },
        }
    }

    /// File `value` under `key`, displacing what was there.
    pub fn insert(&mut self, key: u64, value: V)
        requires
            old(self).wf(),
        ensures
            final(self).wf(),
            final(self)@ == old(self)@.insert(key, value),
    {
        proof {
            lemma_map_of_char(self.entries@);
        }
        match self.position(key) {
            Some(i) => {
                self.entries.set(i, (key, value));
                proof {
                    assert(distinct_keys(self.entries@)) by {
                        assert(forall|j: int|
                            0 <= j < self.entries@.len() && j != i ==> (
                            #[trigger] self.entries@[j]) == old(self).entries@[j]);
                    }
                    lemma_map_of_char(self.entries@);
                    assert forall|k: u64|
                        self@.dom().contains(k) <==> old(self)@.insert(
                            key,
                            value,
                        ).dom().contains(k) by {
                        if self@.dom().contains(k) {
                            let j = choose|j: int|
                                0 <= j < self.entries@.len() && self.entries@[j].0 == k;
                            if j != i {
                                assert(old(self).entries@[j].0 == k);
                            }
                        }
                        if old(self)@.dom().contains(k) {
                            let j = choose|j: int|
                                0 <= j < old(self).entries@.len() && old(
                                    self,
                                ).entries@[j].0 == k;
                            assert(self.entries@[j].0 == k);
                        }
                    }
                    assert forall|k: u64| self@.dom().contains(k) implies self@[k] == old(
                        self,
                    )@.insert(key, value)[k] by {
                        let j = choose|j: int|
                            0 <= j < self.entries@.len() && self.entries@[j].0 == k;
                        assert(self@[k] == self.entries@[j].1);
                        if j != i {
                            assert(old(self).entries@[j] == self.entries@[j]);
                        }
                    }
                    assert(self@ =~= old(self)@.insert(key, value));
                }
            },
            None => {
                self.entries.push((key, value));
                proof {
                    assert(self.entries@.drop_last() =~= old(self).entries@);
                    assert(distinct_keys(self.entries@)) by {
                        assert(forall|j: int|
                            0 <= j < old(self).entries@.len() ==> (#[trigger] self.entries@[j])
                                == old(self).entries@[j]);
                    }
                }
            },
        }
    }

    /// Take the value under `key` out of the cache.
    pub fn take(&mut self, key: u64) -> (r: Option<V>)
        requires
            old(self).wf(),
        ensures
            final(self).wf(),
            match r {
                Some(v) => {
                    &&& old(self)@.dom().contains(key)
                    &&& old(self)@[key] == v
                    &&& final(self)@ == old(self)@.remove(key)
                },
                None => {
                    &&& !old(self)@.dom().contains(key)
                    &&& final(self)@ == old(self)@
                },
            },
    {
        proof {
            lemma_map_of_char(self.entries@);
        }
        match self.position(key) {
            Some(i) => {
                let (_, value) = self.entries.remove(i);
                proof {
                    assert(distinct_keys(self.entries@)) by {
                        assert(forall|j: int|
                            0 <= j < self.entries@.len() ==> (#[trigger] self.entries@[j]) == (
                            if j < i {
                                old(self).entries@[j]
                            } else {
                                old(self).entries@[j + 1]
                            }));
                    }
                    lemma_map_of_char(self.entries@);
                    assert forall|k: u64|
                        self@.dom().contains(k) <==> old(self)@.remove(key).dom().contains(
                            k,
                        ) by {
                        if self@.dom().contains(k) {
                            let j = choose|j: int|
                                0 <= j < self.entries@.len() && self.entries@[j].0 == k;
                            if j < i {
                                assert(old(self).entries@[j].0 == k);
                            } else {
                                assert(old(self).entries@[j + 1].0 == k);
                            }
                        }
                        if old(self)@.dom().contains(k) && k != key {
                            let j = choose|j: int|
                                0 <= j < old(self).entries@.len() && old(
                                    self,
                                ).entries@[j].0 == k;
                            if j < i {
                                assert(self.entries@[j].0 == k);
                            } else {
                                assert(self.entries@[j - 1].0 == k);
                            }
                        }
                    }
                    assert forall|k: u64| self@.dom().contains(k) implies self@[k] == old(
                        self,
                    )@.remove(key)[k] by {
                        let j = choose|j: int|
                            0 <= j < self.entries@.len() && self.entries@[j].0 == k;
                        if j < i {
                            assert(self.entries@[j] == old(self).entries@[j]);
                        } else {
                            assert(self.entries@[j] == old(self).entries@[j + 1]);
                        }
                    }
                    assert(self@ =~= old(self)@.remove(key));
                }
                Some(value)
            },
            None => {
                assert(!self@.dom().contains(key)) by {
                    if self@.dom().contains(key) {
                        let i = choose|i: int|
                            0 <= i < self.entries@.len() && self.entries@[i].0 == key;
                    }
                }
                None
            },
        }
    }
}

/// The entries of `orig` at index `m` and beyond whose stamp is at
/// least `cutoff`, ordered from the last entry down — the order a
/// back-to-front sweep collects them in.
pub open spec fn survivors_from<V: Stamped>(
    orig: Seq<(u64, V)>,
    cutoff: u64,
    m: int,
) -> Seq<(u64, V)>
    decreases orig.len() - m,
{
    if m < 0 || m >= orig.len() {
        Seq::empty()
    } else {
        let above = survivors_from(orig, cutoff, m + 1);
        if orig[m].1.stamp_spec() >= cutoff {
            above.push(orig[m])
        } else {
            above
        }
    }
}

/// A sweep keeps at most one entry per index it visits.
proof fn lemma_survivors_len<V: Stamped>(orig: Seq<(u64, V)>, cutoff: u64, m: int)
    requires
        0 <= m,
    ensures
        survivors_from(orig, cutoff, m).len() <= orig.len() - m || survivors_from(
            orig,
            cutoff,
            m,
        ).len() == 0,
    decreases orig.len() - m,
{
    if m < orig.len() {
        lemma_survivors_len(orig, cutoff, m + 1);
    }
}

/// Everything a sweep keeps was a sufficiently fresh entry at index
/// `m` or beyond, and the kept keys are distinct.
#[verifier::spinoff_prover]
proof fn lemma_survivors_sound<V: Stamped>(orig: Seq<(u64, V)>, cutoff: u64, m: int)
    requires
        distinct_keys(orig),
        0 <= m,
    ensures
        forall|j: int|
            0 <= j < survivors_from(orig, cutoff, m).len() ==> exists|t: int|
                m <= t < orig.len() && orig[t] == (#[trigger] survivors_from(orig, cutoff, m)[j])
                    && orig[t].1.stamp_spec() >= cutoff,
        distinct_keys(survivors_from(orig, cutoff, m)),
    decreases orig.len() - m,
{
    let out = survivors_from(orig, cutoff, m);
    if m >= orig.len() {
        assert(out.len() == 0);
    } else {
        lemma_survivors_sound(orig, cutoff, m + 1);
        let above = survivors_from(orig, cutoff, m + 1);
        if orig[m].1.stamp_spec() >= cutoff {
            assert(out == above.push(orig[m]));
            assert forall|j: int| 0 <= j < out.len() implies exists|t: int|
                m <= t < orig.len() && orig[t] == (#[trigger] out[j]) && orig[t].1.stamp_spec()
                    >= cutoff by {
                if j < above.len() {
                    assert(out[j] == above[j]);
                    let t = choose|t: int|
                        m + 1 <= t < orig.len() && orig[t] == above[j] && orig[t].1.stamp_spec()
                            >= cutoff;
                    assert(m <= t < orig.len() && orig[t] == out[j]);
                } else {
                    assert(out[j] == orig[m]);
                }
            }
            assert forall|j1: int, j2: int| 0 <= j1 < j2 < out.len() implies (
            #[trigger] out[j1]).0 != (#[trigger] out[j2]).0 by {
                if j2 == out.len() - 1 {
                    assert(out[j1] == above[j1]);
                    let t = choose|t: int|
                        m + 1 <= t < orig.len() && orig[t] == above[j1]
                            && orig[t].1.stamp_spec() >= cutoff;
                    assert(orig[m].0 != orig[t].0);
                } else {
                    assert(out[j1] == above[j1] && out[j2] == above[j2]);
                }
            }
        } else {
            assert(out == above);
            assert forall|j: int| 0 <= j < out.len() implies exists|t: int|
                m <= t < orig.len() && orig[t] == (#[trigger] out[j]) && orig[t].1.stamp_spec()
                    >= cutoff by {
                assert(out[j] == above[j]);
                let t = choose|t: int|
                    m + 1 <= t < orig.len() && orig[t] == above[j] && orig[t].1.stamp_spec()
                        >= cutoff;
                assert(m <= t < orig.len() && orig[t] == out[j]);
            }
        }
    }
    assert forall|j: int| 0 <= j < survivors_from(orig, cutoff, m).len() implies exists|t: int|
        m <= t < orig.len() && orig[t] == (#[trigger] survivors_from(orig, cutoff, m)[j])
            && orig[t].1.stamp_spec() >= cutoff by {
        assert(survivors_from(orig, cutoff, m)[j] == out[j]);
        let t = choose|t: int|
            m <= t < orig.len() && orig[t] == out[j] && orig[t].1.stamp_spec() >= cutoff;
        assert(m <= t < orig.len() && orig[t] == survivors_from(orig, cutoff, m)[j]);
    }
}

/// Every sufficiently fresh entry at index `m` or beyond is kept by
/// the sweep.
#[verifier::spinoff_prover]
proof fn lemma_survivors_complete<V: Stamped>(orig: Seq<(u64, V)>, cutoff: u64, m: int)
    requires
        0 <= m,
    ensures
        forall|t: int|
            m <= t < orig.len() && (#[trigger] orig[t]).1.stamp_spec() >= cutoff ==> exists|j: int|
                0 <= j < survivors_from(orig, cutoff, m).len() && survivors_from(
                    orig,
                    cutoff,
                    m,
                )[j] == orig[t],
    decreases orig.len() - m,
{
    let out = survivors_from(orig, cutoff, m);
    if m < orig.len() {
        lemma_survivors_complete(orig, cutoff, m + 1);
        let above = survivors_from(orig, cutoff, m + 1);
        assert forall|t: int|
            m <= t < orig.len() && (#[trigger] orig[t]).1.stamp_spec()
                >= cutoff implies exists|j: int| 0 <= j < out.len() && out[j] == orig[t] by {
            if t == m {
                assert(out[out.len() - 1] == orig[m]);
            } else {
                let j = choose|j: int| 0 <= j < above.len() && above[j] == orig[t];
                if orig[m].1.stamp_spec() >= cutoff {
                    assert(out[j] == orig[t]);
                } else {
                    assert(out == above);
                }
            }
        }
    }
}

impl<V: Stamped> CacheMap<V> {
    /// Drop every entry stamped before `cutoff`; the rest keep their
    /// values.
    #[verifier::rlimit(50)]
    pub fn prune_older(&mut self, cutoff: u64)
        requires
            old(self).wf(),
        ensures
            final(self).wf(),
            forall|k: u64|
                final(self)@.dom().contains(k) <==> old(self)@.dom().contains(k) && old(
                    self,
                )@[k].stamp_spec() >= cutoff,
            forall|k: u64|
                final(self)@.dom().contains(k) ==> final(self)@[k] == old(self)@[k],
            final(self)@.dom().len() <= old(self)@.dom().len(),
            old(self)@.dom().finite(),
            final(self)@.dom().finite(),
    {
        let ghost orig = self.entries@;
        let mut kept: Vec<(u64, V)> = Vec::new();
        while self.entries.len() > 0
            invariant
                self.entries@.len() <= orig.len(),
                self.entries@ == orig.take(self.entries@.len() as int),
                kept@ == survivors_from(orig, cutoff, self.entries@.len() as int),
            decreases self.entries@.len(),
        {
            let ghost n = self.entries@.len() as int;
            let ghost p = n - 1;
            proof {
                assert(orig.take(n)[p] == orig[p]);
            }
            let entry = self.entries.pop().unwrap();
            proof {
                assert(entry == orig[p]);
                assert(self.entries@ =~= orig.take(p));
            }
            if entry.1.stamp() >= cutoff {
                kept.push(entry);
            }
        }
        proof {
            lemma_survivors_sound(orig, cutoff, 0);
            lemma_survivors_complete(orig, cutoff, 0);
            lemma_survivors_len(orig, cutoff, 0);
            assert(kept@ == survivors_from(orig, cutoff, 0));
        }
        self.entries = kept;
        proof {
            lemma_map_of_char(orig);
            lemma_map_of_char(self.entries@);
            assert forall|k: u64| #![all_triggers]
                self@.dom().contains(k) <==> old(self)@.dom().contains(k) && old(
                    self,
                )@[k].stamp_spec() >= cutoff by {
                if self@.dom().contains(k) {
                    let j = choose|j: int|
                        0 <= j < self.entries@.len() && self.entries@[j].0 == k;
                    let t = choose|t: int|
                        0 <= t < orig.len() && orig[t] == self.entries@[j]
                            && orig[t].1.stamp_spec() >= cutoff;
                    assert(old(self)@[k] == orig[t].1);
                }
                if old(self)@.dom().contains(k) && old(self)@[k].stamp_spec() >= cutoff {
                    let t = choose|t: int| 0 <= t < orig.len() && orig[t].0 == k;
                    assert(orig[t].1 == old(self)@[k]);
                    let j = choose|j: int|
                        0 <= j < self.entries@.len() && self.entries@[j] == orig[t];
                }
            }
            assert forall|k: u64| self@.dom().contains(k) implies self@[k] == old(self)@[k] by {
                let j = choose|j: int|
                    0 <= j < self.entries@.len() && self.entries@[j].0 == k;
                let t = choose|t: int|
                    0 <= t < orig.len() && orig[t] == self.entries@[j]
                        && orig[t].1.stamp_spec() >= cutoff;
                assert(self@[k] == self.entries@[j].1);
                assert(old(self)@[k] == orig[t].1);
            }
        }
    }
}


/// A bare millisecond value ages by itself.
impl Stamped for u64 {
    open spec fn stamp_spec(&self) -> u64 {
        *self
    }

    fn stamp(&self) -> (r: u64)
        ensures
            r == self.stamp_spec(),
    {
        *self
    }
}

} // verus!
