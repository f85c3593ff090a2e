//! A table of entries by socket address that expire when they are not used.

use crate::net::SocketAddr;
use crate::time::{Duration, Instant};
use vstd::prelude::*;

verus! {

/// An entry with the time of its last use.
#[derive(Debug)]
pub struct IdleEntry<V> {
    pub key: SocketAddr,
    pub last: Instant,
    pub value: V,
}

/// Entries by address, no address twice.
#[derive(Debug)]
pub struct IdleTable<V> {
    entries: Vec<IdleEntry<V>>,
}

impl<V> View for IdleTable<V> {
    type V = Seq<IdleEntry<V>>;

    closed spec fn view(&self) -> Seq<IdleEntry<V>> {
        self.entries@
    }
}

/// How long an entry has not been used.
pub open spec fn unused(last: Instant, now: Instant) -> nat {
    if now.nanos >= last.nanos {
        (now.nanos - last.nanos) as nat
    } else {
        0
    }
}

pub open spec fn has_key<V>(s: Seq<IdleEntry<V>>, key: SocketAddr) -> bool {
    exists|i: int| 0 <= i < s.len() && (#[trigger] s[i]).key == key
}

pub open spec fn distinct_keys<V>(s: Seq<IdleEntry<V>>) -> bool {
    forall|i: int, j: int|
        #![trigger s[i], s[j]]
        0 <= i < j < s.len() ==> s[i].key != s[j].key
}

/// The entries that were used recently enough, in order.
pub open spec fn in_use<V>(s: Seq<IdleEntry<V>>, now: Instant, limit: Duration) -> Seq<
    IdleEntry<V>,
>
    decreases s.len(),
{
    if s.len() == 0 {
        Seq::empty()
    } else {
        let front = in_use(s.drop_last(), now, limit);
        if unused(s.last().last, now) < limit.nanos {
            front.push(s.last())
        } else {
            front
        }
    }
}

/// The entries that have not been used for too long, in order.
pub open spec fn out_of_use<V>(s: Seq<IdleEntry<V>>, now: Instant, limit: Duration) -> Seq<
    IdleEntry<V>,
>
    decreases s.len(),
{
    if s.len() == 0 {
        Seq::empty()
    } else {
        let front = out_of_use(s.drop_last(), now, limit);
        if unused(s.last().last, now) < limit.nanos {
            front
        } else {
            front.push(s.last())
        }
    }
}

/// No entry was last used earlier.
pub open spec fn is_least_recent<V>(s: Seq<IdleEntry<V>>, k: int) -> bool {
    &&& 0 <= k < s.len()
    &&& forall|i: int| 0 <= i < s.len() ==> s[k].last.nanos <= (#[trigger] s[i]).last.nanos
}

/// The time until the first entry expires.
pub open spec fn soonest<V>(s: Seq<IdleEntry<V>>, now: Instant, limit: Duration) -> Option<nat>
    decreases s.len(),
{
    if s.len() == 0 {
        None
    } else {
        let left = if unused(s.last().last, now) < limit.nanos {
            (limit.nanos - unused(s.last().last, now)) as nat
        } else {
            0
        };
        match soonest(s.drop_last(), now, limit) {
            Some(t) => Some(
                if left < t {
                    left
                } else {
                    t
                },
            ),
            None => Some(left),
        }
    }
}

pub proof fn lemma_in_use<V>(s: Seq<IdleEntry<V>>, now: Instant, limit: Duration)
    ensures
        in_use(s, now, limit).len() <= s.len(),
        distinct_keys(s) ==> distinct_keys(in_use(s, now, limit)),
        forall|i: int|
            0 <= i < in_use(s, now, limit).len() ==> has_key(
                s,
                (#[trigger] in_use(s, now, limit)[i]).key,
            ) && unused(in_use(s, now, limit)[i].last, now) < limit.nanos,
        in_use(s, now, limit).len() + out_of_use(s, now, limit).len() == s.len(),
    decreases s.len(),
{
    if s.len() > 0 {
        let p = s.drop_last();
        lemma_in_use(p, now, limit);
        let front = in_use(p, now, limit);
        let all = in_use(s, now, limit);
        assert forall|i: int| 0 <= i < all.len() implies has_key(s, (#[trigger] all[i]).key)
            && unused(all[i].last, now) < limit.nanos by {
            if i < front.len() {
                assert(all[i] == front[i]);
                let j = choose|j: int| 0 <= j < p.len() && (#[trigger] p[j]).key == front[i].key;
                assert(s[j].key == all[i].key);
            } else {
                assert(s[s.len() - 1].key == all[i].key);
            }
        }
        if distinct_keys(s) {
            assert(distinct_keys(p)) by {
                assert forall|i: int, j: int|
                    #![trigger p[i], p[j]]
                    0 <= i < j < p.len() implies p[i].key != p[j].key by {
                    assert(s[i].key != s[j].key);
                }
            }
            assert forall|i: int, j: int|
                #![trigger all[i], all[j]]
                0 <= i < j < all.len() implies all[i].key != all[j].key by {
                if j < front.len() {
                    assert(front[i].key != front[j].key);
                } else {
                    assert(all[i] == front[i]);
                    let k = choose|k: int|
                        0 <= k < p.len() && (#[trigger] p[k]).key == front[i].key;
                    assert(s[k].key != s[s.len() - 1].key);
                }
            }
        }
    }
}

impl<V> IdleTable<V> {
    pub open spec fn wf(self) -> bool {
        distinct_keys(self@)
    }

    pub fn new() -> (r: IdleTable<V>)
        ensures
            r.wf(),
            r@ == Seq::<IdleEntry<V>>::empty(),
    {
        IdleTable { entries: Vec::new() }
    }

    pub fn len(&self) -> (r: usize)
        ensures
            r == self@.len(),
    {
        self.entries.len()
    }

    /// The place of an entry.
    pub fn find(&self, key: SocketAddr) -> (r: Option<usize>)
        ensures
            match r {
                Some(i) => i < self@.len() && self@[i as int].key == key,
                None => !has_key(self@, key),
            },
    {
        let mut i: usize = 0;
        while i < self.entries.len()
            invariant
                i <= self@.len(),
                self@ == self.entries@,
                forall|j: int| 0 <= j < i ==> (#[trigger] self@[j]).key != key,
            decreases self@.len() - i,
        {
            if self.entries[i].key == key {
                return Some(i);
            }
            i = i + 1;
        }
        None
    }

    /// The address of an entry.
    pub fn key(&self, i: usize) -> (r: SocketAddr)
        requires
            i < self@.len(),
        ensures
            r == self@[i as int].key,
    {
        self.entries[i].key
    }

    /// The value of an entry.
    pub fn value(&self, i: usize) -> (r: &V)
        requires
            i < self@.len(),
        ensures
            *r == self@[i as int].value,
    {
        &self.entries[i].value
    }

    /// The value of an entry, to be changed.
    pub fn value_mut(&mut self, i: usize) -> (r: &mut V)
        requires
            i < old(self)@.len(),
        ensures
            *r == old(self)@[i as int].value,
            final(self)@ == old(self)@.update(
                i as int,
                IdleEntry {
                    key: old(self)@[i as int].key,
                    last: old(self)@[i as int].last,
                    value: *final(r),
                },
            ),
    {
        &mut self.entries[i].value
    }

    /// An entry has been used.
    pub fn touch(&mut self, i: usize, now: Instant)
        requires
            old(self).wf(),
            i < old(self)@.len(),
        ensures
            final(self).wf(),
            final(self)@ == old(self)@.update(
                i as int,
                IdleEntry { last: now, ..old(self)@[i as int] },
            ),
    {
        self.entries[i].last = now;
        assert(self@ == old(self)@.update(
            i as int,
            IdleEntry { last: now, ..old(self)@[i as int] },
        ));
    }

    /// Puts in an entry whose address is not there yet.
    pub fn insert(&mut self, key: SocketAddr, now: Instant, value: V)
        requires
            old(self).wf(),
            !has_key(old(self)@, key),
        ensures
            final(self).wf(),
            final(self)@ == old(self)@.push(IdleEntry { key, last: now, value }),
    {
        self.entries.push(IdleEntry { key, last: now, value });
        proof {
            let s = old(self)@;
            let t = self@;
            assert forall|i: int, j: int|
                #![trigger t[i], t[j]]
                0 <= i < j < t.len() implies t[i].key != t[j].key by {
                if j < s.len() {
                    assert(s[i].key != s[j].key);
                } else {
                    assert(s[i].key != key);
                }
            }
        }
    }

    /// Takes out the entries that have not been used for `limit`.
    pub fn expire(&mut self, now: Instant, limit: Duration) -> (r: Vec<IdleEntry<V>>)
        requires
            old(self).wf(),
        ensures
            final(self).wf(),
            final(self)@ == in_use(old(self)@, now, limit),
            r@ == out_of_use(old(self)@, now, limit),
    {
        let ghost start = self@;
        let mut gone: Vec<IdleEntry<V>> = Vec::new();
        let mut i: usize = 0;
        let ghost mut k: int = 0;
        assert(start.skip(0) == start);
        assert(start.take(0).len() == 0);
        while i < self.entries.len()
            invariant
                start == old(self)@,
                0 <= k <= start.len(),
                i <= self.entries@.len(),
                self.entries@.take(i as int) == in_use(start.take(k), now, limit),
                self.entries@.skip(i as int) == start.skip(k),
                gone@ == out_of_use(start.take(k), now, limit),
                self.entries@.len() - i == start.len() - k,
            decreases start.len() - k,
        {
            proof {
                assert(start.take(k + 1).drop_last() == start.take(k));
                assert(start.take(k + 1).last() == start[k]);
                assert(self.entries@.skip(i as int)[0] == start.skip(k)[0]);
                assert(self.entries@[i as int] == start[k]);
            }
            let ghost before = self.entries@;
            let age = now.since(self.entries[i].last);
            if age.nanos >= limit.nanos {
                let entry = self.entries.remove(i);
                assert(self.entries@.take(i as int) == before.take(i as int));
                assert(self.entries@.skip(i as int) == before.skip(i as int).drop_first());
                assert(start.skip(k).drop_first() == start.skip(k + 1));
                gone.push(entry);
            } else {
                i = i + 1;
                assert(before.take(i as int) == before.take(i - 1).push(before[i - 1]));
                assert(before.skip(i as int) == before.skip(i - 1).drop_first());
                assert(start.skip(k).drop_first() == start.skip(k + 1));
            }
            proof {
                k = k + 1;
            }
        }
        proof {
            assert(start.take(k) == start);
            assert(self.entries@.take(i as int) == self.entries@);
            lemma_in_use(start, now, limit);
        }
        gone
    }

    /// Takes out an entry that was used least recently.
    pub fn remove_oldest(&mut self) -> (r: Option<IdleEntry<V>>)
        requires
            old(self).wf(),
        ensures
            final(self).wf(),
            match r {
                Some(e) => exists|k: int| #[trigger]
                    is_least_recent(old(self)@, k) && e == old(self)@[k] && final(self)@ == old(
                        self,
                    )@.remove(k),
                None => old(self)@.len() == 0 && final(self)@ == old(self)@,
            },
    {
        if self.entries.len() == 0 {
            return None;
        }
        let ghost start = self@;
        let mut best: usize = 0;
        let mut i: usize = 1;
        while i < self.entries.len()
            invariant
                self.entries@ == start,
                best < i <= start.len(),
                forall|j: int|
                    0 <= j < i ==> start[best as int].last.nanos <= (#[trigger] start[j]).last.nanos,
            decreases start.len() - i,
        {
            if self.entries[i].last.nanos < self.entries[best].last.nanos {
                best = i;
            }
            i = i + 1;
        }
        assert(is_least_recent(start, best as int));
        let entry = self.entries.remove(best);
        proof {
            let t = self@;
            assert(t == start.remove(best as int));
            assert forall|a: int, b: int|
                #![trigger t[a], t[b]]
                0 <= a < b < t.len() implies t[a].key != t[b].key by {
                let x = if a < best {
                    a
                } else {
                    a + 1
                };
                let y = if b < best {
                    b
                } else {
                    b + 1
                };
                assert(start[x].key != start[y].key);
            }
        }
        Some(entry)
    }

    /// The time until the first entry expires.
    pub fn next_timeout(&self, now: Instant, limit: Duration) -> (r: Option<Duration>)
        ensures
            match r {
                Some(d) => soonest(self@, now, limit) == Some(d.nanos as nat),
                None => soonest(self@, now, limit) is None,
            },
    {
        let mut best: Option<Duration> = None;
        let mut i: usize = 0;
        while i < self.entries.len()
            invariant
                i <= self@.len(),
                self@ == self.entries@,
                match best {
                    Some(d) => soonest(self@.take(i as int), now, limit) == Some(d.nanos as nat),
                    None => soonest(self@.take(i as int), now, limit) is None,
                },
            decreases self@.len() - i,
        {
            proof {
                assert(self@.take(i + 1).drop_last() == self@.take(i as int));
                assert(self@.take(i + 1).last() == self@[i as int]);
            }
            let age = now.since(self.entries[i].last);
            let left = if age.nanos < limit.nanos {
                Duration { nanos: limit.nanos - age.nanos }
            } else {
                Duration { nanos: 0 }
            };
            best = match best {
                Some(d) => if left.nanos < d.nanos {
                    Some(left)
                } else {
                    Some(d)
                },
                None => Some(left),
            };
            i = i + 1;
        }
        assert(self@.take(i as int) == self@);
        best
    }
}

/// What is let go and what is kept are the entries that have been unused for the limit
/// and those that have not, each entry in one of the two.
pub proof fn law_entries_go_after_the_limit<V>(
    s: Seq<IdleEntry<V>>,
    now: Instant,
    limit: Duration,
    e: IdleEntry<V>,
)
    requires
        limit.nanos > 0,
    ensures
        in_use(s, now, limit).contains(e) <==> s.contains(e) && now.nanos < e.last.nanos
            + limit.nanos,
        out_of_use(s, now, limit).contains(e) <==> s.contains(e) && now.nanos >= e.last.nanos
            + limit.nanos,
        in_use(s, now, limit).len() + out_of_use(s, now, limit).len() == s.len(),
    decreases s.len(),
{
    if s.len() > 0 {
        let front = s.drop_last();
        law_entries_go_after_the_limit(front, now, limit, e);
        lemma_pushed(front, s.last(), e);
        assert(front.push(s.last()) =~= s);
        lemma_pushed(in_use(front, now, limit), s.last(), e);
        lemma_pushed(out_of_use(front, now, limit), s.last(), e);
    }
}

proof fn lemma_pushed<V>(s: Seq<IdleEntry<V>>, last: IdleEntry<V>, e: IdleEntry<V>)
    ensures
        s.push(last).contains(e) <==> s.contains(e) || last == e,
{
    if s.contains(e) {
        let k = s.index_of(e);
        assert(s.push(last)[k] == e);
    }
    if s.push(last).contains(e) {
        let k = s.push(last).index_of(e);
        if k < s.len() {
            assert(s[k] == e);
        }
    }
    assert(s.push(last)[s.len() as int] == last);
}

/// The time until the first entry is to be let go: no entry is due before it, and one
/// is due then; without entries there is no such time.
pub proof fn law_next_timeout_is_the_first<V>(
    s: Seq<IdleEntry<V>>,
    now: Instant,
    limit: Duration,
)
    requires
        forall|k: int| 0 <= k < s.len() ==> (#[trigger] s[k]).last.nanos <= now.nanos,
    ensures
        soonest(s, now, limit) is None <==> s.len() == 0,
        soonest(s, now, limit) matches Some(t) ==> {
            &&& forall|i: int|
                0 <= i < s.len() ==> t == 0 || now.nanos + t <= (#[trigger] s[i]).last.nanos
                    + limit.nanos
            &&& exists|i: int|
                0 <= i < s.len() && now.nanos + t >= (#[trigger] s[i]).last.nanos + limit.nanos
        },
{
    lemma_soonest(s, now, limit);
    if let Some(t) = soonest(s, now, limit) {
        let i = choose|i: int|
            0 <= i < s.len() && (if unused((#[trigger] s[i]).last, now) < limit.nanos {
                unused(s[i].last, now) + t == limit.nanos
            } else {
                t == 0
            });
        assert(now.nanos + t >= s[i].last.nanos + limit.nanos);
    }
}

proof fn lemma_soonest<V>(s: Seq<IdleEntry<V>>, now: Instant, limit: Duration)
    ensures
        soonest(s, now, limit) is None <==> s.len() == 0,
        soonest(s, now, limit) matches Some(t) ==> {
            &&& forall|i: int|
                0 <= i < s.len() ==> t == 0 || unused((#[trigger] s[i]).last, now) + t
                    <= limit.nanos
            &&& exists|i: int|
                0 <= i < s.len() && (if unused((#[trigger] s[i]).last, now) < limit.nanos {
                    unused(s[i].last, now) + t == limit.nanos
                } else {
                    t == 0
                })
        },
    decreases s.len(),
{
    if s.len() > 0 {
        let front = s.drop_last();
        lemma_soonest(front, now, limit);
        let t = soonest(s, now, limit)->Some_0;
        assert forall|i: int| 0 <= i < s.len() implies t == 0 || unused(
            (#[trigger] s[i]).last,
            now,
        ) + t <= limit.nanos by {
            if i < front.len() {
                assert(s[i] == front[i]);
            }
        }
        if soonest(front, now, limit) == Some(t) {
            let i = choose|i: int|
                0 <= i < front.len() && (if unused((#[trigger] front[i]).last, now) < limit.nanos {
                    unused(front[i].last, now) + t == limit.nanos
                } else {
                    t == 0
                });
            assert(s[i] == front[i]);
        } else {
            assert(s[s.len() - 1] == s.last());
        }
    }
}

} // verus!
