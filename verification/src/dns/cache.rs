//! Bounded in-memory cache of answers.

use crate::dns;
use crate::dns::{DnsError, DnsErrorKind};
use crate::domain_set;
use crate::net::IpAddr;
use crate::time::{Duration, Instant};
use vstd::hash_map::StringHashMap;
use vstd::prelude::*;
use vstd::string::*;

verus! {

pub const DEFAULT_CACHE_CAPACITY: usize = 4096;

pub const DEFAULT_CACHE_TTL_SECS: u64 = 60;

pub const MAX_CACHE_TTL_SECS: u64 = 300;

struct CacheEntry {
    addresses: Vec<IpAddr>,
    inserted: Instant,
    expires: u128,
}

/// Addresses by name, each with the time at which it expires.
pub struct DnsCache {
    entries: StringHashMap<CacheEntry>,
    names: Vec<String>,
    capacity: usize,
    max_ttl: Duration,
}

#[verifier::ext_equal]
pub struct CachedView {
    pub addresses: Seq<IpAddr>,
    pub inserted: Instant,
    pub expires: nat,
}

pub type CacheMap = Map<Seq<char>, CachedView>;

#[verifier::ext_equal]
pub struct CacheView {
    pub entries: CacheMap,
    pub capacity: nat,
    pub max_ttl: Duration,
}

spec fn entry_view(e: CacheEntry) -> CachedView {
    CachedView { addresses: e.addresses@, inserted: e.inserted, expires: e.expires as nat }
}

impl View for DnsCache {
    type V = CacheView;

    closed spec fn view(&self) -> CacheView {
        CacheView {
            entries: Map::new(
                |k: Seq<char>| self.entries@.dom().contains(k),
                |k: Seq<char>| entry_view(self.entries@[k]),
            ),
            capacity: self.capacity as nat,
            max_ttl: self.max_ttl,
        }
    }
}

/// The entries that have not expired yet.
pub open spec fn alive(m: CacheMap, now: Instant) -> CacheMap {
    Map::new(|k: Seq<char>| m.contains_key(k) && m[k].expires > now.nanos, |k: Seq<char>| m[k])
}

/// No entry was inserted earlier.
pub open spec fn is_oldest(m: CacheMap, k: Seq<char>) -> bool {
    m.contains_key(k) && forall|j: Seq<char>| #[trigger]
        m.contains_key(j) ==> m[k].inserted.nanos <= m[j].inserted.nanos
}

impl CacheView {
    /// At most `capacity` entries; each expires no later than the configured bound
    /// allows.
    pub open spec fn wf(self) -> bool {
        &&& self.capacity > 0
        &&& 0 < self.max_ttl.nanos <= 300_000_000_000
        &&& self.entries.dom().finite()
        &&& self.entries.len() <= self.capacity
        &&& forall|k: Seq<char>| #[trigger]
            self.entries.contains_key(k) ==> self.entries[k].expires
                <= self.entries[k].inserted.nanos + self.max_ttl.nanos
    }

    /// Each entry holds one to sixteen distinct addresses.
    pub open spec fn holds_answers(self) -> bool {
        forall|k: Seq<char>| #[trigger]
            self.entries.contains_key(k) ==> dns::is_address_list(self.entries[k].addresses)
    }

    /// The addresses of a name, while they have not expired.
    pub open spec fn fresh(self, name: Seq<char>, now: Instant) -> Option<Seq<IpAddr>> {
        if self.entries.contains_key(name) && self.entries[name].expires > now.nanos {
            Some(self.entries[name].addresses)
        } else {
            None
        }
    }

    /// The cache without the name, where that has expired.
    pub open spec fn looked_up(self, name: Seq<char>, now: Instant) -> CacheView {
        if self.entries.contains_key(name) && self.entries[name].expires <= now.nanos {
            CacheView { entries: self.entries.remove(name), ..self }
        } else {
            self
        }
    }

    /// How long an answer is kept: as long as its resolver allows, within the bound.
    pub open spec fn kept_for(self, ttl: Option<Duration>) -> Duration {
        match ttl {
            Some(t) => t.spec_min(self.max_ttl),
            None => self.max_ttl,
        }
    }

    /// What inserting an answer makes of the cache: nothing, where it may not be
    /// kept; otherwise expired entries go, one of the oldest goes where there is
    /// no room, and the answer takes its place.
    pub open spec fn inserts(
        self,
        name: Seq<char>,
        addresses: Seq<IpAddr>,
        ttl: Option<Duration>,
        now: Instant,
        after: CacheView,
    ) -> bool {
        let kept = self.kept_for(ttl);
        if kept.nanos == 0 {
            after == self
        } else {
            let live = alive(self.entries, now);
            let entry = CachedView {
                addresses,
                inserted: now,
                expires: now.nanos as nat + kept.nanos as nat,
            };
            &&& after.capacity == self.capacity
            &&& after.max_ttl == self.max_ttl
            &&& if live.contains_key(name) || live.len() < self.capacity {
                after.entries == live.insert(name, entry)
            } else {
                exists|k: Seq<char>| #[trigger]
                    is_oldest(live, k) && after.entries == live.remove(k).insert(name, entry)
            }
        }
    }
}

impl DnsCache {
    /// The list of names covers all entries.
    pub closed spec fn wf(self) -> bool {
        &&& domain_set::words(self.names@).no_duplicates()
        &&& forall|k: Seq<char>| #[trigger]
            self.entries@.dom().contains(k) ==> domain_set::words(self.names@).contains(k)
        &&& self@.wf()
    }

    pub proof fn lemma_bounded(self)
        requires
            self.wf(),
        ensures
            self@.wf(),
    {
    }

    pub fn defaults() -> (r: DnsCache)
        ensures
            r.wf(),
            r@.entries == Map::<Seq<char>, CachedView>::empty(),
            r@.capacity == 4096,
            r@.max_ttl == Duration::spec_from_secs(60),
    {
        let r = DnsCache {
            entries: StringHashMap::new(),
            names: Vec::new(),
            capacity: DEFAULT_CACHE_CAPACITY,
            max_ttl: Duration::from_secs(DEFAULT_CACHE_TTL_SECS),
        };
        assert(r@.entries =~= Map::<Seq<char>, CachedView>::empty());
        r
    }

    pub fn new(capacity: usize, ttl: Duration) -> (r: Result<DnsCache, DnsError>)
        ensures
            match r {
                Ok(c) => {
                    &&& capacity > 0
                    &&& 0 < ttl.nanos <= 300_000_000_000
                    &&& c.wf()
                    &&& c@.entries == Map::<Seq<char>, CachedView>::empty()
                    &&& c@.capacity == capacity
                    &&& c@.max_ttl == ttl
                },
                Err(e) => {
                    &&& capacity == 0 || ttl.nanos == 0 || ttl.nanos > 300_000_000_000
                    &&& e@ == dns::dns_failure(
                        DnsErrorKind::InvalidConfiguration,
                        "DNS cache requires capacity > 0 and TTL in 1ns..=300s"@,
                    )
                },
            },
    {
        if capacity == 0 || ttl.is_zero() || ttl.nanos > Duration::from_secs(
            MAX_CACHE_TTL_SECS,
        ).nanos {
            return Err(
                DnsError::new(
                    DnsErrorKind::InvalidConfiguration,
                    "DNS cache requires capacity > 0 and TTL in 1ns..=300s",
                ),
            );
        }
        let r = DnsCache {
            entries: StringHashMap::new(),
            names: Vec::new(),
            capacity,
            max_ttl: ttl,
        };
        assert(r@.entries =~= Map::<Seq<char>, CachedView>::empty());
        Ok(r)
    }

    /// Looks a name up; an expired entry is dropped.
    pub fn get(&mut self, name: &str, now: Instant) -> (r: Option<Vec<IpAddr>>)
        requires
            old(self).wf(),
        ensures
            final(self).wf(),
            final(self)@ == old(self)@.looked_up(name@, now),
            match r {
                Some(list) => old(self)@.fresh(name@, now) == Some(list@),
                None => old(self)@.fresh(name@, now) is None,
            },
    {
        let expired = match self.entries.get(name) {
            None => {
                return None;
            },
            Some(entry) => {
                if entry.expires > now.nanos as u128 {
                    assert(self@.entries.contains_key(name@));
                    return Some(dns::copy_addresses(entry.addresses.as_slice()));
                }
                true
            },
        };
        assert(self@.entries.contains_key(name@));
        self.entries.remove(name);
        assert(self@.entries =~= old(self)@.entries.remove(name@));
        None
    }

    /// Drops expired entries; gives the place of an oldest name among the rest.
    fn purge(&mut self, now: Instant) -> (r: Option<usize>)
        requires
            old(self).wf(),
        ensures
            final(self).wf(),
            final(self)@ == (CacheView {
                entries: alive(old(self)@.entries, now),
                ..old(self)@
            }),
            forall|k: Seq<char>|
                domain_set::words(final(self).names@).contains(k)
                    ==> #[trigger] final(self).entries@.dom().contains(k),
            match r {
                Some(i) => i < final(self).names@.len() && is_oldest(
                    final(self)@.entries,
                    final(self).names@[i as int]@,
                ),
                None => final(self).names@.len() == 0,
            },
    {
        let mut left: Vec<String> = Vec::new();
        std::mem::swap(&mut left, &mut self.names);
        let ghost start = old(self)@.entries;
        let ghost all = domain_set::words(left@);
        let mut oldest: Option<usize> = None;
        let mut when: u64 = 0;
        assert(all =~= domain_set::words(old(self).names@));
        assert(domain_set::words(self.names@) =~= Seq::<Seq<char>>::empty());
        assert(all.take(all.len() as int) == all);
        loop
            invariant
                self.capacity == old(self).capacity,
                self.max_ttl == old(self).max_ttl,
                start == old(self)@.entries,
                all.no_duplicates(),
                left@.len() <= all.len(),
                domain_set::words(left@) == all.take(left@.len() as int),
                domain_set::words(self.names@).no_duplicates(),
                forall|k: Seq<char>| #[trigger]
                    domain_set::words(self.names@).contains(k) ==> start.contains_key(k)
                        && start[k].expires > now.nanos && all.skip(left@.len() as int).contains(k),
                forall|k: Seq<char>| #[trigger]
                    start.contains_key(k) ==> domain_set::words(left@).contains(k)
                        || domain_set::words(self.names@).contains(k) || start[k].expires
                        <= now.nanos,
                forall|k: Seq<char>| #[trigger]
                    self.entries@.dom().contains(k) <==> start.contains_key(k)
                        && (domain_set::words(left@).contains(k) || start[k].expires > now.nanos),
                forall|k: Seq<char>| #[trigger]
                    self.entries@.dom().contains(k) ==> entry_view(self.entries@[k]) == start[k],
                match oldest {
                    Some(i) => {
                        &&& i < self.names@.len()
                        &&& start[self.names@[i as int]@].inserted.nanos == when
                        &&& forall|k: Seq<char>| #[trigger]
                            domain_set::words(self.names@).contains(k) ==> when
                                <= start[k].inserted.nanos
                    },
                    None => self.names@.len() == 0,
                },
            ensures
                left@.len() == 0,
            decreases left@.len(),
        {
            let ghost stack = left@;
            let ghost before = domain_set::words(left@);
            let ghost kept = domain_set::words(self.names@);
            match left.pop() {
                None => {
                    break;
                },
                Some(name) => {
                    proof {
                        let n = left@.len() as int;
                        assert(stack == left@.push(name));
                        assert(before == all.take(n + 1));
                        assert(before[n] == name@);
                        assert(domain_set::words(left@) =~= all.take(n));
                        assert(before =~= domain_set::words(left@).push(name@));
                        assert(all[n] == name@);
                        let tail = all.skip(n + 1);
                        assert(all.skip(n) =~= seq![name@] + tail);
                        assert(!domain_set::words(left@).contains(name@));
                        assert forall|k: Seq<char>| before.contains(k) <==> (domain_set::words(
                            left@,
                        ).contains(k) || k == name@) by {
                            domain_set::lemma_push_contains(domain_set::words(left@), name@, k);
                        }
                        assert forall|k: Seq<char>| tail.contains(k) implies all.skip(n).contains(
                            k,
                        ) by {
                            let i = choose|i: int| 0 <= i < tail.len() && tail[i] == k;
                            assert(all.skip(n)[i + 1] == k);
                        }
                        assert(all.skip(n)[0] == name@);
                        assert(!kept.contains(name@)) by {
                            if kept.contains(name@) {
                                assert(tail.contains(name@));
                                let i = choose|i: int| 0 <= i < tail.len() && tail[i] == name@;
                                assert(all[n + 1 + i] == name@);
                            }
                        }
                    }
                    let fate: Option<(bool, u64)> = match self.entries.get(name.as_str()) {
                        None => None,
                        Some(entry) => Some(
                            (entry.expires > now.nanos as u128, entry.inserted.nanos),
                        ),
                    };
                    match fate {
                        None => {},
                        Some((true, inserted)) => {
                            proof {
                                domain_set::lemma_words_push(self.names@, name);
                                assert forall|k: Seq<char>| kept.push(name@).contains(k) <==> (
                                kept.contains(k) || k == name@) by {
                                    domain_set::lemma_push_contains(kept, name@, k);
                                }
                            }
                            if oldest.is_none() || inserted < when {
                                oldest = Some(self.names.len());
                                when = inserted;
                            }
                            self.names.push(name);
                            proof {
                                let now_kept = domain_set::words(self.names@);
                                assert(now_kept == kept.push(name@));
                                assert(start.contains_key(name@));
                                assert(start[name@].expires > now.nanos);
                                assert(start[name@].inserted.nanos == inserted);
                                assert forall|k: Seq<char>| #[trigger] now_kept.contains(
                                    k,
                                ) implies start.contains_key(k) && start[k].expires > now.nanos
                                    && all.skip(left@.len() as int).contains(k) && when
                                    <= start[k].inserted.nanos by {
                                    if k != name@ {
                                        assert(kept.contains(k));
                                    }
                                }
                            }
                        },
                        Some((false, _)) => {
                            self.entries.remove(name.as_str());
                        },
                    }
                },
            }
        }
        proof {
            let live = alive(start, now);
            assert forall|k: Seq<char>| self@.entries.contains_key(k) <==> live.contains_key(k) by {
                assert(self.entries@.dom().contains(k) <==> self@.entries.contains_key(k));
            }
            assert(self@.entries =~= live);
            assert(live.dom().subset_of(start.dom()));
            vstd::set_lib::lemma_len_subset(live.dom(), start.dom());
            match oldest {
                Some(i) => {
                    let w = domain_set::words(self.names@);
                    assert(w[i as int] == self.names@[i as int]@);
                    assert(w.contains(self.names@[i as int]@));
                },
                None => {},
            }
        }
        oldest
    }

    /// Keeps an answer.
    pub fn insert(
        &mut self,
        name: &str,
        addresses: &[IpAddr],
        resolver_ttl: Option<Duration>,
        now: Instant,
    )
        requires
            old(self).wf(),
        ensures
            final(self).wf(),
            old(self)@.inserts(name@, addresses@, resolver_ttl, now, final(self)@),
    {
        let ttl = match resolver_ttl {
            Some(t) => t.shorter(self.max_ttl),
            None => self.max_ttl,
        };
        if ttl.is_zero() {
            return;
        }
        let oldest = self.purge(now);
        let ghost live = self@.entries;
        let held = self.entries.contains_key(name);
        assert(held == live.contains_key(name@));
        assert(self@.entries.dom() =~= self.entries@.dom());
        let full = self.entries.len() >= self.capacity;
        let ghost mut base = live;
        let ghost w = domain_set::words(self.names@);
        if !held && full {
            match oldest {
                None => {
                    proof {
                        assert(self.entries@.dom() =~= Set::<Seq<char>>::empty());
                    }
                },
                Some(i) => {
                    let victim = self.names.swap_remove(i);
                    self.entries.remove(victim.as_str());
                    proof {
                        base = live.remove(victim@);
                        let x = domain_set::words(self.names@);
                        assert(x =~= w.update(i as int, w.last()).drop_last());
                        assert(x.no_duplicates());
                        assert forall|k: Seq<char>| self.entries@.dom().contains(k) implies x.contains(
                            k,
                        ) by {
                            assert(w.contains(k));
                            let j = choose|j: int| 0 <= j < w.len() && w[j] == k;
                            if j == w.len() - 1 {
                                assert(x[i as int] == k);
                            } else {
                                assert(x[j] == k);
                            }
                        }
                        assert(is_oldest(live, victim@));
                    }
                },
            }
        }
        let entry = CacheEntry {
            addresses: dns::copy_addresses(addresses),
            inserted: now,
            expires: now.nanos as u128 + ttl.nanos,
        };
        let ghost v = entry_view(entry);
        let ghost names_before = domain_set::words(self.names@);
        self.entries.insert(name.to_owned(), entry);
        if !held {
            let own = name.to_owned();
            proof {
                domain_set::lemma_words_push(self.names@, own);
                assert forall|k: Seq<char>| names_before.push(own@).contains(k) <==> (
                names_before.contains(k) || k == own@) by {
                    domain_set::lemma_push_contains(names_before, own@, k);
                }
                assert(!names_before.contains(name@)) by {
                    assert(!live.contains_key(name@));
                    if names_before.contains(name@) {
                        let j = choose|j: int|
                            0 <= j < names_before.len() && names_before[j] == name@;
                        assert(w.contains(name@)) by {
                            if names_before == w {
                            } else {
                                if j == oldest.unwrap() {
                                    assert(w[w.len() - 1] == name@);
                                } else {
                                    assert(w[j] == name@);
                                }
                            }
                        }
                    }
                }
            }
            self.names.push(own);
        }
        proof {
            assert(self@.entries =~= base.insert(name@, v));
            assert(self@.entries.dom() =~= base.dom().insert(name@));
            let after = domain_set::words(self.names@);
            assert forall|k: Seq<char>| #[trigger] self.entries@.dom().contains(
                k,
            ) implies after.contains(k) by {
                if k == name@ {
                    if held {
                        assert(w.contains(k));
                    } else {
                        assert(after.last() == k);
                    }
                } else {
                    assert(base.contains_key(k));
                    assert(names_before.contains(k));
                }
            }
        }
    }
}

/// A cache keeps at least one answer, and answers for five minutes at most; it begins empty.
pub proof fn law_cache_limits(capacity: usize, ttl: Duration, r: Result<DnsCache, DnsError>)
    requires
        call_ensures(DnsCache::new, (capacity, ttl), r),
    ensures
        r is Ok <==> capacity > 0 && 0 < ttl.nanos <= 300_000_000_000,
        r matches Ok(c) ==> {
            &&& c@.capacity == capacity
            &&& c@.max_ttl == ttl
            &&& forall|name: Seq<char>| !#[trigger] c@.entries.contains_key(name)
        },
        r matches Err(e) ==> e@.kind == DnsErrorKind::InvalidConfiguration,
{
}

} // verus!
