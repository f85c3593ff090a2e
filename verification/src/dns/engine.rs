//! The engine: hosts overrides, then the cache, then the resolvers in order.

use crate::dns;
use crate::dns::cache;
use crate::dns::cache::{CacheView, DnsCache};
use crate::dns::hosts::{HostsMap, HostsTable};
use crate::dns::{AnswerView, DnsAnswer, DnsError, DnsErrorKind, DnsErrorView, DnsQuery};
use crate::domain_set;
use crate::net::IpAddr;
use crate::text;
use crate::time::{Duration, Instant};
use std::sync::Arc;
use vstd::prelude::*;
use vstd::string::*;

verus! {

/// A source of addresses for names. Nothing is promised of its replies but that
/// they are replies of this source to this name.
pub trait Resolver: Send + Sync {
    /// The replies that the resolver may give when it is asked a name. A resolver
    /// that says no more of itself may give any.
    open spec fn may_say(&self, name: Seq<char>, reply: Reply) -> bool {
        true
    }

    fn resolve(&self, query: &DnsQuery) -> (r: Result<DnsAnswer, DnsError>)
        ensures
            self.may_say(query@, reply_of(r)),
    ;
}

#[derive(Clone, Copy, Debug, PartialEq, Eq, Structural)]
pub struct DnsStats {
    pub hosts_hits: u64,
    pub cache_hits: u64,
    pub cache_misses: u64,
    pub resolver_failures: u64,
}

impl Default for DnsStats {
    fn default() -> (r: DnsStats)
        ensures
            r == (DnsStats { hosts_hits: 0, cache_hits: 0, cache_misses: 0, resolver_failures: 0 }),
    {
        DnsStats { hosts_hits: 0, cache_hits: 0, cache_misses: 0, resolver_failures: 0 }
    }
}

/// What a resolver said.
pub type Reply = Result<AnswerView, DnsErrorView>;

pub open spec fn reply_of(r: Result<DnsAnswer, DnsError>) -> Reply {
    match r {
        Ok(a) => Ok(a@),
        Err(e) => Err(e@),
    }
}

/// The replies of the resolvers that were asked a name, in their order: all failed
/// but the last, which answered unless there was no other resolver left to ask.
pub open spec fn is_fallback(
    replies: Seq<Reply>,
    resolvers: Seq<Arc<dyn Resolver>>,
    name: Seq<char>,
) -> bool {
    &&& 0 < replies.len() <= resolvers.len()
    &&& forall|i: int|
        0 <= i < replies.len() ==> resolvers[i].may_say(name, #[trigger] replies[i])
    &&& forall|i: int| 0 <= i < replies.len() - 1 ==> (#[trigger] replies[i]) is Err
    &&& replies.last() is Err ==> replies.len() == resolvers.len()
}

/// The resolver at the position may fail to answer the name.
pub open spec fn may_fail(resolvers: Seq<Arc<dyn Resolver>>, i: int, name: Seq<char>) -> bool {
    exists|reply: Reply| reply is Err && #[trigger] resolvers[i].may_say(name, reply)
}

/// What came of asking the resolvers in order.
#[derive(Debug)]
pub struct Consultation {
    pub failures: u64,
    pub result: Result<DnsAnswer, DnsError>,
}

/// Asks the resolvers one after the other until one answers.
pub fn consult(resolvers: &Vec<Arc<dyn Resolver>>, query: &DnsQuery) -> (r: Consultation)
    requires
        resolvers@.len() > 0,
    ensures
        exists|replies: Seq<Reply>| #[trigger]
            is_fallback(replies, resolvers@, query@) && reply_of(r.result) == replies.last()
                && r.failures == failures_of(replies),
{
    let mut i: usize = 0;
    let ghost mut replies: Seq<Reply> = Seq::empty();
    loop
        invariant
            i < resolvers@.len(),
            replies.len() == i,
            forall|j: int|
                0 <= j < i ==> resolvers@[j].may_say(query@, #[trigger] replies[j]),
            forall|j: int| 0 <= j < i ==> (#[trigger] replies[j]) is Err,
        decreases resolvers@.len() - i,
    {
        let result = resolvers[i].resolve(query);
        proof {
            replies = replies.push(reply_of(result));
        }
        let failed = result.is_err();
        if !failed || i == resolvers.len() - 1 {
            let failures: u64 = if failed {
                i as u64 + 1
            } else {
                i as u64
            };
            assert(is_fallback(replies, resolvers@, query@));
            return Consultation { failures, result };
        }
        i = i + 1;
    }
}


/// Resolves names in a fixed order of sources.
pub struct DnsEngine {
    hosts: HostsTable,
    cache: DnsCache,
    resolvers: Vec<Arc<dyn Resolver>>,
    stats: DnsStats,
}

#[verifier::ext_equal]
pub struct EngineView {
    pub hosts: HostsMap,
    pub cache: CacheView,
    pub resolvers: Seq<Arc<dyn Resolver>>,
    pub stats: DnsStats,
}

impl View for DnsEngine {
    type V = EngineView;

    closed spec fn view(&self) -> EngineView {
        EngineView {
            hosts: self.hosts@,
            cache: self.cache@,
            resolvers: self.resolvers@,
            stats: self.stats,
        }
    }
}

/// What is known of a name without asking a resolver.
#[derive(Debug)]
pub enum Lookup {
    Invalid(DnsError),
    Known(Vec<IpAddr>),
    Ask(DnsQuery),
}

#[verifier::ext_equal]
pub enum LookupView {
    Invalid(DnsErrorView),
    Known(Seq<IpAddr>),
    Ask(Seq<char>),
}

impl View for Lookup {
    type V = LookupView;

    open spec fn view(&self) -> LookupView {
        match self {
            Lookup::Invalid(e) => LookupView::Invalid(e@),
            Lookup::Known(list) => LookupView::Known(list@),
            Lookup::Ask(q) => LookupView::Ask(q@),
        }
    }
}

pub open spec fn plus(a: u64, b: u64) -> u64 {
    vstd::wrapping::u64_specs::wrapping_add(a, b)
}

impl EngineView {
    /// What is known of a name: the hosts table decides, then the cache. Of a long
    /// list in the table the first addresses count.
    pub open spec fn known(self, name: Seq<char>, now: Instant) -> LookupView {
        let n = domain_set::normalized(name);
        if !domain_set::valid(n) {
            LookupView::Invalid(dns::dns_failure(DnsErrorKind::InvalidName, "invalid DNS name"@))
        } else if self.hosts.contains_key(n) {
            LookupView::Known(dns::distinct(self.hosts[n]))
        } else {
            match self.cache.fresh(n, now) {
                Some(list) => LookupView::Known(list),
                None => LookupView::Ask(n),
            }
        }
    }

    /// The engine after a lookup: it counts where the addresses came from, and an
    /// expired entry is gone.
    pub open spec fn looked_up(self, name: Seq<char>, now: Instant) -> EngineView {
        let n = domain_set::normalized(name);
        if !domain_set::valid(n) {
            self
        } else if self.hosts.contains_key(n) {
            EngineView {
                stats: DnsStats { hosts_hits: plus(self.stats.hosts_hits, 1), ..self.stats },
                ..self
            }
        } else if self.cache.fresh(n, now) is Some {
            EngineView {
                stats: DnsStats { cache_hits: plus(self.stats.cache_hits, 1), ..self.stats },
                ..self
            }
        } else {
            EngineView {
                cache: self.cache.looked_up(n, now),
                stats: DnsStats { cache_misses: plus(self.stats.cache_misses, 1), ..self.stats },
                ..self
            }
        }
    }

    /// What an outcome of asking the resolvers makes of the engine.
    pub open spec fn absorbs(
        self,
        name: Seq<char>,
        failures: u64,
        reply: Reply,
        now: Instant,
        after: EngineView,
    ) -> bool {
        &&& after.hosts == self.hosts
        &&& after.resolvers == self.resolvers
        &&& after.stats == (DnsStats {
            resolver_failures: plus(self.stats.resolver_failures, failures),
            ..self.stats
        })
        &&& match reply {
            Ok(a) => self.cache.inserts(name, a.addresses, a.ttl, now, after.cache),
            Err(_) => after.cache == self.cache,
        }
    }

    /// What resolving a name returns and makes of the engine.
    pub open spec fn resolves(
        self,
        name: Seq<char>,
        now: Instant,
        result: Result<Seq<IpAddr>, DnsErrorView>,
        after: EngineView,
    ) -> bool {
        match self.known(name, now) {
            LookupView::Invalid(e) => result == Err::<Seq<IpAddr>, DnsErrorView>(e) && after == self,
            LookupView::Known(list) => result == Ok::<Seq<IpAddr>, DnsErrorView>(list) && after
                == self.looked_up(name, now),
            LookupView::Ask(_) => exists|replies: Seq<Reply>| #[trigger]
                is_fallback(replies, self.resolvers, domain_set::normalized(name)) && result
                    == addresses_of(replies.last()) && self.looked_up(name, now).absorbs(
                    domain_set::normalized(name),
                    failures_of(replies),
                    replies.last(),
                    now,
                    after,
                ),
        }
    }
}

pub open spec fn addresses_of(reply: Reply) -> Result<Seq<IpAddr>, DnsErrorView> {
    match reply {
        Ok(a) => Ok(a.addresses),
        Err(e) => Err(e),
    }
}

/// How many of the asked resolvers failed.
pub open spec fn failures_of(replies: Seq<Reply>) -> u64 {
    if replies.last() is Err {
        replies.len() as u64
    } else {
        (replies.len() - 1) as u64
    }
}

/// The addresses or the error of a call.
pub open spec fn outcome(r: Result<Vec<IpAddr>, DnsError>) -> Result<Seq<IpAddr>, DnsErrorView> {
    match r {
        Ok(list) => Ok(list@),
        Err(e) => Err(e@),
    }
}

impl DnsEngine {
    pub closed spec fn wf(self) -> bool {
        self.hosts.wf() && self.cache.wf() && self.cache@.holds_answers() && self.resolvers@.len()
            > 0
    }

    /// The cache of an engine never outgrows its capacity, and no answer stays longer
    /// than the bound, which is at most five minutes.
    pub proof fn law_cache_is_bounded(self, name: Seq<char>)
        requires
            self.wf(),
        ensures
            self@.cache.entries.len() <= self@.cache.capacity,
            self@.cache.max_ttl.nanos <= 300_000_000_000,
            self@.cache.entries.contains_key(name) ==> self@.cache.entries[name].expires
                <= self@.cache.entries[name].inserted.nanos + self@.cache.max_ttl.nanos,
    {
        self.cache.lemma_bounded();
    }

    /// An engine with a cache of default size; `resolvers` holds the resolver of
    /// the system.
    pub fn system(hosts: HostsTable, resolvers: Vec<Arc<dyn Resolver>>) -> (r: DnsEngine)
        requires
            hosts.wf(),
            resolvers@.len() == 1,
        ensures
            r.wf(),
            r@.hosts == hosts@,
            r@.resolvers == resolvers@,
            r@.cache.entries == Map::<Seq<char>, dns::cache::CachedView>::empty(),
            r@.cache.capacity == 4096,
            r@.cache.max_ttl == Duration::spec_from_secs(60),
            r@.stats == (DnsStats {
                hosts_hits: 0,
                cache_hits: 0,
                cache_misses: 0,
                resolver_failures: 0,
            }),
    {
        DnsEngine::chain(hosts, resolvers)
    }

    /// An engine with a cache of default size over a chain of resolvers.
    pub fn chain(hosts: HostsTable, resolvers: Vec<Arc<dyn Resolver>>) -> (r: DnsEngine)
        requires
            hosts.wf(),
            resolvers@.len() > 0,
        ensures
            r.wf(),
            r@.hosts == hosts@,
            r@.resolvers == resolvers@,
            r@.cache.entries == Map::<Seq<char>, dns::cache::CachedView>::empty(),
            r@.cache.capacity == 4096,
            r@.cache.max_ttl == Duration::spec_from_secs(60),
            r@.stats == (DnsStats {
                hosts_hits: 0,
                cache_hits: 0,
                cache_misses: 0,
                resolver_failures: 0,
            }),
    {
        DnsEngine {
            hosts,
            cache: DnsCache::defaults(),
            resolvers,
            stats: DnsStats::default(),
        }
    }

    pub fn with_resolvers(
        hosts: HostsTable,
        resolvers: Vec<Arc<dyn Resolver>>,
        cache_capacity: usize,
        cache_ttl: Duration,
    ) -> (r: Result<DnsEngine, DnsError>)
        requires
            hosts.wf(),
        ensures
            match r {
                Ok(engine) => {
                    &&& resolvers@.len() > 0
                    &&& cache_capacity > 0 && 0 < cache_ttl.nanos <= 300_000_000_000
                    &&& engine.wf()
                    &&& engine@.hosts == hosts@
                    &&& engine@.resolvers == resolvers@
                    &&& engine@.cache.entries == Map::<Seq<char>, dns::cache::CachedView>::empty()
                    &&& engine@.cache.capacity == cache_capacity
                    &&& engine@.cache.max_ttl == cache_ttl
                    &&& engine@.stats == (DnsStats {
                        hosts_hits: 0,
                        cache_hits: 0,
                        cache_misses: 0,
                        resolver_failures: 0,
                    })
                },
                Err(e) => if resolvers@.len() == 0 {
                    e@ == dns::dns_failure(
                        DnsErrorKind::NoResolvers,
                        "DNS engine requires at least one resolver"@,
                    )
                } else {
                    &&& cache_capacity == 0 || cache_ttl.nanos == 0 || cache_ttl.nanos
                        > 300_000_000_000
                    &&& e@ == dns::dns_failure(
                        DnsErrorKind::InvalidConfiguration,
                        "DNS cache requires capacity > 0 and TTL in 1ns..=300s"@,
                    )
                },
            },
    {
        if resolvers.len() == 0 {
            return Err(
                DnsError::new(
                    DnsErrorKind::NoResolvers,
                    "DNS engine requires at least one resolver",
                ),
            );
        }
        match DnsCache::new(cache_capacity, cache_ttl) {
            Ok(cache) => Ok(DnsEngine { hosts, cache, resolvers, stats: DnsStats::default() }),
            Err(e) => Err(e),
        }
    }

    /// Looks a name up in the hosts table and in the cache.
    pub fn lookup(&mut self, name: &str, now: Instant) -> (r: Lookup)
        requires
            old(self).wf(),
        ensures
            final(self).wf(),
            r@ == old(self)@.known(name@, now),
            final(self)@ == old(self)@.looked_up(name@, now),
            r matches Lookup::Known(list) ==> dns::is_address_list(list@),
    {
        let query = match DnsQuery::new(name) {
            Ok(q) => q,
            Err(e) => {
                return Lookup::Invalid(e);
            },
        };
        if let Some(list) = self.hosts.resolve(query.name()) {
            self.stats.hosts_hits = self.stats.hosts_hits.wrapping_add(1);
            proof {
                dns::lemma_distinct(list@);
            }
            return Lookup::Known(dns::deduplicate_bounded(list.as_slice()));
        }
        match self.cache.get(query.name(), now) {
            Some(list) => {
                self.stats.cache_hits = self.stats.cache_hits.wrapping_add(1);
                Lookup::Known(list)
            },
            None => {
                self.stats.cache_misses = self.stats.cache_misses.wrapping_add(1);
                Lookup::Ask(query)
            },
        }
    }

    /// Takes over what came of asking the resolvers.
    pub fn absorb(&mut self, query: &DnsQuery, outcome: Consultation, now: Instant) -> (r: Result<
        Vec<IpAddr>,
        DnsError,
    >)
        requires
            old(self).wf(),
        ensures
            final(self).wf(),
            old(self)@.absorbs(
                query@,
                outcome.failures,
                reply_of(outcome.result),
                now,
                final(self)@,
            ),
            self::outcome(r) == addresses_of(reply_of(outcome.result)),
            r matches Ok(list) ==> dns::is_address_list(list@),
    {
        self.stats.resolver_failures =
        self.stats.resolver_failures.wrapping_add(outcome.failures);
        match outcome.result {
            Ok(answer) => {
                let ttl = answer.ttl();
                self.cache.insert(query.name(), answer.addresses(), ttl, now);
                let (list, _) = answer.into_parts();
                Ok(list)
            },
            Err(e) => Err(e),
        }
    }

    /// Resolves a name: hosts overrides, then the cache, then the resolvers in
    /// order until one answers. A name has one to sixteen addresses, no two alike.
    pub fn resolve(&mut self, name: &str, now: Instant) -> (r: Result<Vec<IpAddr>, DnsError>)
        requires
            old(self).wf(),
        ensures
            final(self).wf(),
            old(self)@.resolves(name@, now, outcome(r), final(self)@),
            r matches Ok(list) ==> dns::is_address_list(list@),
    {
        match self.lookup(name, now) {
            Lookup::Invalid(e) => Err(e),
            Lookup::Known(list) => Ok(list),
            Lookup::Ask(query) => {
                let consulted = consult(&self.resolvers, &query);
                self.absorb(&query, consulted, now)
            },
        }
    }

    pub fn stats(&self) -> (r: DnsStats)
        ensures
            r == self@.stats,
    {
        self.stats
    }

    pub fn hosts_len(&self) -> (r: usize)
        requires
            self.wf(),
        ensures
            r == self@.hosts.len(),
    {
        self.hosts.len()
    }
}

/// What the system's own resolver answers: of the first sixteen addresses that it
/// lists, each once.
pub open spec fn system_reply(name: Seq<char>, listed: Seq<IpAddr>) -> Reply {
    if listed.len() == 0 {
        Err(
            dns::dns_failure(
                DnsErrorKind::NoRecords,
                "system resolver returned no addresses for "@ + name,
            ),
        )
    } else {
        Ok(
            AnswerView {
                addresses: dns::distinct(
                    if listed.len() > 16 {
                        listed.take(16)
                    } else {
                        listed
                    },
                ),
                ttl: None,
            },
        )
    }
}

/// The answer to a query that the system resolver's list of addresses makes.
pub fn system_answer(query: &DnsQuery, listed: &[IpAddr]) -> (r: Result<DnsAnswer, DnsError>)
    ensures
        reply_of(r) == system_reply(query@, listed@),
{
    if listed.len() == 0 {
        let text = text::join2("system resolver returned no addresses for ", query.name());
        return Err(DnsError::new(DnsErrorKind::NoRecords, text.as_str()));
    }
    let first: &[IpAddr] = if listed.len() > 16 {
        &listed[0..16]
    } else {
        listed
    };
    assert(first@ == if listed@.len() > 16 {
        listed@.take(16)
    } else {
        listed@
    });
    DnsAnswer::new(dns::copy_addresses(first), None)
}

/// The error of a query that the system resolver failed on.
pub fn system_failure(query: &DnsQuery, reason: &str) -> (r: DnsError)
    ensures
        r@ == dns::dns_failure(
            DnsErrorKind::ResolverFailure,
            "system resolver failed for "@ + query@ + ": "@ + reason@,
        ),
{
    let mut text = "system resolver failed for ".to_owned();
    text.append(query.name());
    text.append(": ");
    text.append(reason);
    DnsError::new(DnsErrorKind::ResolverFailure, text.as_str())
}

/// The hosts table comes first: a listed name is answered from it, whatever the
/// cache holds and the resolvers would say, and neither is touched.
pub proof fn law_hosts_come_first(
    engine: EngineView,
    name: Seq<char>,
    now: Instant,
    result: Result<Seq<IpAddr>, DnsErrorView>,
    after: EngineView,
)
    requires
        domain_set::valid(domain_set::normalized(name)),
        engine.hosts.contains_key(domain_set::normalized(name)),
        engine.resolves(name, now, result, after),
    ensures
        result == Ok::<Seq<IpAddr>, DnsErrorView>(
            dns::distinct(engine.hosts[domain_set::normalized(name)]),
        ),
        after.cache == engine.cache,
        after.stats.resolver_failures == engine.stats.resolver_failures,
{
}

/// What is neither listed nor cached comes from a resolver of the engine, and only
/// where every resolver in front of it has failed: there is no other source.
pub proof fn law_only_the_chain_answers(
    engine: EngineView,
    name: Seq<char>,
    now: Instant,
    result: Result<Seq<IpAddr>, DnsErrorView>,
    after: EngineView,
)
    requires
        engine.known(name, now) is Ask,
        engine.resolves(name, now, result, after),
    ensures
        exists|k: int, reply: Reply|
            0 <= k < engine.resolvers.len() && #[trigger] engine.resolvers[k].may_say(
                domain_set::normalized(name),
                reply,
            ) && result == addresses_of(reply) && forall|i: int|
                0 <= i < k ==> #[trigger] may_fail(
                    engine.resolvers,
                    i,
                    domain_set::normalized(name),
                ),
{
    let n = domain_set::normalized(name);
    let replies = choose|replies: Seq<Reply>| #[trigger]
        is_fallback(replies, engine.resolvers, n) && result == addresses_of(replies.last())
            && engine.looked_up(name, now).absorbs(
            n,
            failures_of(replies),
            replies.last(),
            now,
            after,
        );
    let k = replies.len() - 1;
    assert forall|i: int| 0 <= i < k implies #[trigger] may_fail(engine.resolvers, i, n) by {
        assert(engine.resolvers[i].may_say(n, replies[i]));
    }
    assert(engine.resolvers[k].may_say(n, replies[k]));
}

/// The cache comes before the resolvers: a fresh entry is the answer, and no
/// resolver is asked.
pub proof fn law_cache_comes_before_resolvers(
    engine: EngineView,
    name: Seq<char>,
    now: Instant,
    result: Result<Seq<IpAddr>, DnsErrorView>,
    after: EngineView,
)
    requires
        domain_set::valid(domain_set::normalized(name)),
        !engine.hosts.contains_key(domain_set::normalized(name)),
        engine.cache.fresh(domain_set::normalized(name), now) is Some,
        engine.resolves(name, now, result, after),
    ensures
        result == Ok::<Seq<IpAddr>, DnsErrorView>(
            engine.cache.fresh(domain_set::normalized(name), now).unwrap(),
        ),
        after.cache == engine.cache,
        after.stats.resolver_failures == engine.stats.resolver_failures,
        after.stats.cache_hits == plus(engine.stats.cache_hits, 1),
{
}

/// A name is the same name in any case and with dots around it.
pub proof fn law_names_are_compared_normalized(engine: EngineView, a: Seq<char>, b: Seq<char>, now: Instant)
    requires
        domain_set::normalized(a) == domain_set::normalized(b),
    ensures
        engine.known(a, now) == engine.known(b, now),
        engine.looked_up(a, now) == engine.looked_up(b, now),
{
}

/// An answer that may not be kept leaves the cache as it was.
pub proof fn law_zero_ttl_is_not_cached(
    cache: CacheView,
    name: Seq<char>,
    addresses: Seq<IpAddr>,
    now: Instant,
    after: CacheView,
)
    requires
        cache.inserts(name, addresses, Some(Duration { nanos: 0 }), now, after),
        cache.wf(),
    ensures
        after == cache,
{
}

/// An answer that is still fresh goes only where a new name finds no room, and then
/// it is the only one that goes and none was kept longer.
pub proof fn law_fresh_answers_go_only_for_want_of_room(
    cache: CacheView,
    name: Seq<char>,
    addresses: Seq<IpAddr>,
    ttl: Option<Duration>,
    now: Instant,
    after: CacheView,
    lost: Seq<char>,
    other: Seq<char>,
)
    requires
        cache.wf(),
        cache.inserts(name, addresses, ttl, now, after),
        cache::alive(cache.entries, now).contains_key(lost),
        !after.entries.contains_key(lost),
    ensures
        !cache::alive(cache.entries, now).contains_key(name),
        cache::alive(cache.entries, now).len() == cache.capacity,
        cache::is_oldest(cache::alive(cache.entries, now), lost),
        cache::alive(cache.entries, now).contains_key(other) && other != lost
            ==> after.entries.contains_key(other) && after.entries[other] == cache.entries[other],
{
    let live = cache::alive(cache.entries, now);
    assert(live.dom().subset_of(cache.entries.dom()));
    vstd::set_lib::lemma_len_subset(live.dom(), cache.entries.dom());
}

/// A kept answer is found until its time is over and not afterwards; that time is
/// neither longer than its resolver allowed nor longer than the bound.
pub proof fn law_kept_answer_is_fresh_until_it_expires(
    cache: CacheView,
    name: Seq<char>,
    addresses: Seq<IpAddr>,
    ttl: Option<Duration>,
    now: Instant,
    after: CacheView,
    later: Instant,
)
    requires
        cache.wf(),
        cache.inserts(name, addresses, ttl, now, after),
        cache.kept_for(ttl).nanos > 0,
    ensures
        after.fresh(name, later) == (if later.nanos < now.nanos + cache.kept_for(ttl).nanos {
            Some(addresses)
        } else {
            None
        }),
        cache.kept_for(ttl).nanos <= cache.max_ttl.nanos,
        ttl matches Some(t) ==> cache.kept_for(ttl).nanos <= t.nanos,
{
}

/// A name that is not well formed is refused; one that is neither listed nor fresh in
/// the cache is asked of the resolvers, and then in its normal form.
pub proof fn law_unknown_names_are_asked(engine: EngineView, name: Seq<char>, now: Instant)
    ensures
        ({
            let n = domain_set::normalized(name);
            &&& !domain_set::valid(n) <==> engine.known(name, now) is Invalid
            &&& !domain_set::valid(n) ==> engine.known(name, now)->Invalid_0.kind
                == DnsErrorKind::InvalidName
            &&& domain_set::valid(n) && !engine.hosts.contains_key(n)
                && !engine.cache.entries.contains_key(n) ==> engine.known(name, now)
                == LookupView::Ask(n)
            &&& engine.known(name, now) is Ask ==> !engine.hosts.contains_key(n)
        }),
{
}

/// A name fails only where each of the resolvers may fail to answer it, and then with
/// the failure of the last.
pub proof fn law_failure_means_that_all_failed(
    engine: EngineView,
    name: Seq<char>,
    now: Instant,
    e: DnsErrorView,
    after: EngineView,
)
    requires
        engine.known(name, now) is Ask,
        engine.resolves(name, now, Err(e), after),
    ensures
        forall|i: int|
            0 <= i < engine.resolvers.len() ==> #[trigger] may_fail(
                engine.resolvers,
                i,
                domain_set::normalized(name),
            ),
        engine.resolvers.last().may_say(domain_set::normalized(name), Err(e)),
        after.cache == engine.cache.looked_up(domain_set::normalized(name), now),
{
    let n = domain_set::normalized(name);
    let result = Err::<Seq<IpAddr>, DnsErrorView>(e);
    let replies = choose|replies: Seq<Reply>| #[trigger]
        is_fallback(replies, engine.resolvers, n) && result == addresses_of(replies.last())
            && engine.looked_up(name, now).absorbs(
            n,
            failures_of(replies),
            replies.last(),
            now,
            after,
        );
    assert forall|i: int| 0 <= i < engine.resolvers.len() implies #[trigger] may_fail(
        engine.resolvers,
        i,
        n,
    ) by {
        assert(engine.resolvers[i].may_say(n, replies[i]));
        if i == replies.len() - 1 {
            assert(replies[i] is Err);
        }
    }
    assert(engine.resolvers[replies.len() - 1].may_say(n, replies[replies.len() - 1]));
}

/// An answer is served again without asking anybody, as long as its resolver and the
/// bound of the cache both allow, and not a moment longer.
pub proof fn law_answer_is_served_again(
    engine: EngineView,
    name: Seq<char>,
    failures: u64,
    answer: AnswerView,
    now: Instant,
    after: EngineView,
    later: Instant,
)
    requires
        engine.cache.wf(),
        domain_set::valid(domain_set::normalized(name)),
        !engine.hosts.contains_key(domain_set::normalized(name)),
        engine.absorbs(domain_set::normalized(name), failures, Ok(answer), now, after),
        now.nanos <= later.nanos,
        answer.ttl matches Some(t) ==> t.nanos > 0,
    ensures
        ({
            let within_bound = later.nanos < now.nanos + engine.cache.max_ttl.nanos;
            let within_ttl = answer.ttl matches Some(t) ==> later.nanos < now.nanos + t.nanos;
            if within_bound && within_ttl {
                after.known(name, later) == LookupView::Known(answer.addresses)
            } else {
                after.known(name, later) is Ask
            }
        }),
{
    law_kept_answer_is_fresh_until_it_expires(
        engine.cache,
        domain_set::normalized(name),
        answer.addresses,
        answer.ttl,
        now,
        after.cache,
        later,
    );
}

/// A failure is not remembered.
pub proof fn law_failures_are_not_cached(
    engine: EngineView,
    name: Seq<char>,
    failures: u64,
    e: DnsErrorView,
    now: Instant,
    after: EngineView,
)
    requires
        engine.absorbs(name, failures, Err(e), now, after),
    ensures
        after.cache == engine.cache,
        after.hosts == engine.hosts,
        after.resolvers == engine.resolvers,
{
}

/// Every lookup of a well-formed name is counted once: under the source that knew it,
/// or as a miss.
pub proof fn law_lookups_are_counted_once(engine: EngineView, name: Seq<char>, now: Instant)
    requires
        domain_set::valid(domain_set::normalized(name)),
    ensures
        ({
            let n = domain_set::normalized(name);
            let a = engine.stats;
            let b = engine.looked_up(name, now).stats;
            &&& b.resolver_failures == a.resolver_failures
            &&& b.hosts_hits == (if engine.hosts.contains_key(n) {
                plus(a.hosts_hits, 1)
            } else {
                a.hosts_hits
            })
            &&& b.cache_misses == (if engine.known(name, now) is Ask {
                plus(a.cache_misses, 1)
            } else {
                a.cache_misses
            })
            &&& b.cache_hits == (if engine.known(name, now) is Known && !engine.hosts.contains_key(
                n,
            ) {
                plus(a.cache_hits, 1)
            } else {
                a.cache_hits
            })
        }),
{
}

/// Each resolver that failed is counted.
pub proof fn law_failures_are_counted(
    engine: EngineView,
    name: Seq<char>,
    replies: Seq<Reply>,
    now: Instant,
    after: EngineView,
)
    requires
        is_fallback(replies, engine.resolvers, name),
        replies.len() <= u64::MAX,
        engine.absorbs(name, failures_of(replies), replies.last(), now, after),
    ensures
        after.stats.resolver_failures == plus(
            engine.stats.resolver_failures,
            (replies.filter(|r: Reply| r is Err).len()) as u64,
        ),
{
    lemma_failures(replies);
}

proof fn lemma_failures(replies: Seq<Reply>)
    requires
        replies.len() > 0,
        forall|i: int| 0 <= i < replies.len() - 1 ==> (#[trigger] replies[i]) is Err,
    ensures
        replies.filter(|r: Reply| r is Err).len() == (if replies.last() is Err {
            replies.len() as int
        } else {
            replies.len() - 1
        }),
    decreases replies.len(),
{
    reveal(Seq::filter);
    let front = replies.drop_last();
    if front.len() > 0 {
        assert forall|i: int| 0 <= i < front.len() - 1 implies (#[trigger] front[i]) is Err by {
            assert(front[i] == replies[i]);
        }
        assert(front.last() == replies[replies.len() - 2]);
        lemma_failures(front);
    } else {
        assert(front.filter(|r: Reply| r is Err).len() == 0);
    }
}

/// Looking a name up changes nothing of what is fresh, then or later.
pub proof fn law_lookup_drops_only_what_has_expired(
    cache: CacheView,
    name: Seq<char>,
    now: Instant,
    other: Seq<char>,
    later: Instant,
)
    requires
        now.nanos <= later.nanos,
    ensures
        cache.looked_up(name, now).fresh(other, later) == cache.fresh(other, later),
        cache.fresh(name, now) is None ==> !cache.looked_up(name, now).entries.contains_key(name),
        other != name ==> (cache.looked_up(name, now).entries.contains_key(other)
            <==> cache.entries.contains_key(other)),
{
}

/// A new answer replaces an older one of its name, and of the others what has expired
/// is gone and the rest is as it was.
pub proof fn law_insertion_keeps_the_others(
    cache: CacheView,
    name: Seq<char>,
    addresses: Seq<IpAddr>,
    ttl: Option<Duration>,
    now: Instant,
    after: CacheView,
    other: Seq<char>,
)
    requires
        cache.wf(),
        cache.inserts(name, addresses, ttl, now, after),
        ttl matches Some(t) ==> t.nanos > 0,
        other != name,
    ensures
        after.fresh(name, now) == Some(addresses),
        after.capacity == cache.capacity,
        after.max_ttl == cache.max_ttl,
        after.entries.contains_key(other) ==> cache.entries.contains_key(other)
            && after.entries[other] == cache.entries[other] && cache.entries[other].expires
            > now.nanos,
{
}

/// The system's resolver answers with the first sixteen addresses that it lists, each
/// once, for as long as the cache likes; a list without addresses is no answer.
pub proof fn law_system_answers_with_its_first_addresses(name: Seq<char>, listed: Seq<IpAddr>)
    ensures
        system_reply(name, listed) is Err <==> listed.len() == 0,
        system_reply(name, listed) matches Ok(a) ==> {
            &&& a.ttl is None
            &&& dns::is_address_list(a.addresses)
            &&& a.addresses[0] == listed[0]
            &&& forall|i: int|
                0 <= i < listed.len() && i < 16 ==> a.addresses.contains(#[trigger] listed[i])
            &&& forall|x: IpAddr| #[trigger]
                a.addresses.contains(x) ==> listed.take(
                    if listed.len() < 16 {
                        listed.len() as int
                    } else {
                        16
                    },
                ).contains(x)
        },
{
    if listed.len() > 0 {
        let first = if listed.len() > 16 {
            listed.take(16)
        } else {
            listed
        };
        dns::law_answer_lists_its_addresses(first, None);
        let n = if listed.len() < 16 {
            listed.len() as int
        } else {
            16
        };
        assert(first =~= listed.take(n));
        let a = system_reply(name, listed)->Ok_0;
        assert forall|i: int| 0 <= i < listed.len() && i < 16 implies a.addresses.contains(
            #[trigger] listed[i],
        ) by {
            assert(first[i] == listed[i]);
            assert(first.contains(listed[i]));
            if !a.addresses.contains(listed[i]) {
                lemma_full_list(first, a.addresses);
            }
        }
    }
}

/// A list of sixteen distinct addresses that all come from a list of sixteen holds all
/// of it.
proof fn lemma_full_list(first: Seq<IpAddr>, d: Seq<IpAddr>)
    requires
        first.len() <= 16,
        d.len() == 16,
        d.no_duplicates(),
        forall|x: IpAddr| #[trigger] d.contains(x) ==> first.contains(x),
    ensures
        forall|x: IpAddr| first.contains(x) ==> #[trigger] d.contains(x),
{
    let a = d.to_set();
    let b = first.to_set();
    d.unique_seq_to_set();
    vstd::seq_lib::seq_to_set_is_finite(first);
    first.lemma_cardinality_of_set();
    assert(a.subset_of(b));
    vstd::set_lib::lemma_len_subset(a, b);
    vstd::set_lib::lemma_subset_equality(a, b);
    assert forall|x: IpAddr| first.contains(x) implies #[trigger] d.contains(x) by {
        assert(b.contains(x));
        assert(a.contains(x));
    }
}

/// An engine asks the resolvers that it was given, in that order, knows the names of its hosts
/// table, and begins with nothing cached and nothing counted. It needs a resolver and a cache
/// of a sound size.
pub proof fn law_engine_begins_with_what_it_was_given(
    hosts: HostsTable,
    resolvers: Vec<Arc<dyn Resolver>>,
    capacity: usize,
    ttl: Duration,
    r: Result<DnsEngine, DnsError>,
)
    requires
        call_ensures(DnsEngine::with_resolvers, (hosts, resolvers, capacity, ttl), r),
    ensures
        r is Ok <==> resolvers@.len() > 0 && capacity > 0 && 0 < ttl.nanos <= 300_000_000_000,
        r matches Ok(e) ==> {
            &&& e@.hosts == hosts@
            &&& e@.resolvers == resolvers@
            &&& e@.cache.capacity == capacity
            &&& e@.cache.max_ttl == ttl
            &&& forall|name: Seq<char>| !#[trigger] e@.cache.entries.contains_key(name)
            &&& e@.stats.hosts_hits == 0 && e@.stats.cache_hits == 0
            &&& e@.stats.cache_misses == 0 && e@.stats.resolver_failures == 0
        },
        r matches Err(e) ==> (e@.kind == DnsErrorKind::NoResolvers <==> resolvers@.len() == 0),
{
}

/// Without further words an engine caches 4096 answers, for a minute at most.
pub proof fn law_engine_caches_for_a_minute(
    hosts: HostsTable,
    resolvers: Vec<Arc<dyn Resolver>>,
    r: DnsEngine,
)
    requires
        call_ensures(DnsEngine::chain, (hosts, resolvers), r),
    ensures
        r@.hosts == hosts@,
        r@.resolvers == resolvers@,
        r@.cache.capacity == 4096,
        r@.cache.max_ttl.nanos == 60_000_000_000,
        forall|name: Seq<char>| !#[trigger] r@.cache.entries.contains_key(name),
{
}

} // verus!
