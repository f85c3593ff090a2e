//! Compatibility boundary with existing filtering ecosystems.
//!
//! Source formats terminate here and compile into native typed structures.

use crate::domain_set;
use crate::domain_set::{DomainFilter, DomainFilterView, DomainSet, DomainSetView};
use crate::net;
use crate::text;
use crate::text::Class;
use vstd::prelude::*;
use vstd::string::*;

verus! {

pub const MAX_BLOCKLIST_BYTES: usize = 8 * 1024 * 1024;

pub const MAX_BLOCKLIST_ENTRIES: usize = 250_000;

#[derive(Clone, Copy, Debug, PartialEq, Eq, Structural)]
pub struct BlocklistStats {
    pub source_lines: usize,
    pub accepted_block: usize,
    pub accepted_allow: usize,
    pub ignored: usize,
}

impl Default for BlocklistStats {
    fn default() -> (r: BlocklistStats)
        ensures
            r == (BlocklistStats {
                source_lines: 0,
                accepted_block: 0,
                accepted_allow: 0,
                ignored: 0,
            }),
    {
        BlocklistStats { source_lines: 0, accepted_block: 0, accepted_allow: 0, ignored: 0 }
    }
}

#[derive(Debug, PartialEq, Eq)]
pub struct CompiledBlocklist {
    filter: DomainFilter,
    stats: BlocklistStats,
}

#[derive(Debug, PartialEq, Eq)]
pub struct BlocklistError {
    line: Option<usize>,
    message: String,
}

#[verifier::ext_equal]
pub struct BlocklistErrorView {
    pub line: Option<nat>,
    pub message: Seq<char>,
}

impl View for BlocklistError {
    type V = BlocklistErrorView;

    closed spec fn view(&self) -> BlocklistErrorView {
        BlocklistErrorView {
            line: match self.line {
                Some(n) => Some(n as nat),
                None => None,
            },
            message: self.message@,
        }
    }
}

impl Clone for BlocklistError {
    fn clone(&self) -> (r: BlocklistError)
        ensures
            r@ == self@,
    {
        BlocklistError { line: self.line, message: self.message.clone() }
    }
}

impl BlocklistErrorView {
    pub open spec fn text(self) -> Seq<char> {
        match self.line {
            Some(n) => "blocklist line "@ + text::decimal(n) + ": "@ + self.message,
            None => self.message,
        }
    }
}

impl BlocklistError {
    fn global(message: &str) -> (r: BlocklistError)
        ensures
            r@ == (BlocklistErrorView { line: None, message: message@ }),
    {
        BlocklistError { line: None, message: message.to_owned() }
    }

    fn at(line: usize, message: &str) -> (r: BlocklistError)
        ensures
            r@ == (BlocklistErrorView { line: Some(line as nat), message: message@ }),
    {
        BlocklistError { line: Some(line), message: message.to_owned() }
    }

    /// The message, with the line that it is about.
    pub fn text(&self) -> (r: String)
        ensures
            r@ == self@.text(),
    {
        match self.line {
            Some(n) => {
                let mut out = "blocklist line ".to_owned();
                text::push_decimal(&mut out, n as u64);
                out.append(": ");
                out.append(self.message.as_str());
                out
            },
            None => self.message.clone(),
        }
    }
}

#[derive(Clone, Copy, Debug, PartialEq, Eq, Structural)]
pub enum RuleKind {
    BlockExact,
    BlockSuffix,
    AllowSuffix,
}

pub open spec fn is_alias(host: Seq<char>) -> bool {
    ||| text::same_text(host, "localhost"@)
    ||| text::same_text(host, "localhost.localdomain"@)
    ||| text::same_text(host, "broadcasthost"@)
    ||| text::same_text(host, "ip6-localhost"@)
    ||| text::same_text(host, "ip6-loopback"@)
}

pub open spec fn domain_rule(kind: RuleKind, value: Seq<char>) -> Result<
    Option<(RuleKind, Seq<char>)>,
    Seq<char>,
> {
    let n = domain_set::normalized(value);
    if domain_set::valid(n) {
        Ok(Some((kind, n)))
    } else {
        Err("invalid domain"@)
    }
}

/// The one host name of a hosts line that is no alias of the local host.
pub open spec fn hosts_rule(hosts: Seq<Seq<char>>, accepted: Option<Seq<char>>) -> Result<
    Option<(RuleKind, Seq<char>)>,
    Seq<char>,
>
    decreases hosts.len(),
{
    if hosts.len() == 0 {
        match accepted {
            Some(d) => Ok(Some((RuleKind::BlockExact, d))),
            None => Ok(None),
        }
    } else if is_alias(hosts[0]) {
        hosts_rule(hosts.drop_first(), accepted)
    } else if accepted is Some {
        Err("hosts lines must contain at most one non-localhost hostname in this alpha"@)
    } else {
        let n = domain_set::normalized(hosts[0]);
        if domain_set::valid(n) {
            hosts_rule(hosts.drop_first(), Some(n))
        } else {
            Err("invalid domain"@)
        }
    }
}

/// What one line says: nothing, or a domain to block or to allow.
pub open spec fn line_rule(raw: Seq<char>) -> Result<Option<(RuleKind, Seq<char>)>, Seq<char>> {
    let v = text::trim(raw, Class::Space);
    if v.len() == 0 || v[0] == '#' || v[0] == '!' {
        Ok(None)
    } else if text::starts_with(v, seq!['@', '@', '|', '|']) && v.len() > 4 && v.last() == '^' {
        domain_rule(RuleKind::AllowSuffix, v.subrange(4, v.len() - 1))
    } else if text::starts_with(v, seq!['|', '|']) && v.len() > 2 && v.last() == '^' {
        domain_rule(RuleKind::BlockSuffix, v.subrange(2, v.len() - 1))
    } else {
        let f = text::fields(text::trim(text::before(v, '#'), Class::Space));
        if f.len() == 0 {
            Ok(None)
        } else if net::ip(f[0]) is Some {
            hosts_rule(f.drop_first(), None)
        } else if f.len() > 1 {
            Err(
                "unsupported blocklist syntax; expected one domain, hosts entry, `||domain^`, or `@@||domain^`"@,
            )
        } else {
            domain_rule(RuleKind::BlockExact, f[0])
        }
    }
}

/// What the lines so far have given.
#[verifier::ext_equal]
pub struct ListView {
    pub blocked_exact: Seq<Seq<char>>,
    pub blocked_suffix: Seq<Seq<char>>,
    pub allowed_suffix: Seq<Seq<char>>,
    pub ignored: nat,
}

impl ListView {
    pub open spec fn entries(self) -> nat {
        self.blocked_exact.len() + self.blocked_suffix.len() + self.allowed_suffix.len()
    }

    pub open spec fn with(self, kind: RuleKind, domain: Seq<char>) -> ListView {
        match kind {
            RuleKind::BlockExact => ListView {
                blocked_exact: self.blocked_exact.push(domain),
                ..self
            },
            RuleKind::BlockSuffix => ListView {
                blocked_suffix: self.blocked_suffix.push(domain),
                ..self
            },
            RuleKind::AllowSuffix => ListView {
                allowed_suffix: self.allowed_suffix.push(domain),
                ..self
            },
        }
    }
}

/// The lines taken one after the other; the first that fails ends it.
pub open spec fn read_lines(lines: Seq<Seq<char>>) -> Result<ListView, BlocklistErrorView>
    decreases lines.len(),
{
    if lines.len() == 0 {
        Ok(
            ListView {
                blocked_exact: Seq::empty(),
                blocked_suffix: Seq::empty(),
                allowed_suffix: Seq::empty(),
                ignored: 0,
            },
        )
    } else {
        match read_lines(lines.drop_last()) {
            Err(e) => Err(e),
            Ok(list) => match line_rule(lines.last()) {
                Err(m) => Err(BlocklistErrorView { line: Some(lines.len()), message: m }),
                Ok(None) => Ok(ListView { ignored: list.ignored + 1, ..list }),
                Ok(Some((kind, domain))) => if list.entries() >= 250_000 {
                    Err(
                        BlocklistErrorView {
                            line: Some(lines.len()),
                            message: "entry count exceeds 250000"@,
                        },
                    )
                } else {
                    Ok(list.with(kind, domain))
                },
            },
        }
    }
}

/// The list that a text compiles to.
pub open spec fn blocklist(s: Seq<char>) -> Result<ListView, BlocklistErrorView> {
    if text::byte_len(s) > 8_388_608 {
        Err(BlocklistErrorView { line: None, message: "blocklist exceeds 8388608 byte limit"@ })
    } else {
        read_lines(text::lines(s))
    }
}

impl ListView {
    pub open spec fn filter(self) -> DomainFilterView {
        DomainFilterView {
            blocked: DomainSetView {
                exact: self.blocked_exact.to_set(),
                suffixes: self.blocked_suffix.to_set(),
            },
            allowed: DomainSetView {
                exact: Set::empty(),
                suffixes: self.allowed_suffix.to_set(),
            },
        }
    }
}

fn is_localhost_alias(host: &[char]) -> (r: bool)
    ensures
        r == is_alias(host@),
{
    let a = text::chars_of("localhost");
    let b = text::chars_of("localhost.localdomain");
    let c = text::chars_of("broadcasthost");
    let d = text::chars_of("ip6-localhost");
    let e = text::chars_of("ip6-loopback");
    text::same_text_of(host, a.as_slice()) || text::same_text_of(host, b.as_slice())
        || text::same_text_of(host, c.as_slice()) || text::same_text_of(host, d.as_slice())
        || text::same_text_of(host, e.as_slice())
}

fn parse_domain(value: &[char], line: usize) -> (r: Result<String, BlocklistError>)
    ensures
        match r {
            Ok(d) => domain_set::valid(domain_set::normalized(value@)) && d@
                == domain_set::normalized(value@),
            Err(e) => !domain_set::valid(domain_set::normalized(value@)) && e@
                == (BlocklistErrorView { line: Some(line as nat), message: "invalid domain"@ }),
        },
{
    let low = text::lower_of(text::trim_of(value, Class::Is('.')));
    if domain_set::is_valid(low.as_slice()) {
        Ok(text::to_text(low.as_slice()))
    } else {
        Err(BlocklistError::at(line, "invalid domain"))
    }
}

/// What a call that reads a line returned says the same as the model.
pub open spec fn agrees(
    r: Result<Option<(RuleKind, String)>, BlocklistError>,
    m: Result<Option<(RuleKind, Seq<char>)>, Seq<char>>,
    line: nat,
) -> bool {
    match (r, m) {
        (Ok(Some((k, d))), Ok(Some((mk, md)))) => k == mk && d@ == md,
        (Ok(None), Ok(None)) => true,
        (Err(e), Err(text)) => e@ == (BlocklistErrorView { line: Some(line), message: text }),
        _ => false,
    }
}

fn parse_rule(kind: RuleKind, value: &[char], line: usize) -> (r: Result<
    Option<(RuleKind, String)>,
    BlocklistError,
>)
    ensures
        agrees(r, domain_rule(kind, value@), line as nat),
{
    match parse_domain(value, line) {
        Ok(d) => Ok(Some((kind, d))),
        Err(e) => Err(e),
    }
}

fn parse_hosts(fields: &Vec<&[char]>, line: usize) -> (r: Result<
    Option<(RuleKind, String)>,
    BlocklistError,
>)
    requires
        fields@.len() >= 1,
    ensures
        agrees(r, hosts_rule(text::texts(fields@).drop_first(), None), line as nat),
{
    let ghost hosts = text::texts(fields@).drop_first();
    let mut accepted: Option<String> = None;
    let mut i: usize = 1;
    assert(hosts.skip(0) == hosts);
    while i < fields.len()
        invariant
            1 <= i <= fields@.len(),
            hosts == text::texts(fields@).drop_first(),
            hosts_rule(hosts, None) == hosts_rule(
                hosts.skip(i - 1),
                crate::flow::optional_text(accepted),
            ),
        decreases fields@.len() - i,
    {
        let ghost rest = hosts.skip(i - 1);
        assert(rest[0] == fields@[i as int]@);
        assert(rest.drop_first() == hosts.skip(i as int));
        if !is_localhost_alias(fields[i]) {
            if accepted.is_some() {
                return Err(
                    BlocklistError::at(
                        line,
                        "hosts lines must contain at most one non-localhost hostname in this alpha",
                    ),
                );
            }
            match parse_domain(fields[i], line) {
                Ok(d) => {
                    accepted = Some(d);
                },
                Err(e) => {
                    return Err(e);
                },
            }
        }
        i = i + 1;
    }
    match accepted {
        Some(d) => Ok(Some((RuleKind::BlockExact, d))),
        None => Ok(None),
    }
}

/// Reads one line.
pub fn parse_line(raw: &[char], line: usize) -> (r: Result<
    Option<(RuleKind, String)>,
    BlocklistError,
>)
    ensures
        agrees(r, line_rule(raw@), line as nat),
{
    let v = text::trim_of(raw, Class::Space);
    if v.len() == 0 || v[0] == '#' || v[0] == '!' {
        return Ok(None);
    }
    proof {
        reveal_strlit("@@||");
        reveal_strlit("||");
        assert("@@||"@ =~= seq!['@', '@', '|', '|']);
        assert("||"@ =~= seq!['|', '|']);
    }
    if text::starts_with_of(v, "@@||") && v.len() > 4 && v[v.len() - 1] == '^' {
        return parse_rule(RuleKind::AllowSuffix, &v[4..v.len() - 1], line);
    }
    if text::starts_with_of(v, "||") && v.len() > 2 && v[v.len() - 1] == '^' {
        return parse_rule(RuleKind::BlockSuffix, &v[2..v.len() - 1], line);
    }
    let fields = text::fields_of(text::trim_of(text::before_of(v, '#'), Class::Space));
    let ghost f = text::fields(text::trim(text::before(v@, '#'), Class::Space));
    assert(text::texts(fields@) == f);
    if fields.len() == 0 {
        return Ok(None);
    }
    assert(f[0] == fields@[0]@);
    if net::ip_of(fields[0]).is_some() {
        return parse_hosts(&fields, line);
    }
    if fields.len() > 1 {
        return Err(
            BlocklistError::at(
                line,
                "unsupported blocklist syntax; expected one domain, hosts entry, `||domain^`, or `@@||domain^`",
            ),
        );
    }
    parse_rule(RuleKind::BlockExact, fields[0], line)
}

fn enforce_entry_limit(current: usize, line: usize) -> (r: Result<(), BlocklistError>)
    ensures
        match r {
            Ok(_) => current < 250_000,
            Err(e) => current >= 250_000 && e@ == (BlocklistErrorView {
                line: Some(line as nat),
                message: "entry count exceeds 250000"@,
            }),
        },
{
    if current >= MAX_BLOCKLIST_ENTRIES {
        Err(BlocklistError::at(line, "entry count exceeds 250000"))
    } else {
        Ok(())
    }
}

/// Every entry is a normalised domain.
pub open spec fn entries_valid(s: Seq<Seq<char>>) -> bool {
    forall|i: int|
        0 <= i < s.len() ==> domain_set::valid(#[trigger] s[i]) && domain_set::normalized(s[i])
            == s[i]
}

proof fn lemma_domain_rule(kind: RuleKind, value: Seq<char>)
    ensures
        domain_rule(kind, value) matches Ok(Some((k, d))) ==> domain_set::valid(d)
            && domain_set::normalized(d) == d,
{
    domain_set::law_normalizing_is_idempotent(value);
}

proof fn lemma_hosts_rule(hosts: Seq<Seq<char>>, accepted: Option<Seq<char>>)
    requires
        accepted matches Some(d) ==> domain_set::valid(d) && domain_set::normalized(d) == d,
    ensures
        hosts_rule(hosts, accepted) matches Ok(Some((k, d))) ==> domain_set::valid(d)
            && domain_set::normalized(d) == d,
    decreases hosts.len(),
{
    if hosts.len() > 0 {
        domain_set::law_normalizing_is_idempotent(hosts[0]);
        if is_alias(hosts[0]) {
            lemma_hosts_rule(hosts.drop_first(), accepted);
        } else if accepted is None && domain_set::valid(domain_set::normalized(hosts[0])) {
            lemma_hosts_rule(hosts.drop_first(), Some(domain_set::normalized(hosts[0])));
        }
    }
}

proof fn lemma_line_rule(raw: Seq<char>)
    ensures
        line_rule(raw) matches Ok(Some((k, d))) ==> domain_set::valid(d) && domain_set::normalized(
            d,
        ) == d,
{
    let v = text::trim(raw, Class::Space);
    if v.len() > 0 {
        lemma_domain_rule(RuleKind::AllowSuffix, v.subrange(4, v.len() - 1));
        lemma_domain_rule(RuleKind::BlockSuffix, v.subrange(2, v.len() - 1));
        let f = text::fields(text::trim(text::before(v, '#'), Class::Space));
        lemma_hosts_rule(f.drop_first(), None);
        lemma_domain_rule(RuleKind::BlockExact, f[0]);
    }
}

proof fn lemma_push_valid(s: Seq<Seq<char>>, d: Seq<char>)
    requires
        entries_valid(s),
        domain_set::valid(d),
        domain_set::normalized(d) == d,
    ensures
        entries_valid(s.push(d)),
{
}

/// A list that was read holds normalised domains only.
pub proof fn law_entries_are_normalized(lines: Seq<Seq<char>>)
    ensures
        read_lines(lines) matches Ok(list) ==> entries_valid(list.blocked_exact) && entries_valid(
            list.blocked_suffix,
        ) && entries_valid(list.allowed_suffix) && list.entries() <= 250_000 && list.entries()
            + list.ignored == lines.len(),
    decreases lines.len(),
{
    if lines.len() > 0 {
        law_entries_are_normalized(lines.drop_last());
        lemma_line_rule(lines.last());
        if let Ok(list) = read_lines(lines.drop_last()) {
            if let Ok(Some((k, d))) = line_rule(lines.last()) {
                lemma_push_valid(list.blocked_exact, d);
                lemma_push_valid(list.blocked_suffix, d);
                lemma_push_valid(list.allowed_suffix, d);
            }
        }
    }
}

fn compile_set(exact: Vec<String>, suffixes: Vec<String>) -> (r: Result<DomainSet, BlocklistError>)
    requires
        entries_valid(domain_set::words(exact@)),
        entries_valid(domain_set::words(suffixes@)),
    ensures
        r matches Ok(set) && set@ == (DomainSetView {
            exact: domain_set::words(exact@).to_set(),
            suffixes: domain_set::words(suffixes@).to_set(),
        }),
{
    let ghost x = domain_set::words(exact@);
    let ghost y = domain_set::words(suffixes@);
    proof {
        assert(domain_set::all_normalized(x) =~= x);
        assert(domain_set::all_normalized(y) =~= y);
        assert forall|i: int| 0 <= i < (x + y).len() implies domain_set::valid(
            domain_set::normalized(#[trigger] (x + y)[i]),
        ) by {
            if i < x.len() {
                assert((x + y)[i] == x[i]);
            } else {
                assert((x + y)[i] == y[i - x.len()]);
            }
        }
    }
    match DomainSet::compile(exact, suffixes) {
        Ok(set) => Ok(set),
        Err(e) => Err(BlocklistError::global(e.text())),
    }
}

impl Clone for CompiledBlocklist {
    fn clone(&self) -> (r: CompiledBlocklist)
        ensures
            r.spec_filter() == self.spec_filter(),
            r.spec_stats() == self.spec_stats(),
    {
        CompiledBlocklist { filter: self.filter.clone(), stats: self.stats }
    }
}

impl CompiledBlocklist {
    pub closed spec fn spec_filter(&self) -> DomainFilterView {
        self.filter@
    }

    pub closed spec fn spec_stats(&self) -> BlocklistStats {
        self.stats
    }

    pub fn filter(&self) -> (r: &DomainFilter)
        ensures
            r@ == self.spec_filter(),
    {
        &self.filter
    }

    pub fn stats(&self) -> (r: BlocklistStats)
        ensures
            r == self.spec_stats(),
    {
        self.stats
    }

    pub fn into_filter(self) -> (r: DomainFilter)
        ensures
            r@ == self.spec_filter(),
    {
        self.filter
    }
}

/// Compiles a hosts file, a plain domain list or an adblock domain list.
pub fn compile_blocklist(source: &str) -> (r: Result<CompiledBlocklist, BlocklistError>)
    ensures
        match r {
            Ok(c) => blocklist(source@) matches Ok(list) && {
                &&& c.spec_filter() == list.filter()
                &&& c.spec_stats().source_lines == text::lines(source@).len()
                &&& c.spec_stats().accepted_block == list.blocked_exact.len()
                    + list.blocked_suffix.len()
                &&& c.spec_stats().accepted_allow == list.allowed_suffix.len()
                &&& c.spec_stats().ignored == list.ignored
            },
            Err(e) => blocklist(source@) == Err::<ListView, BlocklistErrorView>(e@),
        },
{
    if text::byte_len_of(source) > MAX_BLOCKLIST_BYTES {
        return Err(BlocklistError::global("blocklist exceeds 8388608 byte limit"));
    }
    let chars = text::chars_of(source);
    let lines = text::lines_of(chars.as_slice());
    let ghost all = text::lines(source@);
    let mut exact: Vec<String> = Vec::new();
    let mut suffix: Vec<String> = Vec::new();
    let mut allowed: Vec<String> = Vec::new();
    let mut stats = BlocklistStats::default();
    let ghost mut list = ListView {
        blocked_exact: Seq::empty(),
        blocked_suffix: Seq::empty(),
        allowed_suffix: Seq::empty(),
        ignored: 0,
    };
    let mut i: usize = 0;
    assert(domain_set::words(exact@) =~= Seq::<Seq<char>>::empty());
    while i < lines.len()
        invariant
            i <= lines@.len(),
            text::texts(lines@) == all,
            all == text::lines(source@),
            text::byte_len(source@) <= 8_388_608,
            read_lines(all.take(i as int)) == Ok::<ListView, BlocklistErrorView>(list),
            domain_set::words(exact@) == list.blocked_exact,
            domain_set::words(suffix@) == list.blocked_suffix,
            domain_set::words(allowed@) == list.allowed_suffix,
            list.entries() <= 250_000,
            list.entries() + list.ignored == i,
            stats.source_lines == i,
            stats.accepted_block == exact@.len() + suffix@.len(),
            stats.accepted_allow == allowed@.len(),
            stats.ignored == list.ignored,
        decreases lines@.len() - i,
    {
        assert(all[i as int] == lines@[i as int]@);
        assert(all.take(i + 1).drop_last() == all.take(i as int));
        assert(all.take(i + 1).last() == all[i as int]);
        proof {
            lemma_read_error(all, i + 1);
            assert(all.take(all.len() as int) == all);
        }
        stats.source_lines = stats.source_lines + 1;
        match parse_line(lines[i], i + 1) {
            Err(e) => {
                return Err(e);
            },
            Ok(None) => {
                stats.ignored = stats.ignored + 1;
                proof {
                    list = ListView { ignored: list.ignored + 1, ..list };
                }
            },
            Ok(Some((kind, domain))) => {
                match enforce_entry_limit(exact.len() + suffix.len() + allowed.len(), i + 1) {
                    Err(e) => {
                        return Err(e);
                    },
                    Ok(_) => {},
                }
                proof {
                    list = list.with(kind, domain@);
                    domain_set::lemma_words_push(exact@, domain);
                    domain_set::lemma_words_push(suffix@, domain);
                    domain_set::lemma_words_push(allowed@, domain);
                }
                match kind {
                    RuleKind::BlockExact => {
                        exact.push(domain);
                        stats.accepted_block = stats.accepted_block + 1;
                    },
                    RuleKind::BlockSuffix => {
                        suffix.push(domain);
                        stats.accepted_block = stats.accepted_block + 1;
                    },
                    RuleKind::AllowSuffix => {
                        allowed.push(domain);
                        stats.accepted_allow = stats.accepted_allow + 1;
                    },
                }
            },
        }
        i = i + 1;
    }
    assert(all.take(i as int) == all);
    proof {
        law_entries_are_normalized(all);
    }
    let blocked = match compile_set(exact, suffix) {
        Ok(set) => set,
        Err(e) => {
            return Err(e);
        },
    };
    let none: Vec<String> = Vec::new();
    assert(domain_set::words(none@) =~= Seq::<Seq<char>>::empty());
    let exceptions = match compile_set(none, allowed) {
        Ok(set) => set,
        Err(e) => {
            return Err(e);
        },
    };
    assert(Seq::<Seq<char>>::empty().to_set() =~= Set::<Seq<char>>::empty());
    Ok(CompiledBlocklist { filter: DomainFilter::new(blocked, exceptions), stats })
}

/// A failure in the first lines is the failure of the whole.
proof fn lemma_read_error(lines: Seq<Seq<char>>, n: int)
    requires
        0 <= n <= lines.len(),
    ensures
        read_lines(lines.take(n)) matches Err(e) ==> read_lines(lines) == Err::<
            ListView,
            BlocklistErrorView,
        >(e),
    decreases lines.len() - n,
{
    if n < lines.len() {
        assert(lines.take(n + 1).drop_last() == lines.take(n));
        lemma_read_error(lines, n + 1);
    } else {
        assert(lines.take(n) == lines);
    }
}

/// A word without a number sign, which a line can be made of.
pub open spec fn is_plain_word(s: Seq<char>) -> bool {
    &&& s.len() > 0
    &&& forall|i: int|
        0 <= i < s.len() ==> !text::is_space(#[trigger] s[i]) && s[i] != '#'
}

proof fn lemma_plain_line(v: Seq<char>)
    requires
        v.len() > 0,
        !text::is_space(v[0]),
        !text::is_space(v.last()),
        forall|i: int| 0 <= i < v.len() ==> #[trigger] v[i] != '#',
    ensures
        text::trim(v, Class::Space) == v,
        text::trim(text::before(v, '#'), Class::Space) == v,
{
    text::lemma_trim_nothing(v, Class::Space);
    let k = Class::IsNot('#');
    assert forall|i: int| 0 <= i < v.len() implies k.has(#[trigger] v[i]) by {}
    text::lemma_leading_is(v, k, v.len());
    assert(v.take(v.len() as int) =~= v);
}

/// What the forms of a line mean for a domain: alone or behind an address the domain is
/// blocked, between bars and a caret all that ends with it is, and with two at signs in
/// front that is lifted again.
pub proof fn law_forms_of_a_line(address: Seq<char>, d: Seq<char>)
    requires
        is_plain_word(d),
        domain_set::valid(d),
        domain_set::normalized(d) == d,
        d[0] != '!' && d[0] != '|' && d[0] != '@',
        net::ip(d) is None,
        !is_alias(d),
        is_plain_word(address),
        net::ip(address) is Some,
        address[0] != '!' && address[0] != '|' && address[0] != '@',
    ensures
        line_rule(d) == Ok::<Option<(RuleKind, Seq<char>)>, Seq<char>>(
            Some((RuleKind::BlockExact, d)),
        ),
        line_rule(address + seq![' '] + d) == Ok::<Option<(RuleKind, Seq<char>)>, Seq<char>>(
            Some((RuleKind::BlockExact, d)),
        ),
        line_rule(seq!['|', '|'] + d + seq!['^']) == Ok::<
            Option<(RuleKind, Seq<char>)>,
            Seq<char>,
        >(Some((RuleKind::BlockSuffix, d))),
        line_rule(seq!['@', '@', '|', '|'] + d + seq!['^']) == Ok::<
            Option<(RuleKind, Seq<char>)>,
            Seq<char>,
        >(Some((RuleKind::AllowSuffix, d))),
{
    lemma_domain_alone(d);
    lemma_domain_behind_address(address, d);
    lemma_domain_between_bars(d);
}

/// A text that begins with another character is not of the forms with bars.
proof fn lemma_no_bars(v: Seq<char>)
    requires
        v.len() > 0,
        v[0] != '|',
        v[0] != '@',
    ensures
        !text::starts_with(v, seq!['|', '|']),
        !text::starts_with(v, seq!['@', '@', '|', '|']),
{
    if text::starts_with(v, seq!['|', '|']) {
        assert(v.take(2)[0] == v[0]);
    }
    if text::starts_with(v, seq!['@', '@', '|', '|']) {
        assert(v.take(4)[0] == v[0]);
    }
}

proof fn lemma_domain_alone(d: Seq<char>)
    requires
        is_plain_word(d),
        domain_set::valid(d),
        domain_set::normalized(d) == d,
        d[0] != '!' && d[0] != '|' && d[0] != '@',
        net::ip(d) is None,
    ensures
        line_rule(d) == Ok::<Option<(RuleKind, Seq<char>)>, Seq<char>>(
            Some((RuleKind::BlockExact, d)),
        ),
{
    lemma_plain_line(d);
    lemma_one_word(d);
    lemma_no_bars(d);
}

proof fn lemma_domain_behind_address(address: Seq<char>, d: Seq<char>)
    requires
        is_plain_word(d),
        domain_set::valid(d),
        domain_set::normalized(d) == d,
        !is_alias(d),
        is_plain_word(address),
        net::ip(address) is Some,
        address[0] != '!' && address[0] != '|' && address[0] != '@',
    ensures
        line_rule(address + seq![' '] + d) == Ok::<Option<(RuleKind, Seq<char>)>, Seq<char>>(
            Some((RuleKind::BlockExact, d)),
        ),
{
    let h = address + seq![' '] + d;
    lemma_address_line(address, d);
    lemma_two_words(address, d);
    lemma_no_bars(h);
    lemma_one_host(d);
    assert(seq![address, d].drop_first() =~= seq![d]);
    lemma_hosts_form(h, address, d);
}

proof fn lemma_address_line(address: Seq<char>, d: Seq<char>)
    requires
        is_plain_word(d),
        is_plain_word(address),
    ensures
        ({
            let h = address + seq![' '] + d;
            &&& h[0] == address[0]
            &&& text::trim(h, Class::Space) == h
            &&& text::trim(text::before(h, '#'), Class::Space) == h
        }),
{
    let h = address + seq![' '] + d;
    assert(h[0] == address[0]);
    assert(h.last() == d.last());
    assert forall|i: int| 0 <= i < h.len() implies #[trigger] h[i] != '#' by {
        if i < address.len() {
            assert(h[i] == address[i]);
        } else if i > address.len() {
            assert(h[i] == d[i - address.len() - 1]);
        }
    }
    lemma_plain_line(h);
}

proof fn lemma_one_host(d: Seq<char>)
    requires
        domain_set::valid(d),
        domain_set::normalized(d) == d,
        !is_alias(d),
    ensures
        hosts_rule(seq![d], None) == Ok::<Option<(RuleKind, Seq<char>)>, Seq<char>>(
            Some((RuleKind::BlockExact, d)),
        ),
{
    let none = seq![d].drop_first();
    assert(none =~= Seq::<Seq<char>>::empty());
    assert(hosts_rule(none, Some(d)) == Ok::<Option<(RuleKind, Seq<char>)>, Seq<char>>(
        Some((RuleKind::BlockExact, d)),
    ));
}

#[verifier::rlimit(40)]
proof fn lemma_hosts_form(h: Seq<char>, address: Seq<char>, d: Seq<char>)
    requires
        text::trim(h, Class::Space) == h,
        text::trim(text::before(h, '#'), Class::Space) == h,
        text::fields(h) == seq![address, d],
        h.len() > 0,
        h[0] != '#',
        h[0] != '!',
        !text::starts_with(h, seq!['|', '|']),
        !text::starts_with(h, seq!['@', '@', '|', '|']),
        net::ip(address) is Some,
    ensures
        line_rule(h) == hosts_rule(seq![address, d].drop_first(), None),
{
}

proof fn lemma_domain_between_bars(d: Seq<char>)
    requires
        d.len() > 0,
        domain_set::valid(d),
        domain_set::normalized(d) == d,
    ensures
        line_rule(seq!['|', '|'] + d + seq!['^']) == Ok::<
            Option<(RuleKind, Seq<char>)>,
            Seq<char>,
        >(Some((RuleKind::BlockSuffix, d))),
        line_rule(seq!['@', '@', '|', '|'] + d + seq!['^']) == Ok::<
            Option<(RuleKind, Seq<char>)>,
            Seq<char>,
        >(Some((RuleKind::AllowSuffix, d))),
{
    let b = seq!['|', '|'] + d + seq!['^'];
    text::lemma_trim_nothing(b, Class::Space);
    assert(b.take(2) =~= seq!['|', '|']);
    assert(b.subrange(2, b.len() - 1) =~= d);
    assert(!text::starts_with(b, seq!['@', '@', '|', '|'])) by {
        if text::starts_with(b, seq!['@', '@', '|', '|']) {
            assert(b.take(4)[0] == b[0]);
        }
    }
    let a = seq!['@', '@', '|', '|'] + d + seq!['^'];
    text::lemma_trim_nothing(a, Class::Space);
    assert(a.take(4) =~= seq!['@', '@', '|', '|']);
    assert(a.subrange(4, a.len() - 1) =~= d);
}

proof fn lemma_one_word(d: Seq<char>)
    requires
        is_plain_word(d),
    ensures
        text::fields(d) == seq![d],
{
    text::lemma_leading_is(d, Class::Space, 0);
    assert(d.skip(0) =~= d);
    assert forall|i: int| 0 <= i < d.len() implies Class::NonSpace.has(#[trigger] d[i]) by {}
    text::lemma_leading_is(d, Class::NonSpace, d.len());
    assert(d.take(d.len() as int) =~= d);
    let behind = d.skip(d.len() as int);
    assert(behind =~= Seq::<char>::empty());
    assert(text::fields(behind) =~= Seq::<Seq<char>>::empty());
    assert(seq![d] + Seq::<Seq<char>>::empty() =~= seq![d]);
}

proof fn lemma_two_words(a: Seq<char>, d: Seq<char>)
    requires
        is_plain_word(a),
        is_plain_word(d),
    ensures
        text::fields(a + seq![' '] + d) == seq![a, d],
{
    let s = a + seq![' '] + d;
    let n = a.len();
    assert(s[0] == a[0]);
    text::lemma_leading_is(s, Class::Space, 0);
    assert(s.skip(0) =~= s);
    assert forall|i: int| 0 <= i < n implies Class::NonSpace.has(#[trigger] s[i]) by {
        assert(s[i] == a[i]);
    }
    assert(s[n as int] == ' ');
    text::lemma_leading_is(s, Class::NonSpace, n);
    assert(s.take(n as int) =~= a);
    let behind = s.skip(n as int);
    assert(behind =~= seq![' '] + d);
    assert(behind[1] == d[0]);
    text::lemma_leading_is(behind, Class::Space, 1);
    assert(behind.skip(1) =~= d);
    text::lemma_leading_is(d, Class::Space, 0);
    assert(d.skip(0) =~= d);
    lemma_one_word(d);
    assert(text::fields(behind) == text::fields(d));
    assert(seq![a] + seq![d] =~= seq![a, d]);
}

/// Blank lines and comments say nothing.
pub proof fn law_comments_say_nothing(raw: Seq<char>)
    ensures
        ({
            let v = text::trim(raw, Class::Space);
            v.len() == 0 || v[0] == '#' || v[0] == '!' ==> line_rule(raw) == Ok::<
                Option<(RuleKind, Seq<char>)>,
                Seq<char>,
            >(None)
        }),
{
}

/// Some of the lines says this of the domain.
pub open spec fn some_line_says(lines: Seq<Seq<char>>, kind: RuleKind, domain: Seq<char>) -> bool {
    exists|k: int|
        0 <= k < lines.len() && line_rule(#[trigger] lines[k]) == Ok::<
            Option<(RuleKind, Seq<char>)>,
            Seq<char>,
        >(Some((kind, domain)))
}

/// A list says of a domain what some of its lines says of it, and nothing else; a line
/// that is not understood makes it no list.
pub proof fn law_list_says_what_its_lines_say(lines: Seq<Seq<char>>, domain: Seq<char>)
    ensures
        read_lines(lines) matches Ok(list) ==> {
            &&& list.filter().blocked.exact.contains(domain) <==> some_line_says(
                lines,
                RuleKind::BlockExact,
                domain,
            )
            &&& list.filter().blocked.suffixes.contains(domain) <==> some_line_says(
                lines,
                RuleKind::BlockSuffix,
                domain,
            )
            &&& list.filter().allowed.suffixes.contains(domain) <==> some_line_says(
                lines,
                RuleKind::AllowSuffix,
                domain,
            )
            &&& !list.filter().allowed.exact.contains(domain)
            &&& forall|k: int| 0 <= k < lines.len() ==> line_rule(#[trigger] lines[k]) is Ok
        },
        lines.len() <= 250_000 && (forall|k: int|
            0 <= k < lines.len() ==> line_rule(#[trigger] lines[k]) is Ok) ==> read_lines(lines)
            is Ok,
    decreases lines.len(),
{
    if lines.len() > 0 {
        let front = lines.drop_last();
        law_list_says_what_its_lines_say(front, domain);
        law_entries_are_normalized(front);
        if lines.len() <= 250_000 && (forall|k: int|
            0 <= k < lines.len() ==> line_rule(#[trigger] lines[k]) is Ok) {
            assert forall|k: int| 0 <= k < front.len() implies line_rule(
                #[trigger] front[k],
            ) is Ok by {
                assert(front[k] == lines[k]);
            }
            assert(line_rule(lines[lines.len() - 1]) is Ok);
        }
        if let Ok(list) = read_lines(lines) {
            let before = read_lines(front)->Ok_0;
            assert forall|k: int| 0 <= k < lines.len() implies line_rule(
                #[trigger] lines[k],
            ) is Ok by {
                if k < front.len() {
                    assert(front[k] == lines[k]);
                }
            }
            lemma_said(lines, RuleKind::BlockExact, domain);
            lemma_said(lines, RuleKind::BlockSuffix, domain);
            lemma_said(lines, RuleKind::AllowSuffix, domain);
            if let Ok(Some((kind, d))) = line_rule(lines.last()) {
                lemma_push_set(before.blocked_exact, d, domain);
                lemma_push_set(before.blocked_suffix, d, domain);
                lemma_push_set(before.allowed_suffix, d, domain);
            }
        }
    }
}

proof fn lemma_said(lines: Seq<Seq<char>>, kind: RuleKind, domain: Seq<char>)
    requires
        lines.len() > 0,
    ensures
        some_line_says(lines, kind, domain) <==> some_line_says(lines.drop_last(), kind, domain)
            || line_rule(lines.last()) == Ok::<Option<(RuleKind, Seq<char>)>, Seq<char>>(
            Some((kind, domain)),
        ),
{
    let front = lines.drop_last();
    if some_line_says(front, kind, domain) {
        let k = choose|k: int|
            0 <= k < front.len() && line_rule(#[trigger] front[k]) == Ok::<
                Option<(RuleKind, Seq<char>)>,
                Seq<char>,
            >(Some((kind, domain)));
        assert(lines[k] == front[k]);
    }
    if some_line_says(lines, kind, domain) {
        let k = choose|k: int|
            0 <= k < lines.len() && line_rule(#[trigger] lines[k]) == Ok::<
                Option<(RuleKind, Seq<char>)>,
                Seq<char>,
            >(Some((kind, domain)));
        if k < front.len() {
            assert(front[k] == lines[k]);
        }
    }
    assert(lines[lines.len() - 1] == lines.last());
}

proof fn lemma_push_set(s: Seq<Seq<char>>, d: Seq<char>, domain: Seq<char>)
    ensures
        s.push(d).to_set().contains(domain) <==> s.to_set().contains(domain) || d == domain,
{
    if s.contains(domain) {
        let k = s.index_of(domain);
        assert(s.push(d)[k] == domain);
    }
    if s.push(d).contains(domain) {
        let k = s.push(d).index_of(domain);
        if k < s.len() {
            assert(s[k] == domain);
        }
    }
    assert(s.push(d)[s.len() as int] == d);
}

/// A line between bars blocks a domain with everything below it, and one with two more marks in
/// front exempts it; what stands there has to be a domain.
pub proof fn law_barred_lines_name_a_domain(inner: Seq<char>)
    requires
        inner.len() > 0,
    ensures
        ({
            let name = domain_set::normalized(inner);
            let blocked = line_rule(seq!['|', '|'] + inner + seq!['^']);
            let allowed = line_rule(seq!['@', '@', '|', '|'] + inner + seq!['^']);
            &&& domain_set::valid(name) ==> blocked == Ok::<
                Option<(RuleKind, Seq<char>)>,
                Seq<char>,
            >(Some((RuleKind::BlockSuffix, name)))
            &&& domain_set::valid(name) ==> allowed == Ok::<
                Option<(RuleKind, Seq<char>)>,
                Seq<char>,
            >(Some((RuleKind::AllowSuffix, name)))
            &&& !domain_set::valid(name) ==> blocked is Err && allowed is Err
        }),
{
    let b = seq!['|', '|'] + inner + seq!['^'];
    let a = seq!['@', '@', '|', '|'] + inner + seq!['^'];
    text::lemma_trim_nothing(b, Class::Space);
    text::lemma_trim_nothing(a, Class::Space);
    assert(b.take(2) =~= seq!['|', '|']);
    assert(a.take(4) =~= seq!['@', '@', '|', '|']);
    assert(b.subrange(2, b.len() - 1) =~= inner);
    assert(a.subrange(4, a.len() - 1) =~= inner);
    assert(b[0] == '|');
    assert(b.take(4)[0] == b[0]);
    assert(!text::starts_with(b, seq!['@', '@', '|', '|'])) by {
        if b.len() >= 4 && b.take(4) == seq!['@', '@', '|', '|'] {
            assert(b.take(4)[0] == '@');
        }
    }
}

/// Any other line is told by its words, up to a comment. One word is a domain to be blocked. An
/// address with names behind it blocks the one name that is no alias of this host, says nothing
/// when there is none, and is refused when there are more. Other lines are refused.
pub proof fn law_plain_lines_are_told_by_their_words(raw: Seq<char>, words: Seq<Seq<char>>)
    requires
        ({
            let v = text::trim(raw, Class::Space);
            &&& v.len() > 0
            &&& v[0] != '#' && v[0] != '!' && v[0] != '|' && v[0] != '@'
            &&& words == text::fields(text::trim(text::before(v, '#'), Class::Space))
        }),
    ensures
        words.len() == 0 ==> line_rule(raw) == Ok::<Option<(RuleKind, Seq<char>)>, Seq<char>>(None),
        words.len() == 1 && net::ip(words[0]) is None ==> {
            let name = domain_set::normalized(words[0]);
            &&& line_rule(raw) is Ok <==> domain_set::valid(name)
            &&& line_rule(raw) matches Ok(rule) ==> rule == Some((RuleKind::BlockExact, name))
        },
        words.len() > 1 && net::ip(words[0]) is None ==> line_rule(raw) is Err,
        words.len() > 0 && net::ip(words[0]) is Some ==> {
            &&& line_rule(raw) == Ok::<Option<(RuleKind, Seq<char>)>, Seq<char>>(None) <==> forall|
                i: int,
            |
                1 <= i < words.len() ==> is_alias(#[trigger] words[i])
            &&& forall|i: int|
                1 <= i < words.len() && only_name(words, i) && domain_set::valid(
                    domain_set::normalized(#[trigger] words[i]),
                ) ==> line_rule(raw) == Ok::<Option<(RuleKind, Seq<char>)>, Seq<char>>(
                    Some((RuleKind::BlockExact, domain_set::normalized(words[i]))),
                )
            &&& line_rule(raw) matches Ok(Some(rule)) ==> exists|i: int|
                1 <= i < words.len() && only_name(words, i) && rule == (
                    RuleKind::BlockExact,
                    domain_set::normalized(#[trigger] words[i]),
                ) && domain_set::valid(rule.1)
        },
{
    let v = text::trim(raw, Class::Space);
    assert(!text::starts_with(v, seq!['|', '|'])) by {
        if v.len() >= 2 {
            assert(v.take(2)[0] == v[0]);
            assert(seq!['|', '|'][0] == '|');
        }
    }
    assert(!text::starts_with(v, seq!['@', '@', '|', '|'])) by {
        if v.len() >= 4 {
            assert(v.take(4)[0] == v[0]);
            assert(seq!['@', '@', '|', '|'][0] == '@');
        }
    }
    if words.len() > 0 && net::ip(words[0]) is Some {
        let hosts = words.drop_first();
        assert(line_rule(raw) == hosts_rule(hosts, None));
        lemma_hosts_names(hosts);
        assert forall|i: int| 1 <= i < words.len() implies #[trigger] words[i] == hosts[i - 1] by {}
        assert forall|i: int| 0 <= i < hosts.len() implies #[trigger] hosts[i] == words[i + 1] by {}
        assert forall|i: int| 1 <= i < words.len() && only_name(words, i) implies only_host(
            hosts,
            i - 1,
        ) by {
            assert forall|j: int| 0 <= j < hosts.len() && j != i - 1 implies is_alias(
                #[trigger] hosts[j],
            ) by {
                assert(is_alias(words[j + 1]));
            }
        }
        assert forall|i: int| 0 <= i < hosts.len() && only_host(hosts, i) implies only_name(
            words,
            i + 1,
        ) by {
            assert forall|j: int| 1 <= j < words.len() && j != i + 1 implies is_alias(
                #[trigger] words[j],
            ) by {
                assert(is_alias(hosts[j - 1]));
            }
        }
        if hosts_rule(hosts, None) == Ok::<Option<(RuleKind, Seq<char>)>, Seq<char>>(None) {
            assert forall|i: int| 1 <= i < words.len() implies is_alias(#[trigger] words[i]) by {
                assert(is_alias(hosts[i - 1]));
            }
        }
        if forall|i: int| 1 <= i < words.len() ==> is_alias(#[trigger] words[i]) {
            assert forall|i: int| 0 <= i < hosts.len() implies is_alias(#[trigger] hosts[i]) by {
                assert(is_alias(words[i + 1]));
            }
        }
        assert forall|i: int|
            1 <= i < words.len() && only_name(words, i) && domain_set::valid(
                domain_set::normalized(#[trigger] words[i]),
            ) implies line_rule(raw) == Ok::<Option<(RuleKind, Seq<char>)>, Seq<char>>(
            Some((RuleKind::BlockExact, domain_set::normalized(words[i]))),
        ) by {
            assert(only_host(hosts, i - 1));
            assert(hosts[i - 1] == words[i]);
        }
        if let Ok(Some(rule)) = line_rule(raw) {
            let i = choose|i: int|
                0 <= i < hosts.len() && only_host(hosts, i) && rule == (
                    RuleKind::BlockExact,
                    domain_set::normalized(#[trigger] hosts[i]),
                ) && domain_set::valid(rule.1);
            assert(words[i + 1] == hosts[i]);
            assert(only_name(words, i + 1));
        }
    }
}

/// Behind the address, this is the only word that is no alias of this host.
pub open spec fn only_name(words: Seq<Seq<char>>, i: int) -> bool {
    !is_alias(words[i]) && forall|j: int|
        1 <= j < words.len() && j != i ==> is_alias(#[trigger] words[j])
}

spec fn only_host(hosts: Seq<Seq<char>>, i: int) -> bool {
    !is_alias(hosts[i]) && forall|j: int|
        0 <= j < hosts.len() && j != i ==> is_alias(#[trigger] hosts[j])
}

proof fn lemma_hosts_after(hosts: Seq<Seq<char>>, d: Seq<char>)
    ensures
        hosts_rule(hosts, Some(d)) is Ok <==> forall|i: int|
            0 <= i < hosts.len() ==> is_alias(#[trigger] hosts[i]),
        hosts_rule(hosts, Some(d)) matches Ok(rule) ==> rule == Some((RuleKind::BlockExact, d)),
    decreases hosts.len(),
{
    if hosts.len() > 0 {
        let rest = hosts.drop_first();
        lemma_hosts_after(rest, d);
        if is_alias(hosts[0]) {
            assert forall|i: int| 0 <= i < rest.len() implies #[trigger] rest[i] == hosts[i + 1] by {}
            if forall|i: int| 0 <= i < rest.len() ==> is_alias(#[trigger] rest[i]) {
                assert forall|i: int| 0 <= i < hosts.len() implies is_alias(#[trigger] hosts[i]) by {
                    if i > 0 {
                        assert(is_alias(rest[i - 1]));
                    }
                }
            }
            if forall|i: int| 0 <= i < hosts.len() ==> is_alias(#[trigger] hosts[i]) {
                assert forall|i: int| 0 <= i < rest.len() implies is_alias(#[trigger] rest[i]) by {
                    assert(is_alias(hosts[i + 1]));
                }
            }
        }
    }
}

#[verifier::rlimit(40)]
proof fn lemma_hosts_names(hosts: Seq<Seq<char>>)
    ensures
        hosts_rule(hosts, None) == Ok::<Option<(RuleKind, Seq<char>)>, Seq<char>>(None) <==> forall|
            i: int,
        |
            0 <= i < hosts.len() ==> is_alias(#[trigger] hosts[i]),
        forall|i: int|
            0 <= i < hosts.len() && only_host(hosts, i) && domain_set::valid(
                domain_set::normalized(#[trigger] hosts[i]),
            ) ==> hosts_rule(hosts, None) == Ok::<Option<(RuleKind, Seq<char>)>, Seq<char>>(
                Some((RuleKind::BlockExact, domain_set::normalized(hosts[i]))),
            ),
        hosts_rule(hosts, None) matches Ok(Some(rule)) ==> exists|i: int|
            0 <= i < hosts.len() && only_host(hosts, i) && rule == (
                RuleKind::BlockExact,
                domain_set::normalized(#[trigger] hosts[i]),
            ) && domain_set::valid(rule.1),
    decreases hosts.len(),
{
    if hosts.len() > 0 {
        let rest = hosts.drop_first();
        assert forall|i: int| 0 <= i < rest.len() implies #[trigger] rest[i] == hosts[i + 1] by {}
        if is_alias(hosts[0]) {
            lemma_hosts_names(rest);
            assert(hosts_rule(hosts, None) == hosts_rule(rest, None));
            if forall|i: int| 0 <= i < rest.len() ==> is_alias(#[trigger] rest[i]) {
                assert forall|i: int| 0 <= i < hosts.len() implies is_alias(#[trigger] hosts[i]) by {
                    if i > 0 {
                        assert(is_alias(rest[i - 1]));
                    }
                }
            }
            if forall|i: int| 0 <= i < hosts.len() ==> is_alias(#[trigger] hosts[i]) {
                assert forall|i: int| 0 <= i < rest.len() implies is_alias(#[trigger] rest[i]) by {
                    assert(is_alias(hosts[i + 1]));
                }
            }
            assert forall|i: int|
                0 <= i < hosts.len() && only_host(hosts, i) && domain_set::valid(
                    domain_set::normalized(#[trigger] hosts[i]),
                ) implies hosts_rule(hosts, None) == Ok::<
                Option<(RuleKind, Seq<char>)>,
                Seq<char>,
            >(Some((RuleKind::BlockExact, domain_set::normalized(hosts[i])))) by {
                assert(i > 0);
                assert(rest[i - 1] == hosts[i]);
                assert(only_host(rest, i - 1)) by {
                    assert forall|j: int| 0 <= j < rest.len() && j != i - 1 implies is_alias(
                        #[trigger] rest[j],
                    ) by {
                        assert(is_alias(hosts[j + 1]));
                    }
                }
            }
            if let Ok(Some(rule)) = hosts_rule(hosts, None) {
                let i = choose|i: int|
                    0 <= i < rest.len() && only_host(rest, i) && rule == (
                        RuleKind::BlockExact,
                        domain_set::normalized(#[trigger] rest[i]),
                    ) && domain_set::valid(rule.1);
                assert(hosts[i + 1] == rest[i]);
                assert(only_host(hosts, i + 1)) by {
                    assert forall|j: int| 0 <= j < hosts.len() && j != i + 1 implies is_alias(
                        #[trigger] hosts[j],
                    ) by {
                        if j > 0 {
                            assert(is_alias(rest[j - 1]));
                        }
                    }
                }
            }
        } else {
            let name = domain_set::normalized(hosts[0]);
            lemma_hosts_after(rest, name);
            assert forall|i: int| 0 <= i < hosts.len() && only_host(hosts, i) implies i == 0 by {
                if i != 0 {
                    assert(is_alias(hosts[0]));
                }
            }
            if only_host(hosts, 0) {
                assert forall|i: int| 0 <= i < rest.len() implies is_alias(#[trigger] rest[i]) by {
                    assert(is_alias(hosts[i + 1]));
                }
            }
            if let Ok(Some(rule)) = hosts_rule(hosts, None) {
                assert(only_host(hosts, 0)) by {
                    assert forall|j: int| 0 <= j < hosts.len() && j != 0 implies is_alias(
                        #[trigger] hosts[j],
                    ) by {
                        assert(is_alias(rest[j - 1]));
                    }
                }
                assert(rule == (RuleKind::BlockExact, domain_set::normalized(hosts[0])));
            }
        }
    }
}

/// A list that is refused names the first line that cannot be taken: one that cannot be read,
/// or one too many. A list of more than 8388608 bytes is refused as a whole.
pub proof fn law_list_error_names_its_line(lines: Seq<Seq<char>>, s: Seq<char>)
    ensures
        read_lines(lines) matches Err(e) ==> exists|k: int|
            #![trigger lines[k]]
            {
                &&& 0 <= k < lines.len()
                &&& e.line == Some((k + 1) as nat)
                &&& read_lines(lines.take(k)) is Ok
                &&& line_rule(lines[k]) == Err::<Option<(RuleKind, Seq<char>)>, Seq<char>>(
                    e.message,
                ) || read_lines(lines.take(k))->Ok_0.entries() == 250_000
            },
        text::byte_len(s) > 8_388_608 ==> (blocklist(s) matches Err(e) && e.line is None),
        text::byte_len(s) <= 8_388_608 ==> blocklist(s) == read_lines(text::lines(s)),
    decreases lines.len(),
{
    if lines.len() > 0 {
        let front = lines.drop_last();
        law_list_error_names_its_line(front, s);
        let n = lines.len() - 1;
        assert(lines.take(n) =~= front);
        if let Err(e) = read_lines(lines) {
            if read_lines(front) is Err {
                let k = choose|k: int|
                    #![trigger front[k]]
                    {
                        &&& 0 <= k < front.len()
                        &&& e.line == Some((k + 1) as nat)
                        &&& read_lines(front.take(k)) is Ok
                        &&& line_rule(front[k]) == Err::<Option<(RuleKind, Seq<char>)>, Seq<char>>(
                            e.message,
                        ) || read_lines(front.take(k))->Ok_0.entries() == 250_000
                    };
                assert(lines[k] == front[k]);
                assert(lines.take(k) =~= front.take(k));
            } else {
                law_entries_are_normalized(front);
                assert(lines[n] == lines.last());
            }
        }
    }
}

/// Every line of a list is counted: as a blocked name, as an exempted one, or as one that says
/// nothing.
pub proof fn law_every_line_is_counted(source: &str, r: Result<CompiledBlocklist, BlocklistError>)
    requires
        call_ensures(compile_blocklist, (source,), r),
    ensures
        r is Ok <==> blocklist(source@) is Ok,
        r matches Ok(c) ==> {
            let stats = c.spec_stats();
            &&& stats.source_lines == text::lines(source@).len()
            &&& stats.accepted_block + stats.accepted_allow + stats.ignored == stats.source_lines
            &&& stats.accepted_allow == blocklist(source@)->Ok_0.allowed_suffix.len()
            &&& c.spec_filter() == blocklist(source@)->Ok_0.filter()
        },
{
    law_entries_are_normalized(text::lines(source@));
}

/// The names under which a host knows itself are not blocked, whatever their case.
pub proof fn law_own_names_are_aliases(host: Seq<char>)
    ensures
        is_alias(host) <==> {
            let l = text::lower(host);
            ||| l == "localhost"@
            ||| l == "localhost.localdomain"@
            ||| l == "broadcasthost"@
            ||| l == "ip6-localhost"@
            ||| l == "ip6-loopback"@
        },
{
    reveal_strlit("localhost");
    reveal_strlit("localhost.localdomain");
    reveal_strlit("broadcasthost");
    reveal_strlit("ip6-localhost");
    reveal_strlit("ip6-loopback");
    assert(text::lower("localhost"@) =~= "localhost"@);
    assert(text::lower("localhost.localdomain"@) =~= "localhost.localdomain"@);
    assert(text::lower("broadcasthost"@) =~= "broadcasthost"@);
    assert(text::lower("ip6-localhost"@) =~= "ip6-localhost"@);
    assert(text::lower("ip6-loopback"@) =~= "ip6-loopback"@);
}

} // verus!
