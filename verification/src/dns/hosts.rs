//! Native hosts overrides.

use crate::dns;
use crate::dns::{DnsError, DnsErrorKind, DnsErrorView};
use crate::domain_set;
use crate::net;
use crate::net::IpAddr;
use crate::text;
use crate::text::Class;
use vstd::hash_map::StringHashMap;
use vstd::prelude::*;
use vstd::string::*;

verus! {

pub const MAX_HOSTS_BYTES: usize = 4 * 1024 * 1024;

pub const MAX_HOSTS_ENTRIES: usize = 100_000;

struct HostEntry {
    name: String,
    addresses: Vec<IpAddr>,
}

/// Addresses by name.
pub struct HostsTable {
    entries: Vec<HostEntry>,
    index: StringHashMap<usize>,
}

pub type HostsMap = Map<Seq<char>, Seq<IpAddr>>;

impl View for HostsTable {
    type V = HostsMap;

    closed spec fn view(&self) -> HostsMap {
        Map::new(
            |k: Seq<char>| self.index@.dom().contains(k),
            |k: Seq<char>| self.entries@[self.index@[k] as int].addresses@,
        )
    }
}

/// The list with the address at its end, unless it holds it already.
pub open spec fn with_address(list: Seq<IpAddr>, address: IpAddr) -> Seq<IpAddr> {
    if list.contains(address) {
        list
    } else {
        list.push(address)
    }
}

/// The list with all the addresses that it does not hold yet, in order.
pub open spec fn with_addresses(list: Seq<IpAddr>, more: Seq<IpAddr>) -> Seq<IpAddr>
    decreases more.len(),
{
    if more.len() == 0 {
        list
    } else {
        with_address(with_addresses(list, more.drop_last()), more.last())
    }
}

/// What the table has for a name, or nothing.
pub open spec fn listed(table: HostsMap, name: Seq<char>) -> Seq<IpAddr> {
    if table.contains_key(name) {
        table[name]
    } else {
        Seq::empty()
    }
}

pub open spec fn with_host(table: HostsMap, name: Seq<char>, address: IpAddr) -> HostsMap {
    table.insert(name, with_address(listed(table, name), address))
}

pub open spec fn hosts_failure(line: nat, message: Seq<char>) -> DnsErrorView {
    dns::dns_failure(
        DnsErrorKind::HostsParse,
        "hosts line "@ + text::decimal(line) + ": "@ + message,
    )
}

/// A table and how many names went into it.
#[verifier::ext_equal]
pub struct HostsView {
    pub table: HostsMap,
    pub entries: nat,
}

/// The names of one line, taken one after the other.
pub open spec fn with_names(st: HostsView, address: IpAddr, names: Seq<Seq<char>>) -> Result<
    HostsView,
    Seq<char>,
>
    decreases names.len(),
{
    if names.len() == 0 {
        Ok(st)
    } else {
        match with_names(st, address, names.drop_last()) {
            Err(e) => Err(e),
            Ok(s) => if s.entries >= 100_000 {
                Err("hosts entry count exceeds 100000"@)
            } else {
                let n = domain_set::normalized(names.last());
                if domain_set::valid(n) {
                    Ok(HostsView { table: with_host(s.table, n, address), entries: s.entries + 1 })
                } else {
                    Err("invalid hostname"@)
                }
            },
        }
    }
}

/// One line: nothing but a comment, or an address and the names that have it.
pub open spec fn with_line(st: HostsView, raw: Seq<char>) -> Result<HostsView, Seq<char>> {
    let f = text::fields(text::trim(text::before(raw, '#'), Class::Space));
    if f.len() == 0 {
        Ok(st)
    } else {
        match net::ip(f[0]) {
            None => Err("invalid IP address"@),
            Some(address) => match with_names(st, address, f.drop_first()) {
                Err(e) => Err(e),
                Ok(s) => if f.len() == 1 {
                    Err("hosts line has no hostname"@)
                } else {
                    Ok(s)
                },
            },
        }
    }
}

pub open spec fn read_hosts(lines: Seq<Seq<char>>) -> Result<HostsView, DnsErrorView>
    decreases lines.len(),
{
    if lines.len() == 0 {
        Ok(HostsView { table: Map::empty(), entries: 0 })
    } else {
        match read_hosts(lines.drop_last()) {
            Err(e) => Err(e),
            Ok(st) => match with_line(st, lines.last()) {
                Err(e) => Err(hosts_failure(lines.len(), e)),
                Ok(s) => Ok(s),
            },
        }
    }
}

/// The table that a hosts file makes.
pub open spec fn hosts(s: Seq<char>) -> Result<HostsView, DnsErrorView> {
    if text::byte_len(s) > 4_194_304 {
        Err(dns::dns_failure(DnsErrorKind::HostsParse, "hosts source exceeds 4194304 byte limit"@))
    } else {
        read_hosts(text::lines(s))
    }
}

/// Two tables in one: for each name, the addresses of the first and then those
/// of the second that the first does not have.
pub open spec fn merged(a: HostsMap, b: HostsMap) -> HostsMap {
    Map::new(
        |k: Seq<char>| a.contains_key(k) || b.contains_key(k),
        |k: Seq<char>|
            if b.contains_key(k) {
                with_addresses(listed(a, k), b[k])
            } else {
                a[k]
            },
    )
}

fn hosts_error(line: usize, message: &str) -> (r: DnsError)
    ensures
        r@ == hosts_failure(line as nat, message@),
{
    let mut out = "hosts line ".to_owned();
    text::push_decimal(&mut out, line as u64);
    out.append(": ");
    out.append(message);
    DnsError::new(DnsErrorKind::HostsParse, out.as_str())
}

impl HostsTable {
    /// The index finds each entry under its name, and nothing else.
    pub closed spec fn wf(self) -> bool {
        &&& forall|k: Seq<char>| #[trigger]
            self.index@.dom().contains(k) ==> self.index@[k] < self.entries@.len()
                && self.entries@[self.index@[k] as int].name@ == k
        &&& forall|i: int|
            0 <= i < self.entries@.len() ==> self.index@.dom().contains(
                (#[trigger] self.entries@[i]).name@,
            ) && self.index@[self.entries@[i].name@] == i && self.entries@[i].addresses@.len() > 0
    }

    pub fn new() -> (r: HostsTable)
        ensures
            r.wf(),
            r@ == Map::<Seq<char>, Seq<IpAddr>>::empty(),
    {
        let r = HostsTable { entries: Vec::new(), index: StringHashMap::new() };
        assert(r@ =~= Map::<Seq<char>, Seq<IpAddr>>::empty());
        r
    }

    fn add_address(&mut self, name: &str, address: IpAddr)
        requires
            old(self).wf(),
        ensures
            final(self).wf(),
            final(self)@ == with_host(old(self)@, name@, address),
    {
        let found: Option<usize> = match self.index.get(name) {
            Some(i) => Some(*i),
            None => None,
        };
        match found {
            Some(i) => {
                let ghost before = self.entries@;
                if !dns::holds_address(self.entries[i].addresses.as_slice(), address) {
                    self.entries[i].addresses.push(address);
                }
                assert(self.entries@.len() == before.len());
                assert(self@ =~= with_host(old(self)@, name@, address));
            },
            None => {
                let i: usize = self.entries.len();
                self.index.insert(name.to_owned(), i);
                let mut addresses: Vec<IpAddr> = Vec::new();
                addresses.push(address);
                self.entries.push(HostEntry { name: name.to_owned(), addresses });
                assert(self@[name@] =~= seq![address]);
                assert(self@ =~= with_host(old(self)@, name@, address));
            },
        }
    }

    /// The addresses of a name.
    pub fn resolve(&self, name: &str) -> (r: Option<Vec<IpAddr>>)
        requires
            self.wf(),
        ensures
            match r {
                Some(list) => self@.contains_key(name@) && list@ == self@[name@] && list@.len()
                    > 0,
                None => !self@.contains_key(name@),
            },
    {
        match self.index.get(name) {
            Some(i) => Some(dns::copy_addresses(self.entries[*i].addresses.as_slice())),
            None => None,
        }
    }

    /// How many names there are.
    pub fn len(&self) -> (r: usize)
        requires
            self.wf(),
        ensures
            r == self@.len(),
    {
        assert(self@.dom() =~= self.index@.dom());
        self.index.len()
    }

    pub fn is_empty(&self) -> (r: bool)
        requires
            self.wf(),
        ensures
            r == (self@.len() == 0),
    {
        self.len() == 0
    }
}


/// A failure in the first lines is the failure of the whole.
proof fn lemma_read_error(lines: Seq<Seq<char>>, n: int)
    requires
        0 <= n <= lines.len(),
    ensures
        read_hosts(lines.take(n)) matches Err(e) ==> read_hosts(lines) == Err::<
            HostsView,
            DnsErrorView,
        >(e),
    decreases lines.len() - n,
{
    if n < lines.len() {
        assert(lines.take(n + 1).drop_last() == lines.take(n));
        lemma_read_error(lines, n + 1);
    } else {
        assert(lines.take(n) == lines);
    }
}

proof fn lemma_names_error(st: HostsView, address: IpAddr, names: Seq<Seq<char>>, n: int)
    requires
        0 <= n <= names.len(),
    ensures
        with_names(st, address, names.take(n)) matches Err(e) ==> with_names(st, address, names)
            == Err::<HostsView, Seq<char>>(e),
    decreases names.len() - n,
{
    if n < names.len() {
        assert(names.take(n + 1).drop_last() == names.take(n));
        lemma_names_error(st, address, names, n + 1);
    } else {
        assert(names.take(n) == names);
    }
}

impl HostsTable {
    fn add_line(&mut self, entries: usize, raw: &[char], line: usize) -> (r: Result<usize, DnsError>)
        requires
            old(self).wf(),
            entries <= 100_000,
        ensures
            final(self).wf(),
            ({
                let st = HostsView { table: old(self)@, entries: entries as nat };
                match r {
                    Ok(n) => n <= 100_000 && with_line(st, raw@) == Ok::<HostsView, Seq<char>>(
                        HostsView { table: final(self)@, entries: n as nat },
                    ),
                    Err(e) => with_line(st, raw@) matches Err(t) && e@ == hosts_failure(
                        line as nat,
                        t,
                    ),
                }
            }),
    {
        let fields = text::fields_of(text::trim_of(text::before_of(raw, '#'), Class::Space));
        let ghost f = text::texts(fields@);
        let ghost st = HostsView { table: self@, entries: entries as nat };
        if fields.len() == 0 {
            return Ok(entries);
        }
        assert(f[0] == fields@[0]@);
        let address = match net::ip_of(fields[0]) {
            Some(a) => a,
            None => {
                return Err(hosts_error(line, "invalid IP address"));
            },
        };
        let ghost names = f.drop_first();
        let mut count: usize = entries;
        let mut i: usize = 1;
        while i < fields.len()
            invariant
                1 <= i <= fields@.len(),
                f == text::texts(fields@),
                f == text::fields(text::trim(text::before(raw@, '#'), Class::Space)),
                net::ip(f[0]) == Some(address),
                names == f.drop_first(),
                self.wf(),
                count <= 100_000,
                st == (HostsView { table: old(self)@, entries: entries as nat }),
                with_names(st, address, names.take(i - 1)) == Ok::<HostsView, Seq<char>>(
                    HostsView { table: self@, entries: count as nat },
                ),
            decreases fields@.len() - i,
        {
            proof {
                assert(names.take(i as int).drop_last() == names.take(i - 1));
                assert(names.take(i as int).last() == fields@[i as int]@);
                lemma_names_error(st, address, names, i as int);
            }
            if count >= MAX_HOSTS_ENTRIES {
                return Err(hosts_error(line, "hosts entry count exceeds 100000"));
            }
            match dns::normalize_name(fields[i]) {
                Err(_) => {
                    return Err(hosts_error(line, "invalid hostname"));
                },
                Ok(name) => {
                    self.add_address(name.as_str(), address);
                },
            }
            count = count + 1;
            i = i + 1;
        }
        assert(names.take(i - 1) == names);
        if fields.len() == 1 {
            return Err(hosts_error(line, "hosts line has no hostname"));
        }
        Ok(count)
    }

    /// Reads a hosts file.
    pub fn parse(source: &str) -> (r: Result<HostsTable, DnsError>)
        ensures
            match r {
                Ok(t) => t.wf() && (hosts(source@) matches Ok(v) && t@ == v.table),
                Err(e) => hosts(source@) == Err::<HostsView, DnsErrorView>(e@),
            },
    {
        if text::byte_len_of(source) > MAX_HOSTS_BYTES {
            return Err(
                DnsError::new(DnsErrorKind::HostsParse, "hosts source exceeds 4194304 byte limit"),
            );
        }
        let chars = text::chars_of(source);
        let lines = text::lines_of(chars.as_slice());
        let ghost all = text::lines(source@);
        let mut table = HostsTable::new();
        let mut entries: usize = 0;
        let mut i: usize = 0;
        while i < lines.len()
            invariant
                i <= lines@.len(),
                text::texts(lines@) == all,
                all == text::lines(source@),
                text::byte_len(source@) <= 4_194_304,
                table.wf(),
                entries <= 100_000,
                read_hosts(all.take(i as int)) == Ok::<HostsView, DnsErrorView>(
                    HostsView { table: table@, entries: entries as nat },
                ),
            decreases lines@.len() - i,
        {
            proof {
                assert(all.take(i + 1).drop_last() == all.take(i as int));
                assert(all.take(i + 1).last() == lines@[i as int]@);
                lemma_read_error(all, i + 1);
            }
            match table.add_line(entries, lines[i], i + 1) {
                Err(e) => {
                    return Err(e);
                },
                Ok(n) => {
                    entries = n;
                },
            }
            i = i + 1;
        }
        assert(all.take(i as int) == all);
        Ok(table)
    }

    /// Takes over the entries of another table.
    pub fn merge(&mut self, other: HostsTable)
        requires
            old(self).wf(),
            other.wf(),
        ensures
            final(self).wf(),
            final(self)@ == merged(old(self)@, other@),
    {
        let ghost start = self@;
        let mut i: usize = 0;
        assert(start =~= merged(start, other.first(0)));
        while i < other.entries.len()
            invariant
                i <= other.entries@.len(),
                self.wf(),
                other.wf(),
                start == old(self)@,
                self@ == merged(start, other.first(i as int)),
            decreases other.entries@.len() - i,
        {
            let entry = &other.entries[i];
            let ghost name = entry.name@;
            let ghost list = entry.addresses@;
            let ghost base = self@;
            assert(other.index@[name] == i);
            assert(!other.first(i as int).contains_key(name)) by {
                if other.first(i as int).contains_key(name) {
                    let k = choose|k: int|
                        0 <= k < i && #[trigger] other.entries@[k].name@ == name;
                    assert(other.index@[other.entries@[k].name@] == k);
                }
            }
            assert(listed(base, name) == listed(start, name));
            let mut j: usize = 0;
            while j < entry.addresses.len()
                invariant
                    j <= list.len(),
                    entry.addresses@ == list,
                    entry.name@ == name,
                    self.wf(),
                    listed(base, name) == listed(start, name),
                    self@ == if j == 0 {
                        base
                    } else {
                        base.insert(
                            name,
                            with_addresses(listed(start, name), list.take(j as int)),
                        )
                    },
                decreases list.len() - j,
            {
                let ghost prev = self@;
                proof {
                    assert(list.take(0).len() == 0);
                    assert(with_addresses(listed(start, name), list.take(0)) == listed(start, name));
                    assert(listed(prev, name) == with_addresses(
                        listed(start, name),
                        list.take(j as int),
                    ));
                }
                self.add_address(entry.name.as_str(), entry.addresses[j]);
                proof {
                    assert(list.take(j + 1).drop_last() == list.take(j as int));
                    assert(list.take(j + 1).last() == list[j as int]);
                    assert(self@ == with_host(prev, name, list[j as int]));
                    assert(with_address(listed(prev, name), list[j as int]) == with_addresses(
                        listed(start, name),
                        list.take(j + 1),
                    ));
                    assert(self@ =~= base.insert(
                        name,
                        with_addresses(listed(start, name), list.take(j + 1)),
                    ));
                }
                j = j + 1;
            }
            assert(list.take(j as int) == list);
            proof {
                assert(other@[name] == list);
                let a = other.first(i as int);
                let b = other.first(i + 1);
                assert forall|k: Seq<char>| b.contains_key(k) <==> (a.contains_key(k) || k
                    == name) by {
                    if k == name {
                        assert(other.entries@[i as int].name@ == k);
                    }
                }
                assert(self@ =~= merged(start, b));
            }
            i = i + 1;
        }
        proof {
            let n = other.entries@.len() as int;
            assert(other.first(n) =~= other@) by {
                assert forall|k: Seq<char>| other@.contains_key(k) implies other.first(
                    n,
                ).contains_key(k) by {
                    assert(other.index@.dom().contains(k));
                    assert(other.entries@[other.index@[k] as int].name@ == k);
                }
            }
        }
    }

    /// The part of the table that its first `n` entries make.
    closed spec fn first(self, n: int) -> HostsMap {
        Map::new(
            |k: Seq<char>| exists|i: int| 0 <= i < n && #[trigger] self.entries@[i].name@ == k,
            |k: Seq<char>| self@[k],
        )
    }
}

impl Default for HostsTable {
    fn default() -> (r: HostsTable)
        ensures
            r.wf(),
            r@ == Map::<Seq<char>, Seq<IpAddr>>::empty(),
    {
        HostsTable::new()
    }
}

impl Clone for HostsTable {
    fn clone(&self) -> (r: HostsTable)
        ensures
            self.wf() ==> r.wf() && r@ == self@,
    {
        let mut index: StringHashMap<usize> = StringHashMap::new();
        let mut entries: Vec<HostEntry> = Vec::new();
        let mut i: usize = 0;
        while i < self.entries.len()
            invariant
                i <= self.entries@.len(),
                entries@.len() == i,
                forall|j: int|
                    0 <= j < i ==> (#[trigger] entries@[j]).name@ == self.entries@[j].name@
                        && entries@[j].addresses@ == self.entries@[j].addresses@,
                self.wf() ==> forall|k: Seq<char>| #[trigger]
                    index@.dom().contains(k) <==> self.index@.dom().contains(k)
                        && self.index@[k] < i,
                self.wf() ==> forall|k: Seq<char>| #[trigger]
                    index@.dom().contains(k) ==> index@[k] == self.index@[k],
            decreases self.entries@.len() - i,
        {
            let entry = &self.entries[i];
            index.insert(entry.name.clone(), i);
            entries.push(
                HostEntry {
                    name: entry.name.clone(),
                    addresses: dns::copy_addresses(entry.addresses.as_slice()),
                },
            );
            proof {
                if self.wf() {
                    assert(self.index@[self.entries@[i as int].name@] == i);
                    assert forall|k: Seq<char>|
                        self.index@.dom().contains(k) && self.index@[k] == i implies k
                        == self.entries@[i as int].name@ by {
                    }
                }
            }
            i = i + 1;
        }
        let r = HostsTable { entries, index };
        proof {
            if self.wf() {
                assert(r.index@.dom() =~= self.index@.dom());
                assert(r.wf()) by {
                    assert forall|j: int| 0 <= j < r.entries@.len() implies r.index@.dom().contains(
                        (#[trigger] r.entries@[j]).name@,
                    ) && r.index@[r.entries@[j].name@] == j && r.entries@[j].addresses@.len() > 0 by {
                        assert(self.index@[self.entries@[j].name@] == j);
                    }
                }
                assert(r@ =~= self@);
            }
        }
        r
    }
}

/// Whatever a hosts file says, no name has an address twice, and every listed
/// name is well formed and has an address.
pub proof fn law_listed_addresses_are_distinct(lines: Seq<Seq<char>>)
    ensures
        read_hosts(lines) matches Ok(st) ==> is_hosts_map(st.table) && st.entries <= 100_000,
    decreases lines.len(),
{
    if lines.len() > 0 {
        law_listed_addresses_are_distinct(lines.drop_last());
        if let Ok(st) = read_hosts(lines.drop_last()) {
            let f = text::fields(text::trim(text::before(lines.last(), '#'), Class::Space));
            if f.len() > 0 {
                if let Some(address) = net::ip(f[0]) {
                    lemma_names_distinct(st, address, f.drop_first());
                }
            }
        }
    }
}

pub open spec fn is_hosts_map(table: HostsMap) -> bool {
    forall|k: Seq<char>| #[trigger]
        table.contains_key(k) ==> dns::is_name(k) && table[k].len() > 0
            && table[k].no_duplicates()
}

proof fn lemma_names_distinct(st: HostsView, address: IpAddr, names: Seq<Seq<char>>)
    requires
        is_hosts_map(st.table),
        st.entries <= 100_000,
    ensures
        with_names(st, address, names) matches Ok(s) ==> is_hosts_map(s.table) && s.entries
            <= 100_000,
    decreases names.len(),
{
    if names.len() > 0 {
        lemma_names_distinct(st, address, names.drop_last());
        domain_set::law_normalizing_is_idempotent(names.last());
    }
}

/// The lines read one after the other, as far as all of them can be read.
spec fn reading(st: HostsView, lines: Seq<Seq<char>>) -> Option<HostsView>
    decreases lines.len(),
{
    if lines.len() == 0 {
        Some(st)
    } else {
        match with_line(st, lines[0]) {
            Ok(s) => reading(s, lines.drop_first()),
            Err(_) => None,
        }
    }
}

/// Lines are read as they are read behind others.
proof fn lemma_reading(front: Seq<Seq<char>>, rest: Seq<Seq<char>>)
    ensures
        read_hosts(front) matches Ok(st) ==> match reading(st, rest) {
            Some(v) => read_hosts(front + rest) == Ok::<HostsView, DnsErrorView>(v),
            None => read_hosts(front + rest) is Err,
        },
    decreases rest.len(),
{
    if rest.len() == 0 {
        assert(front + rest == front);
    } else {
        let next = front.push(rest[0]);
        assert(next.drop_last() == front);
        assert(next + rest.drop_first() == front + rest);
        lemma_reading(next, rest.drop_first());
        assert((front + rest).take(next.len() as int) == next);
        lemma_read_error(front + rest, next.len() as int);
    }
}

/// White space at the end does not count.
proof fn lemma_trim_push(y: Seq<char>)
    ensures
        text::trim(y.push('\r'), Class::Space) == text::trim(y, Class::Space),
{
    let z = y.push('\r');
    let n = text::leading(y, Class::Space);
    text::lemma_leading(y, Class::Space);
    if n == y.len() {
        assert forall|i: int| 0 <= i < z.len() implies Class::Space.has(#[trigger] z[i]) by {
            if i < y.len() {
                assert(z[i] == y[i]);
            }
        }
        text::lemma_leading_is(z, Class::Space, z.len());
        assert(z.skip(z.len() as int) == y.skip(n as int));
    } else {
        assert forall|i: int| 0 <= i < n implies Class::Space.has(#[trigger] z[i]) by {
            assert(z[i] == y[i]);
        }
        assert(z[n as int] == y[n as int]);
        text::lemma_leading_is(z, Class::Space, n);
        let t = y.skip(n as int);
        let u = z.skip(n as int);
        assert(u == t.push('\r'));
        assert(u.drop_last() == t);
        text::lemma_trailing(t, Class::Space);
        assert(u.take(u.len() - text::trailing(u, Class::Space)) == t.take(
            t.len() - text::trailing(t, Class::Space),
        ));
    }
}

/// A carriage return at the end of a line does not count.
proof fn lemma_line_return(st: HostsView, x: Seq<char>)
    ensures
        with_line(st, text::drop_return(x)) == with_line(st, x),
{
    if x.len() > 0 && x.last() == '\r' {
        let w = x.drop_last();
        assert(w.push('\r') == x);
        let k = Class::IsNot('#');
        let n = text::leading(w, k);
        text::lemma_leading(w, k);
        if n < w.len() {
            assert forall|i: int| 0 <= i < n implies k.has(#[trigger] x[i]) by {
                assert(x[i] == w[i]);
            }
            assert(x[n as int] == w[n as int]);
            text::lemma_leading_is(x, k, n);
            assert(x.take(n as int) == w.take(n as int));
        } else {
            assert forall|i: int| 0 <= i < x.len() implies k.has(#[trigger] x[i]) by {
                if i < w.len() {
                    assert(x[i] == w[i]);
                }
            }
            text::lemma_leading_is(x, k, x.len());
            assert(text::before(x, '#') == x);
            assert(text::before(w, '#') == w);
            lemma_trim_push(w);
        }
    }
}

proof fn lemma_empty_line(st: HostsView)
    ensures
        with_line(st, Seq::empty()) == Ok::<HostsView, Seq<char>>(st),
{
    let e = Seq::<char>::empty();
    assert(text::before(e, '#') == e);
    text::lemma_trim_nothing(e, Class::Space);
    assert(text::trim_start(e, Class::Space) == e);
}

/// Two texts with a line end between them are read one after the other.
proof fn lemma_joined_texts(st: HostsView, a: Seq<char>, b: Seq<char>)
    ensures
        reading(st, text::lines(a.push('\n') + b)) == match reading(st, text::lines(a)) {
            Some(s) => reading(s, text::lines(b)),
            None => None,
        },
    decreases a.len(),
{
    let k = Class::IsNot('\n');
    let s = a.push('\n') + b;
    let n = text::leading(a, k);
    text::lemma_leading(a, k);
    assert forall|i: int| 0 <= i < n implies k.has(#[trigger] s[i]) by {
        assert(s[i] == a[i]);
    }
    if n < a.len() {
        assert(s[n as int] == a[n as int]);
    } else {
        assert(s[n as int] == '\n');
    }
    text::lemma_leading_is(s, k, n);
    assert(s.take(n as int) == a.take(n as int));
    let line = text::drop_return(a.take(n as int));
    let rest = text::lines(s.skip(n as int + 1));
    assert(text::lines(s) == seq![line] + rest);
    assert((seq![line] + rest).drop_first() == rest);
    if n < a.len() {
        let after = a.skip(n as int + 1);
        assert(s.skip(n as int + 1) == after.push('\n') + b);
        assert(text::lines(a) == seq![line] + text::lines(after));
        assert((seq![line] + text::lines(after)).drop_first() == text::lines(after));
        if let Ok(next) = with_line(st, line) {
            lemma_joined_texts(next, after, b);
        }
    } else {
        assert(s.skip(n as int + 1) == b);
        assert(a.take(n as int) == a);
        if a.len() == 0 {
            assert(line == Seq::<char>::empty());
            lemma_empty_line(st);
        } else {
            lemma_line_return(st, a);
            assert(text::lines(a) == seq![a]);
            assert(seq![a].drop_first().len() == 0);
            reveal_with_fuel(reading, 2);
        }
    }
}

/// A table with what went into another one behind it.
spec fn together(a: HostsView, b: HostsView) -> HostsView {
    HostsView { table: merged(a.table, b.table), entries: a.entries + b.entries }
}

proof fn lemma_with_addresses(list: Seq<IpAddr>, more: Seq<IpAddr>, address: IpAddr)
    ensures
        more.contains(address) ==> with_addresses(list, more).contains(address),
    decreases more.len(),
{
    if more.contains(address) {
        let before = with_addresses(list, more.drop_last());
        let i = choose|i: int| 0 <= i < more.len() && more[i] == address;
        if i < more.len() - 1 {
            assert(more.drop_last()[i] == address);
            lemma_with_addresses(list, more.drop_last(), address);
            let j = choose|j: int| 0 <= j < before.len() && before[j] == address;
            assert(with_addresses(list, more)[j] == address);
        } else if !before.contains(address) {
            assert(with_addresses(list, more).last() == address);
        }
    }
}

/// It is the same to add a host to the second table and to add it to both.
proof fn lemma_merge_host(a: HostsMap, b: HostsMap, name: Seq<char>, address: IpAddr)
    ensures
        merged(a, with_host(b, name, address)) == with_host(merged(a, b), name, address),
{
    let first = listed(a, name);
    let second = listed(b, name);
    let whole = merged(a, b);
    assert(listed(whole, name) == with_addresses(first, second)) by {
        if !b.contains_key(name) {
            assert(with_addresses(first, second) == first);
        }
    }
    lemma_with_addresses(first, second, address);
    if !second.contains(address) {
        assert(second.push(address).drop_last() == second);
    }
    assert(with_addresses(first, with_address(second, address)) == with_address(
        with_addresses(first, second),
        address,
    ));
    assert(merged(a, with_host(b, name, address)) =~= with_host(whole, name, address));
}

proof fn lemma_merge_names(a: HostsView, b: HostsView, address: IpAddr, names: Seq<Seq<char>>)
    ensures
        with_names(b, address, names) matches Ok(c) ==> b.entries <= c.entries && (a.entries
            + c.entries <= 100_000 ==> with_names(together(a, b), address, names) == Ok::<
            HostsView,
            Seq<char>,
        >(together(a, c))),
    decreases names.len(),
{
    if names.len() > 0 {
        lemma_merge_names(a, b, address, names.drop_last());
        if let Ok(c) = with_names(b, address, names.drop_last()) {
            lemma_merge_host(a.table, c.table, domain_set::normalized(names.last()), address);
        }
    }
}

proof fn lemma_merge_line(a: HostsView, b: HostsView, raw: Seq<char>)
    ensures
        with_line(b, raw) matches Ok(c) ==> b.entries <= c.entries && (a.entries + c.entries
            <= 100_000 ==> with_line(together(a, b), raw) == Ok::<HostsView, Seq<char>>(
            together(a, c),
        )),
{
    let f = text::fields(text::trim(text::before(raw, '#'), Class::Space));
    if f.len() > 0 {
        if let Some(address) = net::ip(f[0]) {
            lemma_merge_names(a, b, address, f.drop_first());
        }
    }
}

proof fn lemma_merge_reading(a: HostsView, b: HostsView, lines: Seq<Seq<char>>)
    ensures
        reading(b, lines) matches Some(c) ==> b.entries <= c.entries && (a.entries + c.entries
            <= 100_000 ==> reading(together(a, b), lines) == Some(together(a, c))),
    decreases lines.len(),
{
    if lines.len() > 0 {
        lemma_merge_line(a, b, lines[0]);
        if let Ok(next) = with_line(b, lines[0]) {
            lemma_merge_reading(a, next, lines.drop_first());
        }
    }
}

/// Two hosts files in one, with a line end between them, make the table of the first
/// merged with that of the second, as long as they are not too long together.
pub proof fn law_joined_texts_make_the_merged_table(
    a: Seq<char>,
    b: Seq<char>,
    first: HostsView,
    second: HostsView,
)
    requires
        hosts(a) == Ok::<HostsView, DnsErrorView>(first),
        hosts(b) == Ok::<HostsView, DnsErrorView>(second),
        text::byte_len(a.push('\n') + b) <= MAX_HOSTS_BYTES,
        first.entries + second.entries <= MAX_HOSTS_ENTRIES,
    ensures
        hosts(a.push('\n') + b) == Ok::<HostsView, DnsErrorView>(
            HostsView {
                table: merged(first.table, second.table),
                entries: first.entries + second.entries,
            },
        ),
{
    let none = HostsView { table: Map::empty(), entries: 0 };
    let nothing = Seq::<Seq<char>>::empty();
    let (la, lb, ls) = (text::lines(a), text::lines(b), text::lines(a.push('\n') + b));
    assert(read_hosts(nothing) == Ok::<HostsView, DnsErrorView>(none));
    assert(nothing + la == la && nothing + lb == lb && nothing + ls == ls);
    lemma_reading(nothing, la);
    lemma_reading(nothing, lb);
    lemma_reading(nothing, ls);
    lemma_joined_texts(none, a, b);
    lemma_merge_reading(first, none, lb);
    assert(merged(first.table, none.table) =~= first.table);
    assert(together(first, none) == first);
}

/// Adding addresses to a list keeps the list in front, adds all of them, adds nothing
/// else, and makes no address occur twice.
pub proof fn law_added_addresses_follow(list: Seq<IpAddr>, more: Seq<IpAddr>)
    ensures
        list.is_prefix_of(with_addresses(list, more)),
        forall|a: IpAddr| #[trigger]
            with_addresses(list, more).contains(a) <==> list.contains(a) || more.contains(a),
        list.no_duplicates() ==> with_addresses(list, more).no_duplicates(),
        list.no_duplicates() && more.no_duplicates() && (forall|a: IpAddr|
            !(list.contains(a) && #[trigger] more.contains(a))) ==> with_addresses(list, more)
            == list + more,
    decreases more.len(),
{
    if more.len() > 0 {
        let front = more.drop_last();
        let last = more.last();
        let before = with_addresses(list, front);
        let after = with_addresses(list, more);
        law_added_addresses_follow(list, front);
        assert(more =~= front.push(last));
        assert forall|a: IpAddr| #[trigger] after.contains(a) <==> list.contains(a)
            || more.contains(a) by {
            lemma_with_addresses(list, more, a);
            if after.contains(a) {
                let i = choose|i: int| 0 <= i < after.len() && after[i] == a;
                if i < before.len() {
                    assert(before[i] == a);
                    assert(before.contains(a));
                    if front.contains(a) {
                        let k = front.index_of(a);
                        assert(more[k] == a);
                    }
                } else {
                    assert(more[more.len() - 1] == a);
                }
            }
            if list.contains(a) {
                let k = list.index_of(a);
                assert(after[k] == a);
            }
        }
        if list.no_duplicates() && more.no_duplicates() && (forall|a: IpAddr|
            !(list.contains(a) && #[trigger] more.contains(a))) {
            assert(more[more.len() - 1] == last);
            assert(more.contains(last));
            assert forall|a: IpAddr| !(list.contains(a) && #[trigger] front.contains(a)) by {
                if front.contains(a) {
                    let k = front.index_of(a);
                    assert(more[k] == a);
                    assert(more.contains(a));
                }
            }
            assert(!front.contains(last)) by {
                if front.contains(last) {
                    let k = front.index_of(last);
                    assert(more[k] == more[more.len() - 1]);
                }
            }
            assert(!before.contains(last));
            assert(after =~= list + more);
        }
    }
}

/// The line gives the address to the name.
#[verifier::opaque]
pub open spec fn line_lists(raw: Seq<char>, name: Seq<char>, address: IpAddr) -> bool {
    let f = text::fields(text::trim(text::before(raw, '#'), Class::Space));
    &&& f.len() > 1
    &&& net::ip(f[0]) == Some(address)
    &&& exists|j: int| 1 <= j < f.len() && domain_set::normalized(#[trigger] f[j]) == name
}

/// Some of the lines gives the address to the name.
pub open spec fn some_line_lists(lines: Seq<Seq<char>>, name: Seq<char>, address: IpAddr) -> bool {
    exists|k: int| 0 <= k < lines.len() && line_lists(#[trigger] lines[k], name, address)
}

spec fn is_named(names: Seq<Seq<char>>, name: Seq<char>) -> bool {
    exists|j: int| 0 <= j < names.len() && domain_set::normalized(#[trigger] names[j]) == name
}

proof fn lemma_names_list(
    st: HostsView,
    own: IpAddr,
    names: Seq<Seq<char>>,
    name: Seq<char>,
    address: IpAddr,
)
    ensures
        with_names(st, own, names) matches Ok(s) ==> (listed(s.table, name).contains(address)
            <==> listed(st.table, name).contains(address) || (own == address && is_named(
            names,
            name,
        ))),
    decreases names.len(),
{
    if names.len() > 0 {
        let front = names.drop_last();
        lemma_names_list(st, own, front, name, address);
        if let Ok(s) = with_names(st, own, names) {
            let before = with_names(st, own, front)->Ok_0;
            let n = domain_set::normalized(names.last());
            let list = listed(before.table, n);
            assert(listed(s.table, n) == with_address(list, own));
            if n != name {
                assert(listed(s.table, name) == listed(before.table, name));
            } else {
                assert(with_address(list, own).contains(address) <==> list.contains(address) || own
                    == address) by {
                    if list.contains(address) && !list.contains(own) {
                        let k = list.index_of(address);
                        assert(list.push(own)[k] == address);
                    }
                    if !list.contains(own) {
                        assert(list.push(own)[list.len() as int] == own);
                        if list.push(own).contains(address) {
                            let k = list.push(own).index_of(address);
                            if k < list.len() {
                                assert(list[k] == address);
                            }
                        }
                    }
                }
            }
            if is_named(front, name) {
                let j = choose|j: int|
                    0 <= j < front.len() && domain_set::normalized(#[trigger] front[j]) == name;
                assert(names[j] == front[j]);
            }
            if is_named(names, name) {
                let j = choose|j: int|
                    0 <= j < names.len() && domain_set::normalized(#[trigger] names[j]) == name;
                if j < front.len() {
                    assert(front[j] == names[j]);
                }
            }
            assert(names[names.len() - 1] == names.last());
        }
    }
}

proof fn lemma_line_list(st: HostsView, raw: Seq<char>, name: Seq<char>, address: IpAddr)
    ensures
        with_line(st, raw) matches Ok(s) ==> (listed(s.table, name).contains(address) <==> listed(
            st.table,
            name,
        ).contains(address) || line_lists(raw, name, address)),
{
    reveal(line_lists);
    let f = text::fields(text::trim(text::before(raw, '#'), Class::Space));
    if f.len() > 0 {
        if let Some(own) = net::ip(f[0]) {
            let names = f.drop_first();
            lemma_names_list(st, own, names, name, address);
            if is_named(names, name) {
                let j = choose|j: int|
                    0 <= j < names.len() && domain_set::normalized(#[trigger] names[j]) == name;
                assert(f[j + 1] == names[j]);
            }
            if line_lists(raw, name, address) {
                let j = choose|j: int|
                    1 <= j < f.len() && domain_set::normalized(#[trigger] f[j]) == name;
                assert(names[j - 1] == f[j]);
            }
        }
    }
}

/// A name has the addresses that some of the lines gives to it, in any case and with
/// dots around it, and no others.
pub proof fn law_names_have_the_addresses_of_their_lines(
    lines: Seq<Seq<char>>,
    name: Seq<char>,
    address: IpAddr,
)
    ensures
        read_hosts(lines) matches Ok(st) ==> (listed(st.table, name).contains(address)
            <==> some_line_lists(lines, name, address)),
    decreases lines.len(),
{
    if lines.len() > 0 {
        let front = lines.drop_last();
        law_names_have_the_addresses_of_their_lines(front, name, address);
        if let Ok(st) = read_hosts(front) {
            lemma_line_list(st, lines.last(), name, address);
            if some_line_lists(front, name, address) {
                let k = choose|k: int|
                    0 <= k < front.len() && line_lists(#[trigger] front[k], name, address);
                assert(lines[k] == front[k]);
            }
            if some_line_lists(lines, name, address) {
                let k = choose|k: int|
                    0 <= k < lines.len() && line_lists(#[trigger] lines[k], name, address);
                if k < front.len() {
                    assert(front[k] == lines[k]);
                }
            }
            assert(lines[lines.len() - 1] == lines.last());
        }
    }
}

proof fn lemma_names_taken(st: HostsView, address: IpAddr, names: Seq<Seq<char>>)
    requires
        st.entries <= 100_000,
    ensures
        with_names(st, address, names) is Ok <==> st.entries + names.len() <= 100_000 && (forall|
            j: int,
        |
            0 <= j < names.len() ==> domain_set::valid(
                domain_set::normalized(#[trigger] names[j]),
            )),
        with_names(st, address, names) matches Ok(s) ==> s.entries == st.entries + names.len(),
    decreases names.len(),
{
    if names.len() > 0 {
        let front = names.drop_last();
        lemma_names_taken(st, address, front);
        if with_names(st, address, names) is Ok {
            assert forall|j: int| 0 <= j < names.len() implies domain_set::valid(
                domain_set::normalized(#[trigger] names[j]),
            ) by {
                if j < front.len() {
                    assert(front[j] == names[j]);
                }
            }
        } else if st.entries + names.len() <= 100_000 && (forall|j: int|
            0 <= j < names.len() ==> domain_set::valid(
                domain_set::normalized(#[trigger] names[j]),
            )) {
            assert forall|j: int| 0 <= j < front.len() implies domain_set::valid(
                domain_set::normalized(#[trigger] front[j]),
            ) by {
                assert(front[j] == names[j]);
            }
            assert(names[names.len() - 1] == names.last());
        }
    }
}

/// A line is taken exactly where it says nothing, or gives an address to well-formed
/// names, one at least, and there is room for them.
pub proof fn law_hosts_line_is_taken(st: HostsView, raw: Seq<char>)
    requires
        st.entries <= 100_000,
    ensures
        ({
            let f = text::fields(text::trim(text::before(raw, '#'), Class::Space));
            &&& f.len() == 0 ==> with_line(st, raw) == Ok::<HostsView, Seq<char>>(st)
            &&& f.len() > 0 ==> (with_line(st, raw) is Ok <==> {
                &&& net::ip(f[0]) is Some
                &&& f.len() >= 2
                &&& forall|j: int|
                    1 <= j < f.len() ==> domain_set::valid(
                        domain_set::normalized(#[trigger] f[j]),
                    )
                &&& st.entries + f.len() - 1 <= 100_000
            })
        }),
{
    let f = text::fields(text::trim(text::before(raw, '#'), Class::Space));
    if f.len() > 0 {
        if let Some(address) = net::ip(f[0]) {
            let names = f.drop_first();
            lemma_names_taken(st, address, names);
            if forall|j: int|
                0 <= j < names.len() ==> domain_set::valid(
                    domain_set::normalized(#[trigger] names[j]),
                ) {
                assert forall|j: int| 1 <= j < f.len() implies domain_set::valid(
                    domain_set::normalized(#[trigger] f[j]),
                ) by {
                    assert(names[j - 1] == f[j]);
                }
            } else if forall|j: int|
                1 <= j < f.len() ==> domain_set::valid(domain_set::normalized(#[trigger] f[j])) {
                assert forall|j: int| 0 <= j < names.len() implies domain_set::valid(
                    domain_set::normalized(#[trigger] names[j]),
                ) by {
                    assert(names[j] == f[j + 1]);
                }
            }
        }
    }
}

/// Merged tables list for a name what either lists, the first table's addresses first.
pub proof fn law_merged_tables_list_both(a: HostsMap, b: HostsMap, name: Seq<char>)
    ensures
        listed(a, name).is_prefix_of(listed(merged(a, b), name)),
        forall|address: IpAddr| #[trigger]
            listed(merged(a, b), name).contains(address) <==> listed(a, name).contains(address)
                || listed(b, name).contains(address),
        merged(a, b).contains_key(name) <==> a.contains_key(name) || b.contains_key(name),
{
    law_added_addresses_follow(listed(a, name), listed(b, name));
    assert(listed(merged(a, b), name) =~= with_addresses(listed(a, name), listed(b, name)));
}

/// A hosts file that is refused has a line that cannot be taken, the first of which is named;
/// one of more than 4194304 bytes is refused as a whole.
pub proof fn law_hosts_error_names_its_line(lines: Seq<Seq<char>>, s: Seq<char>)
    ensures
        read_hosts(lines) matches Err(e) ==> exists|k: int|
            #![trigger lines[k]]
            {
                &&& 0 <= k < lines.len()
                &&& read_hosts(lines.take(k)) is Ok
                &&& with_line(read_hosts(lines.take(k))->Ok_0, lines[k]) is Err
                &&& e.message == "hosts line "@ + text::decimal((k + 1) as nat) + ": "@ + with_line(
                    read_hosts(lines.take(k))->Ok_0,
                    lines[k],
                )->Err_0
            },
        text::byte_len(s) > 4_194_304 ==> (hosts(s) matches Err(e) && e.kind
            == DnsErrorKind::HostsParse),
        text::byte_len(s) <= 4_194_304 ==> hosts(s) == read_hosts(text::lines(s)),
    decreases lines.len(),
{
    if lines.len() > 0 {
        let front = lines.drop_last();
        law_hosts_error_names_its_line(front, s);
        let n = lines.len() - 1;
        assert(lines.take(n) =~= front);
        if let Err(e) = read_hosts(lines) {
            if read_hosts(front) is Err {
                let k = choose|k: int|
                    #![trigger front[k]]
                    {
                        &&& 0 <= k < front.len()
                        &&& read_hosts(front.take(k)) is Ok
                        &&& with_line(read_hosts(front.take(k))->Ok_0, front[k]) is Err
                        &&& e.message == "hosts line "@ + text::decimal((k + 1) as nat) + ": "@
                            + with_line(read_hosts(front.take(k))->Ok_0, front[k])->Err_0
                    };
                assert(lines[k] == front[k]);
                assert(lines.take(k) =~= front.take(k));
            } else {
                assert(lines[n] == lines.last());
            }
        }
    }
}

} // verus!
