//! Internet addresses, their textual notation, and socket addresses.

use crate::text;
use crate::text::Class;
use vstd::prelude::*;
use vstd::string::*;

pub mod notation;

verus! {

/// An IPv4 or IPv6 address, as the number that its bytes denote.
#[derive(Clone, Copy, Debug, PartialEq, Eq, PartialOrd, Ord, Hash, Structural)]
pub enum IpAddr {
    V4(u32),
    V6(u128),
}

/// An address with a port. Scope and flow information are zero for IPv4.
#[derive(Clone, Copy, Debug, PartialEq, Eq, PartialOrd, Ord, Hash, Structural)]
pub struct SocketAddr {
    pub ip: IpAddr,
    pub port: u16,
    pub flow_info: u32,
    pub scope_id: u32,
}

/// The text is no address.
#[derive(Clone, Copy, Debug, PartialEq, Eq, Structural)]
pub struct AddrParseError;

/// One number of a dotted quad: at most 255, without leading zeros.
pub open spec fn octet(s: Seq<char>) -> Option<nat> {
    if s.len() <= 3 && (s.len() > 1 ==> s[0] != '0') {
        text::digits(s, 255)
    } else {
        None
    }
}

/// A dotted quad.
pub open spec fn ipv4(s: Seq<char>) -> Option<u32> {
    let p = text::split(s, '.');
    if p.len() == 4 && octet(p[0]) is Some && octet(p[1]) is Some && octet(p[2]) is Some && octet(
        p[3],
    ) is Some {
        Some(
            (octet(p[0]).unwrap() * 0x100_0000 + octet(p[1]).unwrap() * 0x1_0000 + octet(
                p[2],
            ).unwrap() * 0x100 + octet(p[3]).unwrap()) as u32,
        )
    } else {
        None
    }
}

pub open spec fn is_hex(c: char) -> bool {
    ('0' <= c <= '9') || ('a' <= c <= 'f') || ('A' <= c <= 'F')
}

pub open spec fn hex_digit(c: char) -> nat {
    if '0' <= c <= '9' {
        (c as nat - 48) as nat
    } else if 'a' <= c <= 'f' {
        (c as nat - 87) as nat
    } else {
        (c as nat - 55) as nat
    }
}

pub open spec fn hex_value(s: Seq<char>) -> nat
    decreases s.len(),
{
    if s.len() == 0 {
        0
    } else {
        hex_value(s.drop_last()) * 16 + hex_digit(s.last())
    }
}

/// One to four hexadecimal digits.
pub open spec fn hex_group(s: Seq<char>) -> Option<u16> {
    if 1 <= s.len() <= 4 && (forall|i: int| 0 <= i < s.len() ==> is_hex(#[trigger] s[i])) {
        Some(hex_value(s) as u16)
    } else {
        None
    }
}

/// The groups that pieces denote; the last piece may be a dotted quad, which
/// counts as two groups, where `quad` allows it.
pub open spec fn groups(p: Seq<Seq<char>>, quad: bool) -> Option<Seq<u16>>
    decreases p.len(),
{
    if p.len() == 0 {
        Some(Seq::empty())
    } else if p.len() == 1 && quad && ipv4(p[0]) is Some {
        let a = ipv4(p[0]).unwrap();
        Some(seq![(a / 0x1_0000) as u16, (a % 0x1_0000) as u16])
    } else {
        match (hex_group(p[0]), groups(p.drop_first(), quad)) {
            (Some(g), Some(rest)) => Some(seq![g] + rest),
            _ => None,
        }
    }
}

/// The pieces between colons; an empty text has none.
pub open spec fn pieces(s: Seq<char>) -> Seq<Seq<char>> {
    if s.len() == 0 {
        Seq::empty()
    } else {
        text::split(s, ':')
    }
}

/// The index of the first double colon, or the length.
pub open spec fn gap(s: Seq<char>) -> nat
    decreases s.len(),
{
    if s.len() < 2 {
        s.len()
    } else if s[0] == ':' && s[1] == ':' {
        0
    } else {
        1 + gap(s.drop_first())
    }
}

pub open spec fn groups_value(g: Seq<u16>) -> nat
    decreases g.len(),
{
    if g.len() == 0 {
        0
    } else {
        groups_value(g.drop_last()) * 0x1_0000 + g.last() as nat
    }
}

/// Colon-separated groups, eight of them, or fewer around one double colon that
/// stands for at least one zero group.
pub open spec fn ipv6_groups(s: Seq<char>) -> Option<Seq<u16>> {
    let n = gap(s) as int;
    if n < s.len() {
        match (groups(pieces(s.take(n)), false), groups(pieces(s.skip(n + 2)), true)) {
            (Some(head), Some(tail)) => if head.len() + tail.len() <= 7 {
                Some(head + Seq::new((8 - head.len() - tail.len()) as nat, |i: int| 0u16) + tail)
            } else {
                None
            },
            _ => None,
        }
    } else {
        match groups(pieces(s), true) {
            Some(g) => if g.len() == 8 {
                Some(g)
            } else {
                None
            },
            None => None,
        }
    }
}

pub open spec fn ipv6(s: Seq<char>) -> Option<u128> {
    match ipv6_groups(s) {
        Some(g) => Some(groups_value(g) as u128),
        None => None,
    }
}

/// The address that a text denotes.
pub open spec fn ip(s: Seq<char>) -> Option<IpAddr> {
    match ipv4(s) {
        Some(a) => Some(IpAddr::V4(a)),
        None => match ipv6(s) {
            Some(a) => Some(IpAddr::V6(a)),
            None => None,
        },
    }
}

/// `address:port`, with an IPv6 address and its optional decimal scope in brackets.
pub open spec fn socket(s: Seq<char>) -> Option<SocketAddr> {
    let n = text::trailing(s, Class::IsNot(':'));
    if n >= s.len() {
        None
    } else {
        let host = s.take(s.len() - n - 1);
        match text::digits(s.skip(s.len() - n), 65535) {
            None => None,
            Some(port) => if host.len() >= 2 && host[0] == '[' && host.last() == ']' {
                let inner = host.subrange(1, host.len() - 1);
                let k = text::leading(inner, Class::IsNot('%')) as int;
                let scope = if k < inner.len() {
                    text::digits(inner.skip(k + 1), 0xffff_ffff)
                } else {
                    Some(0nat)
                };
                match (ipv6(inner.take(k)), scope) {
                    (Some(a), Some(scope_id)) => Some(
                        SocketAddr {
                            ip: IpAddr::V6(a),
                            port: port as u16,
                            flow_info: 0,
                            scope_id: scope_id as u32,
                        },
                    ),
                    _ => None,
                }
            } else {
                match ipv4(host) {
                    Some(a) => Some(
                        SocketAddr { ip: IpAddr::V4(a), port: port as u16, flow_info: 0, scope_id: 0 },
                    ),
                    None => None,
                }
            },
        }
    }
}

fn octet_of(s: &[char]) -> (r: Option<u8>)
    ensures
        match r {
            Some(n) => octet(s@) == Some(n as nat),
            None => octet(s@) is None,
        },
{
    if s.len() > 3 || (s.len() > 1 && s[0] == '0') {
        return None;
    }
    match text::digits_of(s, 255) {
        Some(n) => Some(n as u8),
        None => None,
    }
}

/// Reads a dotted quad.
pub fn ipv4_of(s: &[char]) -> (r: Option<u32>)
    ensures
        r == ipv4(s@),
{
    let p = text::split_of(s, '.');
    let ghost t = text::split(s@, '.');
    assert(text::texts(p@) == t);
    if p.len() != 4 {
        return None;
    }
    assert(p@[0]@ == t[0] && p@[1]@ == t[1] && p@[2]@ == t[2] && p@[3]@ == t[3]);
    match (octet_of(p[0]), octet_of(p[1]), octet_of(p[2]), octet_of(p[3])) {
        (Some(a), Some(b), Some(c), Some(d)) => Some(
            a as u32 * 0x100_0000 + b as u32 * 0x1_0000 + c as u32 * 0x100 + d as u32,
        ),
        _ => None,
    }
}

fn hex_group_of(s: &[char]) -> (r: Option<u16>)
    ensures
        r == hex_group(s@),
{
    if s.len() == 0 || s.len() > 4 {
        return None;
    }
    let mut value: u32 = 0;
    let mut i: usize = 0;
    while i < s.len()
        invariant
            i <= s@.len() <= 4,
            value == hex_value(s@.take(i as int)),
            i == 0 ==> value == 0,
            i == 1 ==> value < 0x10,
            i == 2 ==> value < 0x100,
            i == 3 ==> value < 0x1000,
            i == 4 ==> value < 0x1_0000,
            forall|j: int| 0 <= j < i ==> is_hex(#[trigger] s@[j]),
        decreases s@.len() - i,
    {
        let c = s[i];
        let d: u32 = if '0' <= c && c <= '9' {
            c as u32 - 48
        } else if 'a' <= c && c <= 'f' {
            c as u32 - 87
        } else if 'A' <= c && c <= 'F' {
            c as u32 - 55
        } else {
            assert(!is_hex(s@[i as int]));
            return None;
        };
        assert(s@.take(i + 1).drop_last() == s@.take(i as int));
        value = value * 16 + d;
        i = i + 1;
    }
    assert(s@.take(i as int) == s@);
    Some(value as u16)
}

fn pieces_of(s: &[char]) -> (r: Vec<&[char]>)
    ensures
        text::texts(r@) == pieces(s@),
{
    if s.len() == 0 {
        let out: Vec<&[char]> = Vec::new();
        assert(text::texts(out@) == pieces(s@));
        out
    } else {
        text::split_of(s, ':')
    }
}

pub open spec fn then_groups(done: Seq<u16>, rest: Option<Seq<u16>>) -> Option<Seq<u16>> {
    match rest {
        Some(g) => Some(done + g),
        None => None,
    }
}

fn groups_of(p: &Vec<&[char]>, quad: bool) -> (r: Option<Vec<u16>>)
    ensures
        match r {
            Some(g) => groups(text::texts(p@), quad) == Some(g@),
            None => groups(text::texts(p@), quad) is None,
        },
{
    let ghost t = text::texts(p@);
    let mut out: Vec<u16> = Vec::new();
    let mut i: usize = 0;
    assert(t.skip(0) == t);
    assert(groups(t, quad) is Some ==> out@ + groups(t, quad).unwrap() == groups(t, quad).unwrap());
    while i < p.len()
        invariant
            i <= p@.len(),
            t == text::texts(p@),
            then_groups(out@, groups(t.skip(i as int), quad)) == groups(t, quad),
        decreases p@.len() - i,
    {
        let ghost rest = t.skip(i as int);
        assert(rest[0] == p@[i as int]@);
        if quad && i + 1 == p.len() {
            if let Some(a) = ipv4_of(p[i]) {
                let ghost done = out@;
                out.push((a / 0x1_0000) as u16);
                out.push((a % 0x1_0000) as u16);
                assert(out@ == done + seq![(a / 0x1_0000) as u16, (a % 0x1_0000) as u16]);
                return Some(out);
            }
        }
        match hex_group_of(p[i]) {
            None => {
                return None;
            },
            Some(g) => {
                let ghost done = out@;
                out.push(g);
                assert(rest.drop_first() == t.skip(i + 1));
                assert(groups(rest.drop_first(), quad) is Some ==> done + (seq![g] + groups(
                    rest.drop_first(),
                    quad,
                ).unwrap()) == out@ + groups(rest.drop_first(), quad).unwrap());
                i = i + 1;
            },
        }
    }
    assert(out@ + Seq::<u16>::empty() == out@);
    Some(out)
}

proof fn lemma_gap_step(s: Seq<char>, i: int)
    requires
        0 <= i <= s.len(),
        forall|j: int| 0 <= j < i && j + 1 < s.len() ==> !(#[trigger] s[j] == ':' && s[j + 1] == ':'),
    ensures
        gap(s) == i + gap(s.skip(i)),
    decreases i,
{
    if i == 0 {
        assert(s.skip(0) == s);
    } else {
        lemma_gap_step(s, i - 1);
        let t = s.skip(i - 1);
        assert(t.len() >= 2 ==> t[0] == s[i - 1] && t[1] == s[i]);
        assert(t.drop_first() == s.skip(i));
        if t.len() < 2 {
            assert(t.len() == 1);
            assert(s.skip(i).len() == 0);
        }
    }
}

fn gap_of(s: &[char]) -> (r: usize)
    ensures
        r == gap(s@),
        r <= s@.len(),
        r < s@.len() ==> r + 1 < s@.len(),
{
    let mut i: usize = 0;
    while s.len() > 1 && i < s.len() - 1
        invariant
            i <= s@.len(),
            forall|j: int|
                0 <= j < i && j + 1 < s@.len() ==> !(#[trigger] s@[j] == ':' && s@[j + 1] == ':'),
        decreases s@.len() - i,
    {
        if s[i] == ':' && s[i + 1] == ':' {
            proof {
                lemma_gap_step(s@, i as int);
                assert(s@.skip(i as int)[0] == ':' && s@.skip(i as int)[1] == ':');
            }
            return i;
        }
        i = i + 1;
    }
    proof {
        lemma_gap_step(s@, i as int);
        assert(s@.skip(i as int).len() < 2);
    }
    s.len()
}

proof fn lemma_groups_value_bound(g: Seq<u16>)
    requires
        g.len() <= 8,
    ensures
        g.len() == 0 ==> groups_value(g) < 1,
        g.len() == 1 ==> groups_value(g) < 0x1_0000,
        g.len() == 2 ==> groups_value(g) < 0x1_0000_0000,
        g.len() == 3 ==> groups_value(g) < 0x1_0000_0000_0000,
        g.len() == 4 ==> groups_value(g) < 0x1_0000_0000_0000_0000,
        g.len() == 5 ==> groups_value(g) < 0x1_0000_0000_0000_0000_0000,
        g.len() == 6 ==> groups_value(g) < 0x1_0000_0000_0000_0000_0000_0000,
        g.len() == 7 ==> groups_value(g) < 0x1_0000_0000_0000_0000_0000_0000_0000,
        g.len() == 8 ==> groups_value(g) < 0x1_0000_0000_0000_0000_0000_0000_0000_0000,
    decreases g.len(),
{
    if g.len() > 0 {
        lemma_groups_value_bound(g.drop_last());
    }
}

fn value_of_groups(g: &Vec<u16>) -> (r: u128)
    requires
        g@.len() <= 8,
    ensures
        r == groups_value(g@),
{
    let mut value: u128 = 0;
    let mut i: usize = 0;
    while i < g.len()
        invariant
            i <= g@.len() <= 8,
            value == groups_value(g@.take(i as int)),
        decreases g@.len() - i,
    {
        assert(g@.take(i + 1).drop_last() == g@.take(i as int));
        proof {
            lemma_groups_value_bound(g@.take(i + 1));
        }
        value = value * 0x1_0000 + g[i] as u128;
        i = i + 1;
    }
    assert(g@.take(i as int) == g@);
    value
}

/// Reads an IPv6 address.
pub fn ipv6_of(s: &[char]) -> (r: Option<u128>)
    ensures
        r == ipv6(s@),
{
    let n: usize = gap_of(s);
    if n < s.len() {
        let first = pieces_of(&s[0..n]);
        let second = pieces_of(&s[n + 2..s.len()]);
        match (groups_of(&first, false), groups_of(&second, true)) {
            (Some(head), Some(tail)) => {
                if head.len() > 7 || tail.len() > 7 - head.len() {
                    return None;
                }
                let ghost h = head@;
                let ghost t = tail@;
                let ghost z = Seq::new((8 - h.len() - t.len()) as nat, |i: int| 0u16);
                let mut all = head;
                while all.len() < 8 - tail.len()
                    invariant
                        h.len() <= all@.len() <= 8 - t.len(),
                        tail@ == t,
                        h.len() + t.len() <= 7,
                        z == Seq::new((8 - h.len() - t.len()) as nat, |i: int| 0u16),
                        all@ == h + z.take(all@.len() - h.len()),
                    decreases 8 - all@.len(),
                {
                    let ghost k = all@.len() - h.len();
                    all.push(0u16);
                    assert(z.take(k + 1) == z.take(k).push(0u16));
                }
                assert(z.take(all@.len() - h.len()) == z);
                let mut j: usize = 0;
                while j < tail.len()
                    invariant
                        j <= t.len(),
                        tail@ == t,
                        all@ == h + z + t.take(j as int),
                    decreases t.len() - j,
                {
                    all.push(tail[j]);
                    j = j + 1;
                    assert(t.take(j as int) == t.take(j - 1).push(t[j - 1]));
                }
                assert(t.take(j as int) == t);
                Some(value_of_groups(&all))
            },
            _ => None,
        }
    } else {
        let all = pieces_of(s);
        match groups_of(&all, true) {
            Some(g) => if g.len() == 8 {
                Some(value_of_groups(&g))
            } else {
                None
            },
            None => None,
        }
    }
}

/// Reads an address.
pub fn ip_of(s: &[char]) -> (r: Option<IpAddr>)
    ensures
        r == ip(s@),
{
    match ipv4_of(s) {
        Some(a) => Some(IpAddr::V4(a)),
        None => match ipv6_of(s) {
            Some(a) => Some(IpAddr::V6(a)),
            None => None,
        },
    }
}

/// Reads an address with its port.
pub fn socket_of(s: &[char]) -> (r: Option<SocketAddr>)
    ensures
        r == socket(s@),
{
    let n: usize = text::trailing_len(s, Class::IsNot(':'));
    if n >= s.len() {
        return None;
    }
    let host = &s[0..s.len() - n - 1];
    let port: u16 = match text::digits_of(&s[s.len() - n..s.len()], 65535) {
        None => {
            return None;
        },
        Some(p) => p as u16,
    };
    if host.len() >= 2 && host[0] == '[' && host[host.len() - 1] == ']' {
        let inner = &host[1..host.len() - 1];
        let k: usize = text::leading_len(inner, Class::IsNot('%'));
        let scope: Option<u64> = if k < inner.len() {
            text::digits_of(&inner[k + 1..inner.len()], 0xffff_ffff)
        } else {
            Some(0)
        };
        match (ipv6_of(&inner[0..k]), scope) {
            (Some(a), Some(scope_id)) => Some(
                SocketAddr { ip: IpAddr::V6(a), port, flow_info: 0, scope_id: scope_id as u32 },
            ),
            _ => None,
        }
    } else {
        match ipv4_of(host) {
            Some(a) => Some(SocketAddr { ip: IpAddr::V4(a), port, flow_info: 0, scope_id: 0 }),
            None => None,
        }
    }
}


pub open spec fn hex_char(d: nat) -> char {
    if d < 10 {
        (48 + d) as char
    } else {
        (87 + d) as char
    }
}

/// Lower case hexadecimal notation without leading zeros.
pub open spec fn hex(n: nat) -> Seq<char>
    decreases n,
{
    if n < 16 {
        seq![hex_char(n)]
    } else {
        hex(n / 16).push(hex_char(n % 16))
    }
}

/// The lowest `len` sixteen-bit groups of `n`, most significant first.
pub open spec fn groups_of_value(n: nat, len: nat) -> Seq<u16>
    decreases len,
{
    if len == 0 {
        Seq::empty()
    } else {
        groups_of_value(n / 0x1_0000, (len - 1) as nat).push((n % 0x1_0000) as u16)
    }
}

/// How many zero groups follow one another from `i` on.
pub open spec fn zeros_from(g: Seq<u16>, i: int) -> nat
    decreases g.len() - i,
{
    if 0 <= i < g.len() && g[i] == 0 {
        1 + zeros_from(g, i + 1)
    } else {
        0
    }
}

/// The start and length of the first longest run of zeros that begins before `n`.
pub open spec fn longest_zeros(g: Seq<u16>, n: nat) -> (int, nat)
    decreases n,
{
    if n == 0 {
        (0, 0)
    } else {
        let prev = longest_zeros(g, (n - 1) as nat);
        let run = zeros_from(g, n - 1);
        if run > prev.1 {
            (n - 1, run)
        } else {
            prev
        }
    }
}

/// Groups in hexadecimal with colons between them.
pub open spec fn group_text(g: Seq<u16>) -> Seq<char>
    decreases g.len(),
{
    if g.len() == 0 {
        Seq::empty()
    } else if g.len() == 1 {
        hex(g[0] as nat)
    } else {
        group_text(g.drop_last()).push(':') + hex(g.last() as nat)
    }
}

pub open spec fn ipv4_text(a: u32) -> Seq<char> {
    text::decimal((a / 0x100_0000) as nat).push('.') + text::decimal(
        (a / 0x1_0000 % 0x100) as nat,
    ).push('.') + text::decimal((a / 0x100 % 0x100) as nat).push('.') + text::decimal(
        (a % 0x100) as nat,
    )
}

/// The canonical notation: an IPv4-mapped address shows its dotted quad, and
/// the first longest run of at least two zero groups becomes a double colon.
pub open spec fn ipv6_text(a: u128) -> Seq<char> {
    if a / 0x1_0000_0000 == 0xffff {
        "::ffff:"@ + ipv4_text((a % 0x1_0000_0000) as u32)
    } else {
        let g = groups_of_value(a as nat, 8);
        let (start, run) = longest_zeros(g, 8);
        if run > 1 {
            group_text(g.take(start)) + "::"@ + group_text(g.skip(start + run))
        } else {
            group_text(g)
        }
    }
}

pub open spec fn ip_text(a: IpAddr) -> Seq<char> {
    match a {
        IpAddr::V4(n) => ipv4_text(n),
        IpAddr::V6(n) => ipv6_text(n),
    }
}

pub open spec fn socket_text(a: SocketAddr) -> Seq<char> {
    match a.ip {
        IpAddr::V4(n) => ipv4_text(n).push(':') + text::decimal(a.port as nat),
        IpAddr::V6(n) => "["@ + ipv6_text(n) + (if a.scope_id == 0 {
            Seq::empty()
        } else {
            "%"@ + text::decimal(a.scope_id as nat)
        }) + "]:"@ + text::decimal(a.port as nat),
    }
}

fn push_hex(out: &mut String, n: u16)
    ensures
        final(out)@ == old(out)@ + hex(n as nat),
    decreases n,
{
    if n >= 16 {
        push_hex(out, n / 16);
    }
    let d: u8 = (n % 16) as u8;
    if d < 10 {
        out.push((48 + d) as char);
    } else {
        out.push((87 + d) as char);
    }
    assert(out@ == old(out)@ + hex(n as nat));
}

fn push_ipv4(out: &mut String, a: u32)
    ensures
        final(out)@ == old(out)@ + ipv4_text(a),
{
    text::push_decimal(out, (a / 0x100_0000) as u64);
    out.push('.');
    text::push_decimal(out, (a / 0x1_0000 % 0x100) as u64);
    out.push('.');
    text::push_decimal(out, (a / 0x100 % 0x100) as u64);
    out.push('.');
    text::push_decimal(out, (a % 0x100) as u64);
    assert(out@ == old(out)@ + ipv4_text(a));
}

fn value_groups(n: u128, len: usize) -> (r: Vec<u16>)
    ensures
        r@ == groups_of_value(n as nat, len as nat),
    decreases len,
{
    if len == 0 {
        Vec::new()
    } else {
        let mut out = value_groups(n / 0x1_0000, len - 1);
        out.push((n % 0x1_0000) as u16);
        out
    }
}

proof fn lemma_groups_of_value_len(n: nat, len: nat)
    ensures
        groups_of_value(n, len).len() == len,
    decreases len,
{
    if len > 0 {
        lemma_groups_of_value_len(n / 0x1_0000, (len - 1) as nat);
    }
}

fn zeros_from_of(g: &Vec<u16>, i: usize) -> (r: usize)
    requires
        i <= g@.len(),
    ensures
        r == zeros_from(g@, i as int),
        i + r <= g@.len(),
    decreases g@.len() - i,
{
    if i < g.len() && g[i] == 0 {
        1 + zeros_from_of(g, i + 1)
    } else {
        0
    }
}

fn push_groups(out: &mut String, g: &Vec<u16>, start: usize, end: usize)
    requires
        start <= end <= g@.len(),
    ensures
        final(out)@ == old(out)@ + group_text(g@.subrange(start as int, end as int)),
{
    let mut i: usize = start;
    let ghost before = out@;
    assert(g@.subrange(start as int, i as int).len() == 0);
    assert(out@ == before + group_text(g@.subrange(start as int, i as int)));
    while i < end
        invariant
            start <= i <= end <= g@.len(),
            out@ == before + group_text(g@.subrange(start as int, i as int)),
        decreases end - i,
    {
        let ghost t = g@.subrange(start as int, i + 1);
        assert(t.drop_last() == g@.subrange(start as int, i as int));
        if i > start {
            out.push(':');
        }
        push_hex(out, g[i]);
        i = i + 1;
        assert(t.last() == g@[i - 1]);
        assert(out@ == before + group_text(t));
    }
}

fn push_ipv6(out: &mut String, a: u128)
    ensures
        final(out)@ == old(out)@ + ipv6_text(a),
{
    if a / 0x1_0000_0000 == 0xffff {
        out.append("::ffff:");
        push_ipv4(out, (a % 0x1_0000_0000) as u32);
        assert(out@ == old(out)@ + ipv6_text(a));
    } else {
        let g = value_groups(a, 8);
        proof {
            lemma_groups_of_value_len(a as nat, 8);
        }
        let mut start: usize = 0;
        let mut run: usize = 0;
        let mut i: usize = 0;
        while i < 8
            invariant
                i <= 8,
                g@.len() == 8,
                (start as int, run as nat) == longest_zeros(g@, i as nat),
                start + run <= 8,
            decreases 8 - i,
        {
            let here: usize = zeros_from_of(&g, i);
            if here > run {
                start = i;
                run = here;
            }
            i = i + 1;
        }
        if run > 1 {
            push_groups(out, &g, 0, start);
            out.append("::");
            push_groups(out, &g, start + run, 8);
        } else {
            push_groups(out, &g, 0, 8);
            assert(g@.subrange(0, 8) == g@);
        }
        assert(out@ == old(out)@ + ipv6_text(a));
    }
}

impl IpAddr {
    /// Reads an address.
    pub fn parse(s: &str) -> (r: Option<IpAddr>)
        ensures
            r == ip(s@),
    {
        let chars = text::chars_of(s);
        ip_of(chars.as_slice())
    }

    /// The canonical notation.
    pub fn text(self) -> (r: String)
        ensures
            r@ == ip_text(self),
    {
        let mut out = String::new();
        match self {
            IpAddr::V4(a) => push_ipv4(&mut out, a),
            IpAddr::V6(a) => push_ipv6(&mut out, a),
        }
        assert(out@ == ip_text(self));
        out
    }

    pub open spec fn spec_is_loopback(self) -> bool {
        match self {
            IpAddr::V4(a) => a / 0x100_0000 == 127,
            IpAddr::V6(a) => a == 1,
        }
    }

    /// `127.0.0.0/8` and `::1`.
    pub fn is_loopback(self) -> (r: bool)
        ensures
            r == self.spec_is_loopback(),
    {
        match self {
            IpAddr::V4(a) => a / 0x100_0000 == 127,
            IpAddr::V6(a) => a == 1,
        }
    }

    pub open spec fn spec_is_unspecified(self) -> bool {
        match self {
            IpAddr::V4(a) => a == 0,
            IpAddr::V6(a) => a == 0,
        }
    }

    /// The all-zero address.
    pub fn is_unspecified(self) -> (r: bool)
        ensures
            r == self.spec_is_unspecified(),
    {
        match self {
            IpAddr::V4(a) => a == 0,
            IpAddr::V6(a) => a == 0,
        }
    }

    pub open spec fn spec_is_ipv4(self) -> bool {
        self is V4
    }

    pub fn is_ipv4(self) -> (r: bool)
        ensures
            r == self.spec_is_ipv4(),
    {
        match self {
            IpAddr::V4(_) => true,
            IpAddr::V6(_) => false,
        }
    }
}

impl SocketAddr {
    pub open spec fn spec_new(ip: IpAddr, port: u16) -> SocketAddr {
        SocketAddr { ip, port, flow_info: 0, scope_id: 0 }
    }

    /// An address with its port, without scope and flow information.
    pub fn new(ip: IpAddr, port: u16) -> (r: SocketAddr)
        ensures
            r == SocketAddr::spec_new(ip, port),
    {
        SocketAddr { ip, port, flow_info: 0, scope_id: 0 }
    }

    /// Reads an address with its port.
    pub fn parse(s: &str) -> (r: Option<SocketAddr>)
        ensures
            r == socket(s@),
    {
        let chars = text::chars_of(s);
        socket_of(chars.as_slice())
    }

    /// `address:port`, with an IPv6 address in brackets.
    pub fn text(self) -> (r: String)
        ensures
            r@ == socket_text(self),
    {
        let mut out = String::new();
        match self.ip {
            IpAddr::V4(a) => {
                push_ipv4(&mut out, a);
                out.push(':');
            },
            IpAddr::V6(a) => {
                out.append("[");
                push_ipv6(&mut out, a);
                if self.scope_id != 0 {
                    out.append("%");
                    text::push_decimal(&mut out, self.scope_id as u64);
                }
                out.append("]:");
            },
        }
        text::push_decimal(&mut out, self.port as u64);
        assert(out@ == socket_text(self));
        out
    }
}

impl core::str::FromStr for IpAddr {
    type Err = AddrParseError;

    fn from_str(s: &str) -> (r: Result<IpAddr, AddrParseError>)
        ensures
            match r {
                Ok(a) => ip(s@) == Some(a),
                Err(_) => ip(s@) is None,
            },
    {
        match IpAddr::parse(s) {
            Some(a) => Ok(a),
            None => Err(AddrParseError),
        }
    }
}

impl core::str::FromStr for SocketAddr {
    type Err = AddrParseError;

    fn from_str(s: &str) -> (r: Result<SocketAddr, AddrParseError>)
        ensures
            match r {
                Ok(a) => socket(s@) == Some(a),
                Err(_) => socket(s@) is None,
            },
    {
        match SocketAddr::parse(s) {
            Some(a) => Ok(a),
            None => Err(AddrParseError),
        }
    }
}

} // verus!
