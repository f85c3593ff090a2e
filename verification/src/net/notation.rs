//! Addresses are read back from their canonical notation.

use crate::net;
use crate::net::{IpAddr, SocketAddr};
use crate::text;
use crate::text::Class;
use vstd::arithmetic::div_mod;
use vstd::prelude::*;

verus! {

/// No character of the text is `c`.
pub open spec fn lacks(s: Seq<char>, c: char) -> bool {
    forall|i: int| 0 <= i < s.len() ==> #[trigger] s[i] != c
}

/// The character is one of the canonical hexadecimal digits.
pub open spec fn is_lower_hex(c: char) -> bool {
    '0' <= c <= '9' || 'a' <= c <= 'f'
}

/// The text has hexadecimal digits, dots and colons only.
pub open spec fn is_address_text(s: Seq<char>) -> bool {
    forall|i: int|
        0 <= i < s.len() ==> #[trigger] s[i] == ':' || s[i] == '.' || is_lower_hex(s[i])
}

/// The decimal notation of a number denotes it and has no leading zeros.
pub proof fn lemma_decimal(n: nat)
    ensures
        text::decimal(n).len() >= 1,
        text::all_digits(text::decimal(n)),
        text::decimal_value(text::decimal(n)) == n,
        n > 0 ==> text::decimal(n)[0] != '0',
        n < 10 ==> text::decimal(n).len() == 1,
        n < 100 ==> text::decimal(n).len() <= 2,
        n < 1000 ==> text::decimal(n).len() <= 3,
    decreases n,
{
    let s = text::decimal(n);
    if n < 10 {
        assert(s.drop_last() =~= Seq::<char>::empty());
        assert(text::decimal_value(s.drop_last()) == 0);
    } else {
        lemma_decimal(n / 10);
        assert(s.drop_last() =~= text::decimal(n / 10));
        assert forall|i: int| 0 <= i < s.len() implies text::is_digit(#[trigger] s[i]) by {
            if i < s.len() - 1 {
                assert(s[i] == text::decimal(n / 10)[i]);
            }
        }
        assert(s[0] == text::decimal(n / 10)[0]);
    }
}

proof fn lemma_digits(n: nat, max: nat)
    requires
        n <= max,
    ensures
        text::digits(text::decimal(n), max) == Some(n),
        lacks(text::decimal(n), '.'),
        lacks(text::decimal(n), ':'),
        lacks(text::decimal(n), '%'),
        lacks(text::decimal(n), ']'),
{
    lemma_decimal(n);
    let s = text::decimal(n);
    assert forall|i: int| 0 <= i < s.len() implies #[trigger] s[i] != '.' && s[i] != ':' && s[i]
        != '%' && s[i] != ']' by {
        assert(text::is_digit(s[i]));
    }
}

/// A piece without the separator is split off in front.
proof fn lemma_split_first(p: Seq<char>, c: char, rest: Seq<char>)
    requires
        lacks(p, c),
    ensures
        text::split(p.push(c) + rest, c) == seq![p] + text::split(rest, c),
{
    let s = p.push(c) + rest;
    assert forall|i: int| 0 <= i < p.len() implies Class::IsNot(c).has(#[trigger] s[i]) by {
        assert(s[i] == p[i]);
    }
    assert(s[p.len() as int] == c);
    text::lemma_leading_is(s, Class::IsNot(c), p.len());
    assert(s.take(p.len() as int) =~= p);
    assert(s.skip(p.len() as int + 1) =~= rest);
}

proof fn lemma_split_last(p: Seq<char>, c: char)
    requires
        lacks(p, c),
    ensures
        text::split(p, c) == seq![p],
{
    text::lemma_leading_is(p, Class::IsNot(c), p.len());
}

proof fn lemma_octet(n: nat)
    requires
        n < 256,
    ensures
        net::octet(text::decimal(n)) == Some(n),
        lacks(text::decimal(n), '.'),
        lacks(text::decimal(n), ':'),
{
    lemma_decimal(n);
    lemma_digits(n, 255);
}

/// A dotted quad is read back from its text, which has digits and dots only.
pub proof fn lemma_ipv4_text(a: u32)
    ensures
        net::ipv4(net::ipv4_text(a)) == Some(a),
        lacks(net::ipv4_text(a), ':'),
        lacks(net::ipv4_text(a), ']'),
        lacks(net::ipv4_text(a), '%'),
        is_address_text(net::ipv4_text(a)),
        net::ipv4_text(a).len() > 0,
{
    let (p, q, r, t) = (
        (a / 0x100_0000) as nat,
        (a / 0x1_0000 % 0x100) as nat,
        (a / 0x100 % 0x100) as nat,
        (a % 0x100) as nat,
    );
    lemma_octet(p);
    lemma_octet(q);
    lemma_octet(r);
    lemma_octet(t);
    lemma_digits(p, 255);
    lemma_digits(q, 255);
    lemma_digits(r, 255);
    lemma_digits(t, 255);
    let (d1, d2, d3, d4) = (text::decimal(p), text::decimal(q), text::decimal(r), text::decimal(t));
    let s = net::ipv4_text(a);
    assert(s =~= d1.push('.') + (d2.push('.') + (d3.push('.') + d4)));
    lemma_split_first(d1, '.', d2.push('.') + (d3.push('.') + d4));
    lemma_split_first(d2, '.', d3.push('.') + d4);
    lemma_split_first(d3, '.', d4);
    lemma_split_last(d4, '.');
    assert(text::split(s, '.') =~= seq![d1, d2, d3, d4]);
    assert(p * 0x100_0000 + q * 0x1_0000 + r * 0x100 + t == a) by {
        assert(a as int == 0x100 * (a as int / 0x100) + a as int % 0x100);
        assert(a as int / 0x100 == 0x100 * (a as int / 0x1_0000) + a as int / 0x100 % 0x100);
        assert(a as int / 0x1_0000 == 0x100 * (a as int / 0x100_0000) + a as int / 0x1_0000
            % 0x100);
    }
    assert forall|i: int| 0 <= i < s.len() implies (#[trigger] s[i] == '.' || text::is_digit(s[i])) by {
        lemma_decimal(p);
        lemma_decimal(q);
        lemma_decimal(r);
        lemma_decimal(t);
        let n1 = d1.len() + 1;
        let n2 = n1 + d2.len() + 1;
        let n3 = n2 + d3.len() + 1;
        if i < d1.len() {
            assert(s[i] == d1[i]);
        } else if n1 <= i < n1 + d2.len() {
            assert(s[i] == d2[i - n1]);
        } else if n2 <= i < n2 + d3.len() {
            assert(s[i] == d3[i - n2]);
        } else if i >= n3 {
            assert(s[i] == d4[i - n3]);
        }
    }
}

proof fn lemma_hex(n: nat)
    requires
        n < 0x1_0000,
    ensures
        1 <= net::hex(n).len() <= 4,
        n < 0x1000 ==> net::hex(n).len() <= 3,
        n < 0x100 ==> net::hex(n).len() <= 2,
        n < 0x10 ==> net::hex(n).len() == 1,
        forall|i: int| 0 <= i < net::hex(n).len() ==> is_lower_hex(#[trigger] net::hex(n)[i]),
        net::hex_value(net::hex(n)) == n,
    decreases n,
{
    let s = net::hex(n);
    if n < 16 {
        assert(s.drop_last() =~= Seq::<char>::empty());
        assert(net::hex_value(s.drop_last()) == 0);
    } else {
        lemma_hex(n / 16);
        assert(s.drop_last() =~= net::hex(n / 16));
        assert forall|i: int| 0 <= i < s.len() implies is_lower_hex(#[trigger] s[i]) by {
            if i < s.len() - 1 {
                assert(s[i] == net::hex(n / 16)[i]);
            }
        }
    }
}

proof fn lemma_hex_group(n: u16)
    ensures
        net::hex_group(net::hex(n as nat)) == Some(n),
        net::hex(n as nat).len() > 0,
        lacks(net::hex(n as nat), ':'),
        lacks(net::hex(n as nat), '.'),
        lacks(net::hex(n as nat), '%'),
        lacks(net::hex(n as nat), ']'),
{
    lemma_hex(n as nat);
    let s = net::hex(n as nat);
    assert forall|i: int| 0 <= i < s.len() implies #[trigger] s[i] != '.' && s[i] != ':' && s[i]
        != '%' && s[i] != ']' && net::is_hex(s[i]) by {
        assert(is_lower_hex(s[i]));
    }
}

/// Groups in text, seen from the front.
proof fn lemma_group_text_first(g: Seq<u16>)
    requires
        g.len() > 1,
    ensures
        net::group_text(g) == net::hex(g[0] as nat).push(':') + net::group_text(g.drop_first()),
    decreases g.len(),
{
    let rest = g.drop_first();
    if g.len() == 2 {
        assert(g.drop_last().len() == 1);
        assert(g.drop_last()[0] == g[0]);
        assert(rest[0] == g.last());
        assert(net::group_text(g.drop_last()) == net::hex(g[0] as nat));
        assert(net::group_text(rest) == net::hex(g.last() as nat));
    } else {
        lemma_group_text_first(g.drop_last());
        assert(g.drop_last().drop_first() =~= rest.drop_last());
        assert(rest.last() == g.last());
        assert(net::group_text(g) =~= net::hex(g[0] as nat).push(':') + net::group_text(rest));
    }
}

/// A text without a dot is no dotted quad.
proof fn lemma_no_quad(s: Seq<char>)
    requires
        lacks(s, '.'),
    ensures
        net::ipv4(s) is None,
{
    lemma_split_last(s, '.');
}

/// Nothing but lower case hexadecimal digits and single colons between them.
pub open spec fn is_group_text(s: Seq<char>) -> bool {
    &&& s.len() > 0 ==> s[0] != ':' && s.last() != ':'
    &&& forall|i: int| 0 <= i < s.len() ==> #[trigger] s[i] == ':' || is_lower_hex(s[i])
    &&& forall|i: int| 0 <= i < s.len() - 1 && #[trigger] s[i] == ':' ==> s[i + 1] != ':'
}

/// Groups are read back from their text.
proof fn lemma_group_text(g: Seq<u16>, quad: bool)
    ensures
        net::groups(net::pieces(net::group_text(g)), quad) == Some(g),
        is_group_text(net::group_text(g)),
        net::group_text(g).len() == 0 <==> g.len() == 0,
    decreases g.len(),
{
    let s = net::group_text(g);
    if g.len() == 0 {
        assert(net::pieces(s) =~= Seq::<Seq<char>>::empty());
        assert(g =~= Seq::<u16>::empty());
    } else {
        let first = net::hex(g[0] as nat);
        lemma_hex(g[0] as nat);
        lemma_hex_group(g[0]);
        lemma_no_quad(first);
        let rest = g.drop_first();
        let tail = net::group_text(rest);
        lemma_group_text(rest, quad);
        if g.len() == 1 {
            lemma_split_last(first, ':');
            let p = net::pieces(s);
            assert(p =~= seq![first]);
            assert(p.drop_first() =~= Seq::<Seq<char>>::empty());
            assert(seq![g[0]] + Seq::<u16>::empty() =~= g);
            assert(net::groups(p.drop_first(), quad) == Some(Seq::<u16>::empty()));
            assert forall|i: int| 0 <= i < s.len() implies #[trigger] s[i] == ':' || is_lower_hex(
                s[i],
            ) by {
                assert(is_lower_hex(first[i]));
            }
            assert(is_lower_hex(first[0]) && is_lower_hex(first[first.len() - 1]));
        } else {
            lemma_group_text_first(g);
            lemma_split_first(first, ':', tail);
            let p = net::pieces(s);
            assert(p =~= seq![first] + net::pieces(tail));
            assert(p.drop_first() =~= net::pieces(tail));
            assert(net::pieces(tail).len() > 0) by {
                text::lemma_join_split(tail, ':');
            }
            assert(seq![g[0]] + rest =~= g);
            assert(p[0] == first);
            assert forall|i: int| 0 <= i < s.len() implies #[trigger] s[i] == ':' || is_lower_hex(
                s[i],
            ) by {
                if i < first.len() {
                    assert(s[i] == first[i]);
                    assert(is_lower_hex(first[i]));
                } else if i > first.len() {
                    assert(s[i] == tail[i - first.len() - 1]);
                }
            }
            assert forall|i: int|
                0 <= i < s.len() - 1 && #[trigger] s[i] == ':' implies s[i + 1] != ':' by {
                if i < first.len() {
                    assert(s[i] == first[i]);
                    assert(is_lower_hex(first[i]));
                } else if i == first.len() {
                    assert(s[i + 1] == tail[0]);
                } else {
                    let j = i - first.len() - 1;
                    assert(s[i] == tail[j]);
                    assert(s[i + 1] == tail[j + 1]);
                }
            }
            assert(s[0] == first[0] && is_lower_hex(first[0]));
            assert(s.last() == tail.last());
        }
    }
}

/// In front of the first double colon there is none.
proof fn lemma_gap(head: Seq<char>, tail: Seq<char>)
    requires
        is_group_text(head),
    ensures
        net::gap(head + "::"@ + tail) == head.len(),
        net::gap(head) == head.len(),
    decreases head.len(),
{
    reveal_strlit("::");
    let s = head + "::"@ + tail;
    if head.len() == 0 {
        assert(s[0] == ':' && s[1] == ':');
    } else {
        let rest = head.drop_first();
        assert(s[0] == head[0]);
        assert(s.drop_first() =~= rest + "::"@ + tail);
        lemma_gap_behind(rest, tail, head[0] != ':');
    }
}

/// The same behind a character that is a colon or not.
proof fn lemma_gap_behind(rest: Seq<char>, tail: Seq<char>, free: bool)
    requires
        rest.len() > 0 ==> rest.last() != ':' && (free || rest[0] != ':'),
        forall|i: int| 0 <= i < rest.len() - 1 && #[trigger] rest[i] == ':' ==> rest[i + 1] != ':',
    ensures
        net::gap(rest + "::"@ + tail) == rest.len(),
        net::gap(rest) == rest.len(),
    decreases rest.len(),
{
    reveal_strlit("::");
    let s = rest + "::"@ + tail;
    if rest.len() == 0 {
        assert(s[0] == ':' && s[1] == ':');
    } else {
        let next = rest.drop_first();
        assert(s.drop_first() =~= next + "::"@ + tail);
        assert forall|i: int| 0 <= i < next.len() - 1 && #[trigger] next[i] == ':' implies next[i
            + 1] != ':' by {
            assert(rest[i + 1] == ':');
        }
        if next.len() > 0 {
            assert(next.last() == rest.last());
            assert(s[0] == rest[0] && s[1] == rest[1]);
            assert(rest[0] == ':' ==> rest[1] != ':');
        } else {
            assert(s[0] == rest[0] && rest[0] == rest.last());
        }
        lemma_gap_behind(next, tail, true);
    }
}

proof fn lemma_zeros_from(g: Seq<u16>, i: int)
    requires
        0 <= i <= g.len(),
    ensures
        i + net::zeros_from(g, i) <= g.len(),
        forall|j: int| i <= j < i + net::zeros_from(g, i) ==> #[trigger] g[j] == 0,
    decreases g.len() - i,
{
    if i < g.len() && g[i] == 0 {
        lemma_zeros_from(g, i + 1);
    }
}

proof fn lemma_longest_zeros(g: Seq<u16>, n: nat)
    requires
        n <= g.len(),
    ensures
        ({
            let (start, run) = net::longest_zeros(g, n);
            &&& 0 <= start
            &&& start + run <= g.len()
            &&& forall|j: int| start <= j < start + run ==> #[trigger] g[j] == 0
        }),
    decreases n,
{
    if n > 0 {
        lemma_longest_zeros(g, (n - 1) as nat);
        lemma_zeros_from(g, n - 1);
    }
}

spec fn pow16(len: nat) -> nat
    decreases len,
{
    if len == 0 {
        1
    } else {
        0x1_0000 * pow16((len - 1) as nat)
    }
}

/// A number is read back from its groups.
proof fn lemma_groups_value(n: nat, len: nat)
    requires
        n < pow16(len),
    ensures
        net::groups_of_value(n, len).len() == len,
        net::groups_value(net::groups_of_value(n, len)) == n,
    decreases len,
{
    if len > 0 {
        let rest = (len - 1) as nat;
        assert(n / 0x1_0000 < pow16(rest)) by (nonlinear_arith)
            requires
                n < 0x1_0000 * pow16(rest),
        ;
        lemma_groups_value(n / 0x1_0000, rest);
        let g = net::groups_of_value(n, len);
        assert(g.drop_last() =~= net::groups_of_value(n / 0x1_0000, rest));
    }
}

/// Groups with a run of zeros that is left out are read back from their text.
proof fn lemma_shortened_text(g: Seq<u16>, start: int, run: nat)
    requires
        g.len() == 8,
        0 <= start,
        1 < run,
        start + run <= 8,
        forall|j: int| start <= j < start + run ==> #[trigger] g[j] == 0,
    ensures
        ({
            let s = net::group_text(g.take(start)) + "::"@ + net::group_text(g.skip(start + run));
            &&& net::ipv6_groups(s) == Some(g)
            &&& forall|i: int|
                0 <= i < s.len() ==> #[trigger] s[i] == ':' || is_lower_hex(s[i])
            &&& s.len() > 0
        }),
{
    let head = g.take(start);
    let tail = g.skip(start + run);
    let front = net::group_text(head);
    let back = net::group_text(tail);
    let s = front + "::"@ + back;
    reveal_strlit("::");
    lemma_group_text(head, false);
    lemma_group_text(tail, true);
    lemma_gap(front, back);
    assert(s.take(front.len() as int) =~= front);
    assert(s.skip(front.len() as int + 2) =~= back);
    let zeros = Seq::new((8 - head.len() - tail.len()) as nat, |i: int| 0u16);
    assert(head + zeros + tail =~= g);
    assert forall|i: int| 0 <= i < s.len() implies #[trigger] s[i] == ':' || is_lower_hex(s[i]) by {
        if i < front.len() {
            assert(s[i] == front[i]);
        } else if i >= front.len() + 2 {
            assert(s[i] == back[i - front.len() - 2]);
        }
    }
}

proof fn lemma_whole_text(g: Seq<u16>)
    requires
        g.len() == 8,
    ensures
        ({
            let s = net::group_text(g);
            &&& net::ipv6_groups(s) == Some(g)
            &&& forall|i: int|
                0 <= i < s.len() ==> #[trigger] s[i] == ':' || is_lower_hex(s[i])
            &&& s.len() > 0
        }),
{
    lemma_group_text(g, true);
    lemma_gap(net::group_text(g), Seq::empty());
}

proof fn lemma_eight_groups(a: u128)
    ensures
        net::groups_of_value(a as nat, 8).len() == 8,
        net::groups_value(net::groups_of_value(a as nat, 8)) == a,
{
    assert(a < pow16(8)) by {
        reveal_with_fuel(pow16, 9);
    }
    lemma_groups_value(a as nat, 8);
}

/// An IPv6 address that shows no dotted quad is read back from its text.
proof fn lemma_plain_ipv6_text(a: u128)
    requires
        a / 0x1_0000_0000 != 0xffff,
    ensures
        net::ipv6(net::ipv6_text(a)) == Some(a),
        lacks(net::ipv6_text(a), '.'),
        lacks(net::ipv6_text(a), '%'),
        lacks(net::ipv6_text(a), ']'),
        is_address_text(net::ipv6_text(a)),
        net::ipv6_text(a).len() > 0,
{
    let g = net::groups_of_value(a as nat, 8);
    lemma_eight_groups(a);
    lemma_longest_zeros(g, 8);
    let (start, run) = net::longest_zeros(g, 8);
    if run > 1 {
        lemma_shortened_text(g, start, run);
    } else {
        lemma_whole_text(g);
    }
}

/// An IPv6 address that shows a dotted quad is read back from its text.
proof fn lemma_mapped_ipv6_text(a: u128)
    requires
        a / 0x1_0000_0000 == 0xffff,
    ensures
        net::ipv6(net::ipv6_text(a)) == Some(a),
        net::ipv4(net::ipv6_text(a)) is None,
        lacks(net::ipv6_text(a), '%'),
        lacks(net::ipv6_text(a), ']'),
        is_address_text(net::ipv6_text(a)),
        net::ipv6_text(a).len() > 0,
{
    let low = (a % 0x1_0000_0000) as u32;
    let quad = net::ipv4_text(low);
    lemma_ipv4_text(low);
    reveal_strlit("::ffff:");
    let s = net::ipv6_text(a);
    let ffff = seq!['f', 'f', 'f', 'f'];
    let tail = ffff.push(':') + quad;
    assert(s[0] == ':' && s[1] == ':');
    assert(net::gap(s) == 0);
    assert(s.skip(2) =~= tail);
    assert(s.take(0) =~= Seq::<char>::empty());
    assert(net::pieces(s.take(0)) =~= Seq::<Seq<char>>::empty());
    lemma_split_first(ffff, ':', quad);
    lemma_split_last(quad, ':');
    let p = net::pieces(tail);
    assert(p =~= seq![ffff, quad]);
    assert(p.drop_first() =~= seq![quad]);
    assert(net::hex_group(ffff) == Some(0xffffu16)) by {
        reveal_with_fuel(net::hex_value, 5);
        assert(ffff.drop_last() =~= seq!['f', 'f', 'f']);
        assert(ffff.drop_last().drop_last() =~= seq!['f', 'f']);
        assert(ffff.drop_last().drop_last().drop_last() =~= seq!['f']);
        assert(ffff.drop_last().drop_last().drop_last().drop_last() =~= Seq::<char>::empty());
    }
    let high16 = (low / 0x1_0000) as u16;
    let low16 = (low % 0x1_0000) as u16;
    assert(net::groups(seq![quad], true) == Some(seq![high16, low16]));
    lemma_no_quad(ffff);
    let t = seq![0xffffu16, high16, low16];
    assert(seq![0xffffu16] + seq![high16, low16] =~= t);
    assert(net::groups(p, true) == Some(t));
    let zeros = Seq::new(5, |i: int| 0u16);
    let g = Seq::<u16>::empty() + zeros + t;
    assert(net::ipv6_groups(s) == Some(g));
    assert(g =~= seq![0u16, 0, 0, 0, 0, 0xffff, high16, low16]);
    assert(net::groups_value(g) == a) by {
        reveal_with_fuel(net::groups_value, 9);
        let g7 = g.drop_last();
        let g6 = g7.drop_last();
        let g5 = g6.drop_last();
        assert(g7 =~= seq![0u16, 0, 0, 0, 0, 0xffff, high16]);
        assert(g6 =~= seq![0u16, 0, 0, 0, 0, 0xffff]);
        assert(g5 =~= seq![0u16, 0, 0, 0, 0]);
        lemma_zero_groups(g5);
    }
    // The first piece between dots holds a colon, so it is no octet.
    text::lemma_leading(s, Class::IsNot('.'));
    let first = text::split(s, '.')[0];
    assert(first.len() > 3) by {
        assert forall|i: int| 0 <= i < 7 implies #[trigger] s[i] != '.' by {}
        if text::leading(s, Class::IsNot('.')) < 7 {
            assert(s[text::leading(s, Class::IsNot('.')) as int] != '.');
        }
    }
    assert forall|i: int| 0 <= i < s.len() implies #[trigger] s[i] == ':' || s[i] == '.'
        || is_lower_hex(s[i]) by {
        if i >= 7 {
            assert(s[i] == quad[i - 7]);
        }
    }
    assert forall|i: int| 0 <= i < s.len() implies #[trigger] s[i] != '%' && s[i] != ']' by {}
}

proof fn lemma_zero_groups(g: Seq<u16>)
    requires
        forall|i: int| 0 <= i < g.len() ==> #[trigger] g[i] == 0,
    ensures
        net::groups_value(g) == 0,
    decreases g.len(),
{
    if g.len() > 0 {
        lemma_zero_groups(g.drop_last());
    }
}

/// Every address is read back from its text.
pub proof fn law_address_is_read_back(a: IpAddr)
    ensures
        net::ip(net::ip_text(a)) == Some(a),
{
    match a {
        IpAddr::V4(n) => lemma_ipv4_text(n),
        IpAddr::V6(n) => {
            lemma_ipv6_text(n);
        },
    }
}

pub proof fn lemma_ipv6_text(n: u128)
    ensures
        net::ipv6(net::ipv6_text(n)) == Some(n),
        net::ipv4(net::ipv6_text(n)) is None,
        lacks(net::ipv6_text(n), '%'),
        lacks(net::ipv6_text(n), ']'),
        is_address_text(net::ipv6_text(n)),
        net::ipv6_text(n).len() > 0,
{
    if n / 0x1_0000_0000 == 0xffff {
        lemma_mapped_ipv6_text(n);
    } else {
        lemma_plain_ipv6_text(n);
        lemma_no_quad(net::ipv6_text(n));
    }
}

/// What stands behind the last colon.
pub proof fn lemma_port(host: Seq<char>, port: u16)
    ensures
        ({
            let s = host.push(':') + text::decimal(port as nat);
            let n = text::trailing(s, Class::IsNot(':'));
            &&& n < s.len()
            &&& s.take(s.len() - n - 1) == host
            &&& s.skip(s.len() - n) == text::decimal(port as nat)
            &&& text::digits(s.skip(s.len() - n), 65535) == Some(port as nat)
        }),
{
    let d = text::decimal(port as nat);
    let s = host.push(':') + d;
    lemma_digits(port as nat, 65535);
    assert forall|i: int| s.len() - d.len() <= i < s.len() implies Class::IsNot(':').has(
        #[trigger] s[i],
    ) by {
        assert(s[i] == d[i - host.len() - 1]);
    }
    assert(s[s.len() - d.len() - 1] == ':');
    text::lemma_trailing_is(s, Class::IsNot(':'), d.len());
    assert(s.take(s.len() - d.len() - 1) =~= host);
    assert(s.skip(s.len() - d.len()) =~= d);
}

/// Every socket address is read back from its text; only IPv6 addresses have a
/// scope, and flow information is not written.
pub proof fn law_socket_address_is_read_back(a: SocketAddr)
    requires
        a.ip is V4 ==> a.scope_id == 0,
        a.flow_info == 0,
    ensures
        net::socket(net::socket_text(a)) == Some(a),
{
    let s = net::socket_text(a);
    match a.ip {
        IpAddr::V4(n) => {
            let host = net::ipv4_text(n);
            lemma_ipv4_text(n);
            lemma_port(host, a.port);
            lemma_ipv4_first(n);
        },
        IpAddr::V6(n) => {
            let t = net::ipv6_text(n);
            lemma_ipv6_text(n);
            reveal_strlit("[");
            reveal_strlit("%");
            reveal_strlit("]:");
            let scope = if a.scope_id == 0 {
                Seq::empty()
            } else {
                "%"@ + text::decimal(a.scope_id as nat)
            };
            let inner = t + scope;
            let host = seq!['['] + inner + seq![']'];
            assert(s =~= host.push(':') + text::decimal(a.port as nat));
            lemma_port(host, a.port);
            assert(host.subrange(1, host.len() - 1) =~= inner);
            assert(host.last() == ']');
            assert forall|i: int| 0 <= i < t.len() implies Class::IsNot('%').has(
                #[trigger] inner[i],
            ) by {
                assert(inner[i] == t[i]);
            }
            assert(a.scope_id != 0 ==> inner[t.len() as int] == '%');
            text::lemma_leading_is(inner, Class::IsNot('%'), t.len());
            assert(inner.take(t.len() as int) =~= t);
            if a.scope_id != 0 {
                assert(inner.skip(t.len() as int + 1) =~= text::decimal(a.scope_id as nat));
                lemma_digits(a.scope_id as nat, 0xffff_ffff);
            }
        },
    }
}

/// A dotted quad begins with a digit.
pub proof fn lemma_ipv4_first(a: u32)
    ensures
        text::is_digit(net::ipv4_text(a)[0]),
{
    let d = text::decimal((a / 0x100_0000) as nat);
    lemma_decimal((a / 0x100_0000) as nat);
    assert(net::ipv4_text(a)[0] == d[0]);
    assert(text::is_digit(d[0]));
}

/// A number is read from its decimal notation when it is not too large, with a plus sign or
/// without where one is allowed, and what is read is digits only. But for leading zeros, a
/// number has one notation.
pub proof fn law_numbers_are_read_back(n: nat, max: nat, s: Seq<char>)
    ensures
        text::digits(text::decimal(n), max) == if n <= max {
            Some(n)
        } else {
            None
        },
        text::number(text::decimal(n), max) == text::digits(text::decimal(n), max),
        text::number(seq!['+'] + s, max) == text::digits(s, max),
        text::digits(s, max) is Some ==> s.len() > 0 && forall|i: int|
            0 <= i < s.len() ==> '0' <= #[trigger] s[i] <= '9',
        text::digits(s, max) matches Some(m) ==> m <= max && (s.len() == 1 || s[0] != '0'
            ==> s == text::decimal(m)),
{
    lemma_decimal(n);
    assert((seq!['+'] + s).drop_first() =~= s);
    assert(text::is_digit(text::decimal(n)[0]));
    if text::digits(s, max) is Some {
        assert forall|i: int| 0 <= i < s.len() implies '0' <= #[trigger] s[i] <= '9' by {
            assert(text::is_digit(s[i]));
        }
        if s.len() == 1 || s[0] != '0' {
            lemma_decimal_of(s);
        }
    }
}

/// Digits without a leading zero are the decimal notation of what they denote.
proof fn lemma_decimal_of(s: Seq<char>)
    requires
        s.len() > 0,
        text::all_digits(s),
        s.len() == 1 || s[0] != '0',
    ensures
        text::decimal(text::decimal_value(s)) == s,
        s[0] != '0' ==> text::decimal_value(s) > 0,
    decreases s.len(),
{
    let last = s.last();
    assert(last == s[s.len() - 1]);
    assert(text::is_digit(last));
    let d = text::digit(last) as nat;
    assert(text::digit_char(d) == last);
    if s.len() == 1 {
        assert(s.drop_last() =~= Seq::<char>::empty());
        assert(text::decimal_value(s.drop_last()) == 0);
        assert(text::decimal(d) =~= s);
    } else {
        let front = s.drop_last();
        assert(front[0] == s[0]);
        assert forall|i: int| 0 <= i < front.len() implies text::is_digit(#[trigger] front[i]) by {
            assert(front[i] == s[i]);
        }
        lemma_decimal_of(front);
        let v = text::decimal_value(front);
        assert(text::decimal_value(s) == v * 10 + d);
        div_mod::lemma_fundamental_div_mod_converse((v * 10 + d) as int, 10, v as int, d as int);
        assert(text::decimal(v * 10 + d) =~= front.push(last));
    }
}

/// An IPv4 address is four numbers up to 255 with dots between them, the first of them its
/// highest byte, and there is no other way to write it.
pub proof fn law_ipv4_has_one_notation(s: Seq<char>, a: u32)
    ensures
        net::ipv4(s) == Some(a) <==> s == text::decimal((a / 0x100_0000) as nat) + seq!['.']
            + text::decimal((a / 0x1_0000 % 0x100) as nat) + seq!['.'] + text::decimal(
            (a / 0x100 % 0x100) as nat,
        ) + seq!['.'] + text::decimal((a % 0x100) as nat),
{
    let written = text::decimal((a / 0x100_0000) as nat) + seq!['.'] + text::decimal(
        (a / 0x1_0000 % 0x100) as nat,
    ) + seq!['.'] + text::decimal((a / 0x100 % 0x100) as nat) + seq!['.'] + text::decimal(
        (a % 0x100) as nat,
    );
    assert(written =~= net::ipv4_text(a));
    lemma_ipv4_text(a);
    if net::ipv4(s) == Some(a) {
        lemma_quad_is_written(s, a);
    }
}

proof fn lemma_quad_is_written(s: Seq<char>, a: u32)
    requires
        net::ipv4(s) == Some(a),
    ensures
        s == net::ipv4_text(a),
{
    let p = text::split(s, '.');
    text::lemma_join_split(s, '.');
    lemma_octet_text(p[0]);
    lemma_octet_text(p[1]);
    lemma_octet_text(p[2]);
    lemma_octet_text(p[3]);
    lemma_quad_value(
        net::octet(p[0]).unwrap(),
        net::octet(p[1]).unwrap(),
        net::octet(p[2]).unwrap(),
        net::octet(p[3]).unwrap(),
        a,
    );
    lemma_join_four(p);
}

proof fn lemma_quad_value(o0: nat, o1: nat, o2: nat, o3: nat, a: u32)
    requires
        o0 < 256,
        o1 < 256,
        o2 < 256,
        o3 < 256,
        a == (o0 * 0x100_0000 + o1 * 0x1_0000 + o2 * 0x100 + o3) as u32,
    ensures
        (a / 0x100_0000) as nat == o0,
        (a / 0x1_0000 % 0x100) as nat == o1,
        (a / 0x100 % 0x100) as nat == o2,
        (a % 0x100) as nat == o3,
{
    let x1 = (o0 * 0x100 + o1) as int;
    let x2 = x1 * 0x100 + o2;
    div_mod::lemma_fundamental_div_mod_converse(a as int, 0x100, x2, o3 as int);
    div_mod::lemma_fundamental_div_mod_converse(x2, 0x100, x1, o2 as int);
    div_mod::lemma_fundamental_div_mod_converse(x1, 0x100, o0 as int, o1 as int);
    div_mod::lemma_fundamental_div_mod_converse(a as int, 0x1_0000, x1, (o2 * 0x100 + o3) as int);
    div_mod::lemma_fundamental_div_mod_converse(
        a as int,
        0x100_0000,
        o0 as int,
        (o1 * 0x1_0000 + o2 * 0x100 + o3) as int,
    );
}

proof fn lemma_join_four(p: Seq<Seq<char>>)
    requires
        p.len() == 4,
    ensures
        text::join(p, '.') == p[0].push('.') + p[1].push('.') + p[2].push('.') + p[3],
{
    let p3 = p.drop_last();
    let p2 = p3.drop_last();
    let p1 = p2.drop_last();
    assert(text::join(p1, '.') == p[0]);
    assert(text::join(p2, '.') == p[0].push('.') + p[1]);
    assert(text::join(p3, '.') == text::join(p2, '.').push('.') + p[2]);
    assert(text::join(p, '.') == text::join(p3, '.').push('.') + p[3]);
    assert(text::join(p, '.') =~= p[0].push('.') + p[1].push('.') + p[2].push('.') + p[3]);
}

proof fn lemma_octet_text(s: Seq<char>)
    ensures
        net::octet(s) matches Some(n) ==> n < 256 && s == text::decimal(n),
{
    if net::octet(s) is Some {
        lemma_decimal_of(s);
    }
}

/// An IPv6 address is eight groups of up to four hexadecimal digits, and a double colon stands
/// for one group of zeros or more.
pub proof fn law_double_colon_stands_for_zeros(head: Seq<u16>, tail: Seq<u16>, whole: Seq<u16>)
    requires
        whole.len() == 8,
    ensures
        net::ipv6(net::group_text(head) + "::"@ + net::group_text(tail)) == if head.len()
            + tail.len() <= 7 {
            Some(
                net::groups_value(
                    head + Seq::new((8 - head.len() - tail.len()) as nat, |i: int| 0u16) + tail,
                ) as u128,
            )
        } else {
            None
        },
        net::ipv6(net::group_text(whole)) == Some(net::groups_value(whole) as u128),
        head.len() != 8 ==> net::ipv6(net::group_text(head)) is None,
{
    let front = net::group_text(head);
    let back = net::group_text(tail);
    let s = front + "::"@ + back;
    reveal_strlit("::");
    lemma_group_text(head, false);
    lemma_group_text(head, true);
    lemma_group_text(tail, true);
    lemma_gap(front, back);
    assert(s.take(front.len() as int) =~= front);
    assert(s.skip(front.len() as int + 2) =~= back);
    lemma_whole_text(whole);
}

/// The case of hexadecimal digits does not matter.
pub proof fn law_hexadecimal_ignores_case(s: Seq<char>)
    ensures
        net::hex_group(s) == net::hex_group(text::lower(s)),
{
    lemma_lower_hex(s);
    let l = text::lower(s);
    assert forall|i: int| 0 <= i < s.len() implies net::is_hex(s[i]) == net::is_hex(
        #[trigger] l[i],
    ) by {}
    if forall|i: int| 0 <= i < s.len() ==> net::is_hex(#[trigger] s[i]) {
        assert forall|i: int| 0 <= i < l.len() implies net::is_hex(#[trigger] l[i]) by {
            assert(net::is_hex(s[i]));
        }
    }
    if forall|i: int| 0 <= i < l.len() ==> net::is_hex(#[trigger] l[i]) {
        assert forall|i: int| 0 <= i < s.len() implies net::is_hex(#[trigger] s[i]) by {
            assert(net::is_hex(l[i]));
        }
    }
}

proof fn lemma_lower_hex(s: Seq<char>)
    ensures
        (forall|i: int| 0 <= i < s.len() ==> net::is_hex(#[trigger] s[i])) ==> net::hex_value(
            text::lower(s),
        ) == net::hex_value(s),
    decreases s.len(),
{
    if s.len() > 0 && forall|i: int| 0 <= i < s.len() ==> net::is_hex(#[trigger] s[i]) {
        let front = s.drop_last();
        assert forall|i: int| 0 <= i < front.len() implies net::is_hex(#[trigger] front[i]) by {
            assert(front[i] == s[i]);
        }
        lemma_lower_hex(front);
        assert(text::lower(s).drop_last() =~= text::lower(front));
        assert(net::is_hex(s[s.len() - 1]));
    }
}

/// The loopback addresses are 127.0.0.0/8 and ::1, and the unspecified ones are all zeros.
pub proof fn law_special_addresses(n: u32, m: u128)
    ensures
        IpAddr::V4(n).spec_is_loopback() <==> 0x7f00_0000 <= n <= 0x7fff_ffff,
        IpAddr::V6(m).spec_is_loopback() <==> m == 1,
        IpAddr::V4(n).spec_is_unspecified() <==> n == 0,
        IpAddr::V6(m).spec_is_unspecified() <==> m == 0,
        IpAddr::V4(n).spec_is_ipv4(),
        !IpAddr::V6(m).spec_is_ipv4(),
{
}

} // verus!
