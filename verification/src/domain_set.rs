//! Sorted domain sets for large compiled policy assets.

use crate::text;
use crate::text::Class;
use vstd::prelude::*;
use vstd::string::*;

verus! {

pub const MAX_DOMAIN_LENGTH: usize = 253;

/// Immutable, sorted domain set used by large compiled policy assets.
///
/// `suffixes` use DNS label boundaries: `example.com` matches both
/// `example.com` and `a.example.com`, never `badexample.com`.
#[derive(Debug, PartialEq, Eq)]
pub struct DomainSet {
    exact: Vec<String>,
    suffixes: Vec<String>,
}

/// The domains that a set holds.
#[verifier::ext_equal]
pub struct DomainSetView {
    pub exact: Set<Seq<char>>,
    pub suffixes: Set<Seq<char>>,
}

/// A block domain set with an exception set. Exceptions are filter semantics,
/// not routing actions, so an allow exception does not accidentally force DIRECT.
#[derive(Debug, PartialEq, Eq)]
pub struct DomainFilter {
    blocked: DomainSet,
    allowed: DomainSet,
}

#[verifier::ext_equal]
pub struct DomainFilterView {
    pub blocked: DomainSetView,
    pub allowed: DomainSetView,
}

#[derive(Debug, PartialEq, Eq)]
pub struct DomainSetError {
    message: String,
}

impl View for DomainSetError {
    type V = Seq<char>;

    closed spec fn view(&self) -> Seq<char> {
        self.message@
    }
}

impl Clone for DomainSetError {
    fn clone(&self) -> (r: DomainSetError)
        ensures
            r@ == self@,
    {
        DomainSetError { message: self.message.clone() }
    }
}

impl DomainSetError {
    /// The message.
    pub fn text(&self) -> (r: &str)
        ensures
            r@ == self@,
    {
        self.message.as_str()
    }
}

/// Order of two texts by their first difference; a proper prefix comes first.
pub open spec fn less(a: Seq<char>, b: Seq<char>) -> bool
    decreases b.len(),
{
    if b.len() == 0 {
        false
    } else if a.len() == 0 {
        true
    } else if a[0] != b[0] {
        a[0] < b[0]
    } else {
        less(a.drop_first(), b.drop_first())
    }
}

/// The texts that a list of strings holds.
pub open spec fn words(v: Seq<String>) -> Seq<Seq<char>> {
    Seq::new(v.len(), |i: int| v[i]@)
}

/// Strictly ordered, upwards or downwards.
pub open spec fn ordered(s: Seq<Seq<char>>, up: bool) -> bool {
    forall|i: int, j: int|
        #![trigger s[i], s[j]]
        0 <= i < j < s.len() ==> if up {
            less(s[i], s[j])
        } else {
            less(s[j], s[i])
        }
}

/// A domain without dots around it, in lower case.
pub open spec fn normalized(s: Seq<char>) -> Seq<char> {
    text::lower(text::trim(s, Class::Is('.')))
}

/// ASCII, not empty, at most 253 characters, in labels of one to 63.
pub open spec fn valid(n: Seq<char>) -> bool {
    &&& 0 < n.len() <= 253
    &&& vstd::utf8::is_ascii_chars(n)
    &&& forall|i: int|
        0 <= i < text::split(n, '.').len() ==> 1 <= (#[trigger] text::split(n, '.')[i]).len() <= 63
}

pub open spec fn all_normalized(s: Seq<Seq<char>>) -> Seq<Seq<char>> {
    Seq::new(s.len(), |i: int| normalized(s[i]))
}

pub open spec fn all_valid(s: Seq<Seq<char>>) -> bool {
    forall|i: int| 0 <= i < s.len() ==> valid(normalized(#[trigger] s[i]))
}

pub open spec fn first_invalid(s: Seq<Seq<char>>, i: int) -> bool {
    &&& 0 <= i < s.len()
    &&& !valid(normalized(s[i]))
    &&& all_valid(s.take(i))
}

pub open spec fn invalid_message(s: Seq<char>) -> Seq<char> {
    "invalid domain `"@ + normalized(s) + "`"@
}

impl DomainSetView {
    /// The domain is one of the exact names, or one of the suffixes, or ends with
    /// a dot and one of the suffixes. Trailing dots do not count.
    pub open spec fn has(self, domain: Seq<char>) -> bool {
        let d = text::trim_end(domain, Class::Is('.'));
        &&& 0 < d.len() <= 253
        &&& vstd::utf8::is_ascii_chars(d)
        &&& {
            ||| self.exact.contains(d)
            ||| self.suffixes.contains(d)
            ||| exists|k: int|
                0 <= k < d.len() && #[trigger] d[k] == '.' && self.suffixes.contains(d.skip(k + 1))
        }
    }
}

impl DomainSetView {
    /// How many entries there are; a domain in both lists counts twice.
    pub open spec fn count(self) -> nat {
        self.exact.len() + self.suffixes.len()
    }
}

impl DomainFilterView {
    pub open spec fn blocks(self, domain: Seq<char>) -> bool {
        self.blocked.has(domain) && !self.allowed.has(domain)
    }
}

proof fn lemma_less_irreflexive(a: Seq<char>)
    ensures
        !less(a, a),
    decreases a.len(),
{
    if a.len() > 0 {
        lemma_less_irreflexive(a.drop_first());
    }
}

proof fn lemma_less_transitive(a: Seq<char>, b: Seq<char>, c: Seq<char>)
    requires
        less(a, b),
        less(b, c),
    ensures
        less(a, c),
    decreases c.len(),
{
    if a.len() > 0 && b.len() > 0 && c.len() > 0 && a[0] == b[0] && b[0] == c[0] {
        lemma_less_transitive(a.drop_first(), b.drop_first(), c.drop_first());
    }
}

enum Order {
    Less,
    Equal,
    Greater,
}

spec fn order_of(o: Order, a: Seq<char>, b: Seq<char>) -> bool {
    match o {
        Order::Less => less(a, b),
        Order::Equal => a == b,
        Order::Greater => less(b, a),
    }
}

proof fn lemma_order_step(a: Seq<char>, b: Seq<char>, i: int)
    requires
        0 <= i <= a.len(),
        i <= b.len(),
        a.take(i) == b.take(i),
    ensures
        less(a, b) == less(a.skip(i), b.skip(i)),
        less(b, a) == less(b.skip(i), a.skip(i)),
    decreases i,
{
    if i == 0 {
        assert(a.skip(0) == a);
        assert(b.skip(0) == b);
    } else {
        assert(a[0] == a.take(i)[0]);
        assert(b[0] == b.take(i)[0]);
        let x = a.drop_first();
        let y = b.drop_first();
        assert(x.take(i - 1) == a.take(i).drop_first());
        assert(y.take(i - 1) == b.take(i).drop_first());
        lemma_order_step(x, y, i - 1);
        assert(x.skip(i - 1) == a.skip(i));
        assert(y.skip(i - 1) == b.skip(i));
    }
}

fn order(a: &[char], b: &str) -> (r: Order)
    ensures
        order_of(r, a@, b@),
{
    let mut i: usize = 0;
    for c in it: b.chars()
        invariant
            it.seq() == b@,
            i == it.index(),
            i <= a@.len(),
            a@.take(i as int) == b@.take(i as int),
    {
        proof {
            lemma_order_step(a@, b@, i as int);
        }
        if i >= a.len() {
            assert(a@.skip(i as int).len() == 0);
            assert(b@.skip(i as int).len() > 0);
            return Order::Less;
        }
        assert(a@.skip(i as int)[0] == a@[i as int]);
        assert(b@.skip(i as int)[0] == b@[i as int]);
        if a[i] < c {
            return Order::Less;
        }
        if c < a[i] {
            return Order::Greater;
        }
        assert(a@.take(i + 1) == a@.take(i as int).push(a@[i as int]));
        assert(b@.take(i + 1) == b@.take(i as int).push(b@[i as int]));
        i = i + 1;
    }
    proof {
        lemma_order_step(a@, b@, i as int);
    }
    if i < a.len() {
        assert(b@.skip(i as int).len() == 0);
        assert(a@.skip(i as int).len() > 0);
        Order::Greater
    } else {
        assert(a@.take(i as int) == a@);
        assert(b@.take(i as int) == b@);
        Order::Equal
    }
}

/// Binary search in a strictly ascending list.
fn holds(list: &Vec<String>, word: &[char]) -> (r: bool)
    requires
        ordered(words(list@), true),
    ensures
        r == words(list@).contains(word@),
{
    let ghost w = words(list@);
    let mut low: usize = 0;
    let mut high: usize = list.len();
    while low < high
        invariant
            low <= high <= list@.len(),
            w == words(list@),
            ordered(w, true),
            forall|i: int| 0 <= i < low ==> less(#[trigger] w[i], word@),
            forall|i: int| high <= i < w.len() ==> less(word@, #[trigger] w[i]),
        decreases high - low,
    {
        let mid: usize = low + (high - low) / 2;
        assert(w[mid as int] == list@[mid as int]@);
        match order(word, list[mid].as_str()) {
            Order::Equal => {
                assert(w.contains(word@));
                return true;
            },
            Order::Less => {
                assert forall|i: int| mid <= i < w.len() implies less(word@, #[trigger] w[i]) by {
                    if i > mid {
                        lemma_less_transitive(word@, w[mid as int], w[i]);
                    }
                }
                high = mid;
            },
            Order::Greater => {
                assert forall|i: int| 0 <= i <= mid implies less(#[trigger] w[i], word@) by {
                    if i < mid {
                        lemma_less_transitive(w[i], w[mid as int], word@);
                    }
                }
                low = mid + 1;
            },
        }
    }
    proof {
        lemma_less_irreflexive(word@);
        assert forall|i: int| 0 <= i < w.len() implies w[i] != word@ by {
            if i < low {
                assert(less(w[i], word@));
            } else {
                assert(less(word@, w[i]));
            }
        }
    }
    false
}


spec fn comes_before(a: Seq<char>, b: Seq<char>, up: bool) -> bool {
    if up {
        less(a, b)
    } else {
        less(b, a)
    }
}

/// Every element of `s` comes before every element of `t`.
spec fn all_before(s: Seq<Seq<char>>, t: Seq<Seq<char>>, up: bool) -> bool {
    forall|i: int, j: int|
        #![trigger s[i], t[j]]
        0 <= i < s.len() && 0 <= j < t.len() ==> comes_before(s[i], t[j], up)
}

pub proof fn lemma_words_push(v: Seq<String>, x: String)
    ensures
        words(v.push(x)) == words(v).push(x@),
{
    assert(words(v.push(x)) =~= words(v).push(x@));
}

proof fn lemma_words_drop_last(v: Seq<String>)
    requires
        v.len() > 0,
    ensures
        words(v.drop_last()) == words(v).drop_last(),
        words(v).last() == v.last()@,
{
    assert(words(v.drop_last()) =~= words(v).drop_last());
}

/// `x` is taken from the end of `a` (and of `b` where that ends with it too) and
/// put at the end of `out`.
proof fn lemma_merge_step(
    out: Seq<Seq<char>>,
    a: Seq<Seq<char>>,
    b: Seq<Seq<char>>,
    x: Seq<char>,
    both: bool,
    up: bool,
)
    requires
        a.len() > 0,
        a.last() == x,
        ordered(out, up),
        ordered(a, !up),
        ordered(b, !up),
        all_before(out, a, up),
        all_before(out, b, up),
        both ==> b.len() > 0 && b.last() == x,
        !both ==> b.len() > 0 ==> comes_before(x, b.last(), up),
    ensures
        ordered(out.push(x), up),
        ordered(a.drop_last(), !up),
        ordered(if both {
            b.drop_last()
        } else {
            b
        }, !up),
        all_before(out.push(x), a.drop_last(), up),
        all_before(out.push(x), if both {
            b.drop_last()
        } else {
            b
        }, up),
        forall|w: Seq<char>|
            (out.push(x).contains(w) || a.drop_last().contains(w) || (if both {
                b.drop_last()
            } else {
                b
            }).contains(w)) <==> (out.contains(w) || a.contains(w) || b.contains(w)),
{
    let c = if both {
        b.drop_last()
    } else {
        b
    };
    let a1 = a.drop_last();
    let o1 = out.push(x);
    assert forall|i: int, j: int|
        #![trigger o1[i], o1[j]]
        0 <= i < j < o1.len() implies comes_before(o1[i], o1[j], up) by {
        if j == out.len() {
            assert(comes_before(out[i], a[a.len() - 1], up));
        } else {
            assert(comes_before(out[i], out[j], up));
        }
    }
    assert forall|i: int, j: int|
        #![trigger o1[i], a1[j]]
        0 <= i < o1.len() && 0 <= j < a1.len() implies comes_before(o1[i], a1[j], up) by {
        if i < out.len() {
            assert(comes_before(out[i], a[j], up));
        } else {
            assert(comes_before(a[a.len() - 1], a[j], up));
        }
    }
    assert forall|i: int, j: int|
        #![trigger o1[i], c[j]]
        0 <= i < o1.len() && 0 <= j < c.len() implies comes_before(o1[i], c[j], up) by {
        if i < out.len() {
            assert(comes_before(out[i], b[j], up));
        } else if both {
            assert(comes_before(b[b.len() - 1], b[j], up));
        } else if j == b.len() - 1 {
            assert(comes_before(x, b.last(), up));
        } else {
            assert(comes_before(b[b.len() - 1], b[j], up));
            if up {
                lemma_less_transitive(x, b.last(), b[j]);
            } else {
                lemma_less_transitive(b[j], b.last(), x);
            }
        }
    }
    assert forall|w: Seq<char>|
        (o1.contains(w) || a1.contains(w) || c.contains(w)) <==> (out.contains(w) || a.contains(w)
            || b.contains(w)) by {
        lemma_push_contains(out, x, w);
        lemma_push_contains(a1, x, w);
        assert(a1.push(x) == a);
        if both {
            lemma_push_contains(c, x, w);
            assert(c.push(x) == b);
        }
    }
}

pub proof fn lemma_push_contains(s: Seq<Seq<char>>, x: Seq<char>, w: Seq<char>)
    ensures
        s.push(x).contains(w) <==> (s.contains(w) || w == x),
{
    if s.contains(w) {
        let i = choose|i: int| 0 <= i < s.len() && s[i] == w;
        assert(s.push(x)[i] == w);
    }
    if w == x {
        assert(s.push(x)[s.len() as int] == w);
    }
    if s.push(x).contains(w) {
        let i = choose|i: int| 0 <= i < s.push(x).len() && s.push(x)[i] == w;
        if i < s.len() {
            assert(s[i] == w);
        }
    }
}

/// The union of two lists that are ordered the other way.
fn merge(first: Vec<String>, second: Vec<String>, up: bool) -> (r: Vec<String>)
    requires
        ordered(words(first@), !up),
        ordered(words(second@), !up),
    ensures
        ordered(words(r@), up),
        forall|w: Seq<char>|
            words(r@).contains(w) <==> (words(first@).contains(w) || words(second@).contains(w)),
{
    let mut a = first;
    let mut b = second;
    let mut out: Vec<String> = Vec::new();
    loop
        invariant
            ordered(words(a@), !up),
            ordered(words(b@), !up),
            ordered(words(out@), up),
            all_before(words(out@), words(a@), up),
            all_before(words(out@), words(b@), up),
            forall|w: Seq<char>|
                (words(out@).contains(w) || words(a@).contains(w) || words(b@).contains(w)) <==> (
                words(first@).contains(w) || words(second@).contains(w)),
        ensures
            a@.len() == 0,
            b@.len() == 0,
        decreases a@.len() + b@.len(),
    {
        let which = if a.len() == 0 {
            if b.len() == 0 {
                break;
            }
            Order::Greater
        } else if b.len() == 0 {
            Order::Less
        } else {
            let x = text::chars_of(a[a.len() - 1].as_str());
            let o = order(x.as_slice(), b[b.len() - 1].as_str());
            if up {
                o
            } else {
                match o {
                    Order::Less => Order::Greater,
                    Order::Equal => Order::Equal,
                    Order::Greater => Order::Less,
                }
            }
        };
        let ghost wa = words(a@);
        let ghost wb = words(b@);
        let ghost wo = words(out@);
        proof {
            if a@.len() > 0 {
                lemma_words_drop_last(a@);
            }
            if b@.len() > 0 {
                lemma_words_drop_last(b@);
            }
        }
        match which {
            Order::Less => {
                if let Some(x) = a.pop() {
                    proof {
                        lemma_merge_step(wo, wa, wb, x@, false, up);
                        lemma_words_push(out@, x);
                    }
                    out.push(x);
                }
            },
            Order::Greater => {
                if let Some(x) = b.pop() {
                    proof {
                        lemma_merge_step(wo, wb, wa, x@, false, up);
                        lemma_words_push(out@, x);
                    }
                    out.push(x);
                }
            },
            Order::Equal => {
                let other = b.pop();
                if let Some(x) = a.pop() {
                    proof {
                        lemma_merge_step(wo, wa, wb, x@, true, up);
                        lemma_words_push(out@, x);
                    }
                    out.push(x);
                }
            },
        }
    }
    out
}

/// Sorts strictly, keeping one of equal entries.
fn sort(list: Vec<String>, up: bool) -> (r: Vec<String>)
    ensures
        ordered(words(r@), up),
        forall|w: Seq<char>| words(r@).contains(w) <==> words(list@).contains(w),
    decreases list@.len(),
{
    if list.len() <= 1 {
        return list;
    }
    let mut head = list;
    let half: usize = head.len() / 2;
    let tail = head.split_off(half);
    let ghost h = words(head@);
    let ghost t = words(tail@);
    proof {
        let all = words(list@);
        assert(all =~= h + t);
        assert forall|w: Seq<char>| all.contains(w) <==> (h.contains(w) || t.contains(w)) by {
            if all.contains(w) {
                let i = choose|i: int| 0 <= i < all.len() && all[i] == w;
                if i < h.len() {
                    assert(h[i] == w);
                } else {
                    assert(t[i - h.len()] == w);
                }
            }
            if h.contains(w) {
                let i = choose|i: int| 0 <= i < h.len() && h[i] == w;
                assert(all[i] == w);
            }
            if t.contains(w) {
                let i = choose|i: int| 0 <= i < t.len() && t[i] == w;
                assert(all[i + h.len()] == w);
            }
        }
    }
    let left = sort(head, !up);
    let right = sort(tail, !up);
    merge(left, right, up)
}

/// Trims dots, lowers the case and checks the labels.
fn normalize_domain(value: &str) -> (r: Result<String, DomainSetError>)
    ensures
        match r {
            Ok(n) => valid(normalized(value@)) && n@ == normalized(value@),
            Err(e) => !valid(normalized(value@)) && e@ == invalid_message(value@),
        },
{
    let chars = text::chars_of(value);
    let low = text::lower_of(text::trim_of(chars.as_slice(), Class::Is('.')));
    let name = text::to_text(low.as_slice());
    if is_valid(low.as_slice()) {
        Ok(name)
    } else {
        Err(DomainSetError { message: text::join3("invalid domain `", name.as_str(), "`") })
    }
}

/// Whether all characters are ASCII.
pub fn is_ascii_of(s: &[char]) -> (r: bool)
    ensures
        r == vstd::utf8::is_ascii_chars(s@),
{
    let mut i: usize = 0;
    while i < s.len()
        invariant
            i <= s@.len(),
            forall|j: int| 0 <= j < i ==> '\u{0}' <= #[trigger] s@[j] <= '\u{7f}',
        decreases s@.len() - i,
    {
        let c = s[i];
        assert(c == s@[i as int]);
        if c > '\u{7f}' {
            return false;
        }
        proof {
            text::lemma_char(c);
        }
        i = i + 1;
    }
    true
}

/// Whether a domain without dots around it is well formed.
pub fn is_valid(name: &[char]) -> (r: bool)
    ensures
        r == valid(name@),
{
    if name.len() == 0 || name.len() > MAX_DOMAIN_LENGTH || !is_ascii_of(name) {
        return false;
    }
    let labels = text::split_of(name, '.');
    let ghost t = text::split(name@, '.');
    let mut i: usize = 0;
    while i < labels.len()
        invariant
            i <= labels@.len(),
            text::texts(labels@) == t,
            t == text::split(name@, '.'),
            forall|j: int| 0 <= j < i ==> 1 <= (#[trigger] t[j]).len() <= 63,
        decreases labels@.len() - i,
    {
        assert(t[i as int] == labels@[i as int]@);
        if labels[i].len() == 0 || labels[i].len() > 63 {
            assert(!(1 <= text::split(name@, '.')[i as int].len() <= 63));
            return false;
        }
        i = i + 1;
    }
    true
}

fn normalize_all(list: &Vec<String>) -> (r: Result<Vec<String>, DomainSetError>)
    ensures
        match r {
            Ok(n) => all_valid(words(list@)) && words(n@) == all_normalized(words(list@)),
            Err(e) => exists|i: int|
                first_invalid(words(list@), i) && e@ == invalid_message(
                    #[trigger] words(list@)[i],
                ),
        },
{
    let ghost w = words(list@);
    let mut out: Vec<String> = Vec::new();
    let mut i: usize = 0;
    while i < list.len()
        invariant
            i <= list@.len(),
            w == words(list@),
            words(out@) == all_normalized(w.take(i as int)),
            all_valid(w.take(i as int)),
        decreases list@.len() - i,
    {
        assert(w[i as int] == list@[i as int]@);
        match normalize_domain(list[i].as_str()) {
            Ok(n) => {
                proof {
                    lemma_words_push(out@, n);
                    assert(w.take(i + 1) == w.take(i as int).push(w[i as int]));
                    assert(all_normalized(w.take(i + 1)) =~= all_normalized(w.take(i as int)).push(
                        n@,
                    ));
                    assert forall|j: int| 0 <= j < w.take(i + 1).len() implies valid(
                        normalized(#[trigger] w.take(i + 1)[j]),
                    ) by {
                        if j < i {
                            assert(valid(normalized(w.take(i as int)[j])));
                        }
                    }
                }
                out.push(n);
            },
            Err(e) => {
                assert(first_invalid(w, i as int));
                return Err(e);
            },
        }
        i = i + 1;
    }
    assert(w.take(i as int) == w);
    Ok(out)
}

impl DomainSet {
    /// Both lists are strictly ascending.
    #[verifier::type_invariant]
    spec fn wf(self) -> bool {
        ordered(words(self.exact@), true) && ordered(words(self.suffixes@), true)
    }

    /// Normalises all domains, sorts them and drops duplicates. The first domain
    /// that is not well formed, exact ones first, fails the whole set.
    pub fn compile(exact: Vec<String>, suffixes: Vec<String>) -> (r: Result<
        DomainSet,
        DomainSetError,
    >)
        ensures
            match r {
                Ok(set) => {
                    &&& all_valid(words(exact@) + words(suffixes@))
                    &&& set@.exact == all_normalized(words(exact@)).to_set()
                    &&& set@.suffixes == all_normalized(words(suffixes@)).to_set()
                    &&& set@.count() <= exact@.len() + suffixes@.len()
                },
                Err(e) => exists|i: int|
                    first_invalid(words(exact@) + words(suffixes@), i) && e@ == invalid_message(
                        #[trigger] (words(exact@) + words(suffixes@))[i],
                    ),
            },
    {
        let ghost x = words(exact@);
        let ghost y = words(suffixes@);
        let a = match normalize_all(&exact) {
            Ok(list) => list,
            Err(e) => {
                proof {
                    let i = choose|i: int|
                        first_invalid(x, i) && e@ == invalid_message(#[trigger] x[i]);
                    assert((x + y)[i] == x[i]);
                    assert((x + y).take(i) == x.take(i));
                    assert(first_invalid(x + y, i));
                }
                return Err(e);
            },
        };
        let b = match normalize_all(&suffixes) {
            Ok(list) => list,
            Err(e) => {
                proof {
                    let i = choose|i: int|
                        first_invalid(y, i) && e@ == invalid_message(#[trigger] y[i]);
                    let k = x.len() + i;
                    assert((x + y)[k] == y[i]);
                    assert((x + y).take(k) == x + y.take(i));
                    assert forall|j: int| 0 <= j < k implies valid(
                        normalized(#[trigger] (x + y).take(k)[j]),
                    ) by {
                        if j < x.len() {
                            assert(valid(normalized(x[j])));
                        } else {
                            assert(valid(normalized(y.take(i)[j - x.len()])));
                        }
                    }
                    assert(first_invalid(x + y, k));
                }
                return Err(e);
            },
        };
        assert forall|j: int| 0 <= j < (x + y).len() implies valid(
            normalized(#[trigger] (x + y)[j]),
        ) by {
            if j < x.len() {
                assert(valid(normalized(x[j])));
            } else {
                assert(valid(normalized(y[j - x.len()])));
            }
        }
        let set = DomainSet { exact: sort(a, true), suffixes: sort(b, true) };
        assert(set@.exact =~= all_normalized(x).to_set());
        assert(set@.suffixes =~= all_normalized(y).to_set());
        proof {
            law_entries_are_counted_once(x, y, set@);
        }
        Ok(set)
    }

    pub fn is_empty(&self) -> (r: bool)
        ensures
            r == (self@.count() == 0),
    {
        proof {
            use_type_invariant(self);
            lemma_ordered_len(words(self.exact@));
            lemma_ordered_len(words(self.suffixes@));
        }
        self.exact.len() == 0 && self.suffixes.len() == 0
    }

    /// How many entries there are; requires that the number fits.
    pub fn len(&self) -> (r: usize)
        requires
            self@.count() <= usize::MAX,
        ensures
            r == self@.count(),
    {
        proof {
            use_type_invariant(self);
            lemma_ordered_len(words(self.exact@));
            lemma_ordered_len(words(self.suffixes@));
        }
        self.exact.len() + self.suffixes.len()
    }

    pub fn exact_len(&self) -> (r: usize)
        ensures
            r == self@.exact.len(),
    {
        proof {
            use_type_invariant(self);
            lemma_ordered_len(words(self.exact@));
        }
        self.exact.len()
    }

    pub fn suffix_len(&self) -> (r: usize)
        ensures
            r == self@.suffixes.len(),
    {
        proof {
            use_type_invariant(self);
            lemma_ordered_len(words(self.suffixes@));
        }
        self.suffixes.len()
    }

    /// Whether the domain is listed, exactly or by one of its suffixes.
    pub fn matches(&self, domain: &str) -> (r: bool)
        ensures
            r == self@.has(domain@),
    {
        proof {
            use_type_invariant(self);
        }
        let chars = text::chars_of(domain);
        let d = text::trim_end_of(chars.as_slice(), Class::Is('.'));
        if d.len() == 0 || d.len() > MAX_DOMAIN_LENGTH || !is_ascii_of(d) {
            return false;
        }
        if holds(&self.exact, d) {
            return true;
        }
        let mut start: usize = 0;
        assert(d@.skip(0) == d@);
        loop
            invariant
                start <= d@.len(),
                ordered(words(self.suffixes@), true),
                d@ == text::trim_end(domain@, Class::Is('.')),
                0 < d@.len() <= 253,
                vstd::utf8::is_ascii_chars(d@),
                !self@.exact.contains(d@),
                start == 0 || (d@[start - 1] == '.' && !self@.suffixes.contains(d@)),
                forall|k: int|
                    0 <= k < start - 1 && #[trigger] d@[k] == '.' ==> !self@.suffixes.contains(
                        d@.skip(k + 1),
                    ),
            decreases d@.len() - start,
        {
            let candidate = &d[start..d.len()];
            assert(candidate@ == d@.skip(start as int));
            if start == 0 {
                assert(candidate@ == d@);
            }
            if holds(&self.suffixes, candidate) {
                assert(self@.suffixes.contains(candidate@));
                if start > 0 {
                    assert(d@[start - 1] == '.' && self@.suffixes.contains(
                        d@.skip(start - 1 + 1),
                    ));
                }
                return true;
            }
            assert(!self@.suffixes.contains(d@.skip(start as int)));
            let dot: usize = text::leading_len(candidate, Class::IsNot('.'));
            proof {
                text::lemma_leading(candidate@, Class::IsNot('.'));
            }
            if dot >= candidate.len() {
                assert forall|k: int| 0 <= k < d@.len() && #[trigger] d@[k] == '.' implies
                    !self@.suffixes.contains(d@.skip(k + 1)) by {
                    if k >= start {
                        assert(candidate@[k - start] == d@[k]);
                    }
                }
                return false;
            }
            assert(candidate@[dot as int] == '.');
            assert forall|k: int| 0 <= k < start + dot && #[trigger] d@[k] == '.' implies
                !self@.suffixes.contains(d@.skip(k + 1)) by {
                if k >= start {
                    assert(candidate@[k - start] == d@[k]);
                }
            }
            start = start + dot + 1;
        }
    }
}

/// A set that was made of two lists counts every normalized domain of a list once:
/// its size is the number of different ones in the first list and in the second. It
/// is empty just where both lists are, and matches nothing then.
pub proof fn law_entries_are_counted_once(
    exact: Seq<Seq<char>>,
    suffixes: Seq<Seq<char>>,
    set: DomainSetView,
)
    requires
        set.exact == all_normalized(exact).to_set(),
        set.suffixes == all_normalized(suffixes).to_set(),
    ensures
        set.count() == all_normalized(exact).to_set().len() + all_normalized(
            suffixes,
        ).to_set().len(),
        set.count() <= exact.len() + suffixes.len(),
        set.count() == 0 <==> exact.len() == 0 && suffixes.len() == 0,
        set.count() == 0 ==> forall|domain: Seq<char>| !#[trigger] set.has(domain),
{
    let x = all_normalized(exact);
    let y = all_normalized(suffixes);
    x.lemma_cardinality_of_set();
    y.lemma_cardinality_of_set();
    x.lemma_cardinality_of_empty_set_is_0();
    y.lemma_cardinality_of_empty_set_is_0();
    if exact.len() == 0 && suffixes.len() == 0 {
        assert(set.exact =~= Set::empty());
        assert(set.suffixes =~= Set::empty());
    }
}

proof fn lemma_ordered_len(s: Seq<Seq<char>>)
    requires
        ordered(s, true),
    ensures
        s.to_set().len() == s.len(),
        s.to_set().finite(),
{
    assert(s.no_duplicates()) by {
        assert forall|i: int, j: int| 0 <= i < s.len() && 0 <= j < s.len() && i != j implies s[i]
            != s[j] by {
            lemma_less_irreflexive(s[i]);
            if i < j {
                assert(less(s[i], s[j]));
            } else {
                assert(less(s[j], s[i]));
            }
        }
    }
    s.unique_seq_to_set();
}

impl View for DomainSet {
    type V = DomainSetView;

    closed spec fn view(&self) -> DomainSetView {
        DomainSetView {
            exact: words(self.exact@).to_set(),
            suffixes: words(self.suffixes@).to_set(),
        }
    }
}

impl View for DomainFilter {
    type V = DomainFilterView;

    closed spec fn view(&self) -> DomainFilterView {
        DomainFilterView { blocked: self.blocked@, allowed: self.allowed@ }
    }
}

impl DomainFilter {
    pub fn new(blocked: DomainSet, allowed: DomainSet) -> (r: DomainFilter)
        ensures
            r@ == (DomainFilterView { blocked: blocked@, allowed: allowed@ }),
    {
        DomainFilter { blocked, allowed }
    }

    /// Whether the block set lists the domain and the exceptions do not.
    pub fn is_blocked(&self, domain: &str) -> (r: bool)
        ensures
            r == self@.blocks(domain@),
    {
        self.blocked.matches(domain) && !self.allowed.matches(domain)
    }

    pub fn blocked_len(&self) -> (r: usize)
        requires
            self@.blocked.count() <= usize::MAX,
        ensures
            r == self@.blocked.count(),
    {
        self.blocked.len()
    }

    pub fn allowed_len(&self) -> (r: usize)
        requires
            self@.allowed.count() <= usize::MAX,
        ensures
            r == self@.allowed.count(),
    {
        self.allowed.len()
    }
}

fn copy_words(list: &Vec<String>) -> (r: Vec<String>)
    ensures
        words(r@) == words(list@),
{
    let mut out: Vec<String> = Vec::new();
    let mut i: usize = 0;
    assert(words(out@) =~= words(list@).take(0));
    while i < list.len()
        invariant
            i <= list@.len(),
            words(out@) == words(list@).take(i as int),
        decreases list@.len() - i,
    {
        let ghost before = out@;
        out.push(list[i].clone());
        proof {
            let word = list@[i as int]@;
            assert(words(list@)[i as int] == word);
            assert(words(out@) =~= words(before).push(word));
            assert(words(list@).take(i + 1) =~= words(list@).take(i as int).push(word));
        }
        i = i + 1;
    }
    assert(words(list@).take(i as int) =~= words(list@));
    out
}

impl Clone for DomainSet {
    fn clone(&self) -> (r: DomainSet)
        ensures
            r@ == self@,
    {
        proof {
            use_type_invariant(self);
        }
        DomainSet { exact: copy_words(&self.exact), suffixes: copy_words(&self.suffixes) }
    }
}

impl Default for DomainSet {
    /// The set without domains.
    fn default() -> (r: DomainSet)
        ensures
            r@ == (DomainSetView { exact: Set::empty(), suffixes: Set::empty() }),
    {
        let r = DomainSet { exact: Vec::new(), suffixes: Vec::new() };
        assert(r@.exact =~= Set::empty());
        assert(r@.suffixes =~= Set::empty());
        r
    }
}

impl Clone for DomainFilter {
    fn clone(&self) -> (r: DomainFilter)
        ensures
            r@ == self@,
    {
        DomainFilter { blocked: self.blocked.clone(), allowed: self.allowed.clone() }
    }
}

impl Default for DomainFilter {
    /// The filter that blocks nothing.
    fn default() -> (r: DomainFilter)
        ensures
            r@.blocked == (DomainSetView { exact: Set::empty(), suffixes: Set::empty() }),
            r@.allowed == (DomainSetView { exact: Set::empty(), suffixes: Set::empty() }),
    {
        DomainFilter { blocked: DomainSet::default(), allowed: DomainSet::default() }
    }
}

proof fn lemma_lower_dot(s: Seq<char>)
    ensures
        forall|i: int| 0 <= i < s.len() ==> (text::lower(s)[i] == '.') == (#[trigger] s[i] == '.'),
{
}

pub proof fn lemma_trim_ends(s: Seq<char>, k: Class)
    ensures
        ({
            let t = text::trim(s, k);
            t.len() > 0 ==> !k.has(t[0]) && !k.has(t.last())
        }),
{
    let a = text::trim_start(s, k);
    text::lemma_leading(s, k);
    text::lemma_trailing(a, k);
    let t = text::trim(s, k);
    if t.len() > 0 {
        assert(a[0] == s[text::leading(s, k) as int]);
        assert(t[0] == a[0]);
        assert(t.last() == a[a.len() - text::trailing(a, k) - 1]);
    }
}

/// Normalising twice is the same as normalising once.
pub proof fn law_normalizing_is_idempotent(s: Seq<char>)
    ensures
        normalized(normalized(s)) == normalized(s),
{
    let t = text::trim(s, Class::Is('.'));
    let n = text::lower(t);
    lemma_trim_ends(s, Class::Is('.'));
    lemma_lower_dot(t);
    text::lemma_trim_nothing(n, Class::Is('.'));
    assert(text::lower(n) =~= n);
}

/// A suffix matches itself and everything in front of it at a label boundary,
/// and nothing that merely ends with the same characters.
pub proof fn law_suffix_matches_at_label_boundaries(
    set: DomainSetView,
    prefix: Seq<char>,
    suffix: Seq<char>,
)
    requires
        set.suffixes == set![suffix],
        set.exact == Set::<Seq<char>>::empty(),
        suffix.len() > 0,
        suffix.last() != '.',
        vstd::utf8::is_ascii_chars(suffix),
        vstd::utf8::is_ascii_chars(prefix),
        prefix.len() > 0,
        prefix.last() != '.',
        prefix.len() + suffix.len() < 253,
    ensures
        set.has(suffix),
        set.has(prefix.push('.') + suffix),
        !set.has(prefix + suffix),
{
    let a = prefix.push('.') + suffix;
    let b = prefix + suffix;
    text::lemma_trailing(suffix, Class::Is('.'));
    text::lemma_trailing(a, Class::Is('.'));
    text::lemma_trailing(b, Class::Is('.'));
    assert(a.last() == suffix.last());
    assert(b.last() == suffix.last());
    assert(suffix.take(suffix.len() as int) == suffix);
    assert(a.take(a.len() as int) == a);
    assert(b.take(b.len() as int) == b);
    assert(text::trim_end(suffix, Class::Is('.')) == suffix);
    assert(text::trim_end(a, Class::Is('.')) == a);
    assert(text::trim_end(b, Class::Is('.')) == b);
    let k = prefix.len() as int;
    assert(a[k] == '.');
    assert(a.skip(k + 1) == suffix);
    assert(set.suffixes.contains(a.skip(k + 1)));
    assert forall|i: int| 0 <= i < b.len() && #[trigger] b[i] == '.' implies !set.suffixes.contains(
        b.skip(i + 1),
    ) by {
        if b.skip(i + 1) == suffix {
            assert(i == prefix.len() - 1);
            assert(b[i] == prefix.last());
        }
    }
    assert(b.len() != suffix.len());
}

/// An exception only ever lifts a block: what the filter blocks is in the block
/// set, and without exceptions the filter blocks exactly the block set.
pub proof fn law_exception_only_lifts_a_block(filter: DomainFilterView, domain: Seq<char>)
    ensures
        filter.blocks(domain) ==> filter.blocked.has(domain),
        filter.allowed.has(domain) ==> !filter.blocks(domain),
        !filter.allowed.has(domain) ==> filter.blocks(domain) == filter.blocked.has(domain),
{
}

/// A set holds a name exactly where it lists the name itself, or the end of the name
/// from a label on as a suffix; dots at the end of the name do not count.
pub proof fn law_set_holds_what_it_lists(set: DomainSetView, name: Seq<char>)
    requires
        name.len() > 0,
        name.last() != '.',
    ensures
        set.has(name) <==> name.len() <= 253 && vstd::utf8::is_ascii_chars(name) && (
        set.exact.contains(name) || exists|n: int|
            0 <= n < name.len() && (n == 0 || name[n - 1] == '.') && set.suffixes.contains(
                #[trigger] name.skip(n),
            ) || (n == name.len() && n > 0 && name[n - 1] == '.' && set.suffixes.contains(
                name.skip(n),
            ))),
        set.has(name.push('.')) == set.has(name),
{
    let k = Class::Is('.');
    text::lemma_trailing(name, k);
    assert(text::trailing(name, k) == 0);
    assert(name.take(name.len() as int) =~= name);
    let dotted = name.push('.');
    assert(dotted.drop_last() =~= name);
    assert(text::trailing(dotted, k) == 1);
    assert(dotted.take(dotted.len() - 1) =~= name);
    if set.suffixes.contains(name) {
        assert(name.skip(0) =~= name);
    }
    if exists|n: int|
        0 <= n < name.len() && (n == 0 || name[n - 1] == '.') && set.suffixes.contains(
            #[trigger] name.skip(n),
        ) || (n == name.len() && n > 0 && name[n - 1] == '.' && set.suffixes.contains(
            name.skip(n),
        )) {
        let n = choose|n: int|
            0 <= n < name.len() && (n == 0 || name[n - 1] == '.') && set.suffixes.contains(
                #[trigger] name.skip(n),
            ) || (n == name.len() && n > 0 && name[n - 1] == '.' && set.suffixes.contains(
                name.skip(n),
            ));
        if n == 0 {
            assert(name.skip(0) =~= name);
        } else {
            assert(name[n - 1] == '.');
            assert(name.skip((n - 1) + 1) == name.skip(n));
        }
    }
    if exists|j: int| 0 <= j < name.len() && #[trigger] name[j] == '.' && set.suffixes.contains(
        name.skip(j + 1),
    ) {
        let j = choose|j: int|
            0 <= j < name.len() && #[trigger] name[j] == '.' && set.suffixes.contains(
                name.skip(j + 1),
            );
        assert(j + 1 < name.len());
        assert(set.suffixes.contains(name.skip(j + 1)));
    }
}

proof fn lemma_split_label(label: Seq<char>, rest: Seq<char>)
    requires
        forall|i: int| 0 <= i < label.len() ==> #[trigger] label[i] != '.',
    ensures
        text::split(label, '.') == seq![label],
        text::split(label.push('.') + rest, '.') == seq![label] + text::split(rest, '.'),
{
    let k = Class::IsNot('.');
    let s = label.push('.') + rest;
    let n = label.len();
    assert forall|i: int| 0 <= i < n implies k.has(#[trigger] label[i]) by {}
    text::lemma_leading_is(label, k, n);
    assert forall|i: int| 0 <= i < n implies k.has(#[trigger] s[i]) by {
        assert(s[i] == label[i]);
    }
    assert(s[n as int] == '.');
    text::lemma_leading_is(s, k, n);
    assert(s.take(n as int) =~= label);
    assert(s.skip(n as int + 1) =~= rest);
}

/// A name is made of labels with dots between them: of one to 63 characters each, all
/// of them ASCII, and of 253 characters in all at most.
pub proof fn law_names_are_made_of_labels(label: Seq<char>, name: Seq<char>)
    requires
        forall|i: int| 0 <= i < label.len() ==> #[trigger] label[i] != '.',
    ensures
        valid(label) <==> 1 <= label.len() <= 63 && vstd::utf8::is_ascii_chars(label),
        valid(name) ==> (valid(label.push('.') + name) <==> 1 <= label.len() <= 63
            && vstd::utf8::is_ascii_chars(label) && label.len() + 1 + name.len() <= 253),
        valid(label.push('.') + name) ==> valid(name),
{
    lemma_split_label(label, name);
    let s = label.push('.') + name;
    let parts = text::split(s, '.');
    let rest = text::split(name, '.');
    assert(text::split(label, '.')[0] == label);
    assert(parts[0] == label);
    assert forall|i: int| 0 <= i < rest.len() implies parts[i + 1] == rest[i] by {}
    assert(vstd::utf8::is_ascii_chars(s) <==> vstd::utf8::is_ascii_chars(label)
        && vstd::utf8::is_ascii_chars(name)) by {
        if vstd::utf8::is_ascii_chars(s) {
            assert forall|i: int| 0 <= i < label.len() implies '\0' <= #[trigger] label[i] <= '\u{7f}' by {
                assert(s[i] == label[i]);
            }
            assert forall|i: int| 0 <= i < name.len() implies '\0' <= #[trigger] name[i] <= '\u{7f}' by {
                assert(s[i + label.len() + 1] == name[i]);
            }
        }
        if vstd::utf8::is_ascii_chars(label) && vstd::utf8::is_ascii_chars(name) {
            assert forall|i: int| 0 <= i < s.len() implies '\0' <= #[trigger] s[i] <= '\u{7f}' by {
                if i < label.len() {
                    assert(s[i] == label[i]);
                } else if i > label.len() {
                    assert(s[i] == name[i - label.len() - 1]);
                }
            }
        }
    }
    if valid(name) {
        if valid(s) {
            assert(1 <= parts[0].len() <= 63);
        } else if 1 <= label.len() <= 63 && vstd::utf8::is_ascii_chars(label) && label.len() + 1
            + name.len() <= 253 {
            assert forall|i: int| 0 <= i < parts.len() implies 1 <= (#[trigger] parts[i]).len()
                <= 63 by {
                if i > 0 {
                    assert(parts[i] == rest[i - 1]);
                }
            }
        }
    }
    if valid(s) {
        assert forall|i: int| 0 <= i < rest.len() implies 1 <= (#[trigger] rest[i]).len() <= 63 by {
            assert(parts[i + 1] == rest[i]);
        }
        assert(rest.len() > 0 && rest[0].len() >= 1);
        if name.len() == 0 {
            assert(rest =~= seq![name]);
        }
    }
}

/// Normalising takes dots from the ends and capitals from the letters, and nothing else.
pub proof fn law_normalizing_changes_dots_and_case_alone(s: Seq<char>)
    ensures
        text::same_text(normalized(s), text::trim(s, Class::Is('.'))),
        forall|i: int|
            0 <= i < normalized(s).len() ==> !('A' <= #[trigger] normalized(s)[i] <= 'Z'),
        normalized(s).len() > 0 ==> normalized(s)[0] != '.' && normalized(s).last() != '.',
        (s.len() > 0 ==> s[0] != '.' && s.last() != '.') && (forall|i: int|
            0 <= i < s.len() ==> !('A' <= #[trigger] s[i] <= 'Z')) ==> normalized(s) == s,
{
    let t = text::trim(s, Class::Is('.'));
    text::law_same_text_ignores_case_alone(t, t);
    lemma_trim_ends(s, Class::Is('.'));
    lemma_lower_dot(t);
    assert forall|i: int| 0 <= i < normalized(s).len() implies !('A' <= #[trigger] normalized(s)[i]
        <= 'Z') by {
        text::lemma_char(t[i]);
    }
    if normalized(s).len() > 0 {
        assert(normalized(s)[0] == text::lower(t)[0]);
        assert(t[0] != '.' && t[t.len() - 1] != '.');
    }
    if (s.len() > 0 ==> s[0] != '.' && s.last() != '.') && (forall|i: int|
        0 <= i < s.len() ==> !('A' <= #[trigger] s[i] <= 'Z')) {
        text::lemma_trim_nothing(s, Class::Is('.'));
        assert(normalized(s) =~= s);
    }
}

} // verus!
