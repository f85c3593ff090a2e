//! Text as sequences of characters: classes, trimming, splitting, decimal numbers.

use vstd::prelude::*;

verus! {

/// A set of characters that trimming and splitting work with.
#[derive(Clone, Copy, Debug)]
pub enum Class {
    Space,
    NonSpace,
    Is(char),
    IsNot(char),
}

/// The Unicode `White_Space` property.
pub open spec fn is_space(c: char) -> bool {
    ||| '\u{9}' <= c <= '\u{d}'
    ||| c == ' '
    ||| c == '\u{85}'
    ||| c == '\u{a0}'
    ||| c == '\u{1680}'
    ||| '\u{2000}' <= c <= '\u{200a}'
    ||| c == '\u{2028}'
    ||| c == '\u{2029}'
    ||| c == '\u{202f}'
    ||| c == '\u{205f}'
    ||| c == '\u{3000}'
}

impl Class {
    pub open spec fn has(self, c: char) -> bool {
        match self {
            Class::Space => is_space(c),
            Class::NonSpace => !is_space(c),
            Class::Is(x) => c == x,
            Class::IsNot(x) => c != x,
        }
    }

    /// Whether `c` belongs to the class.
    pub fn contains(self, c: char) -> (r: bool)
        ensures
            r == self.has(c),
    {
        let space = ('\u{9}' <= c && c <= '\u{d}') || c == ' ' || c == '\u{85}' || c == '\u{a0}'
            || c == '\u{1680}' || ('\u{2000}' <= c && c <= '\u{200a}') || c == '\u{2028}' || c
            == '\u{2029}' || c == '\u{202f}' || c == '\u{205f}' || c == '\u{3000}';
        match self {
            Class::Space => space,
            Class::NonSpace => !space,
            Class::Is(x) => c == x,
            Class::IsNot(x) => c != x,
        }
    }
}

/// How many characters at the front of `s` belong to `k` before the first that does not.
pub open spec fn leading(s: Seq<char>, k: Class) -> nat
    decreases s.len(),
{
    if s.len() > 0 && k.has(s[0]) {
        1 + leading(s.drop_first(), k)
    } else {
        0
    }
}

/// How many characters at the end of `s` belong to `k` after the last that does not.
pub open spec fn trailing(s: Seq<char>, k: Class) -> nat
    decreases s.len(),
{
    if s.len() > 0 && k.has(s.last()) {
        1 + trailing(s.drop_last(), k)
    } else {
        0
    }
}

pub open spec fn trim_start(s: Seq<char>, k: Class) -> Seq<char> {
    s.skip(leading(s, k) as int)
}

pub open spec fn trim_end(s: Seq<char>, k: Class) -> Seq<char> {
    s.take(s.len() - trailing(s, k))
}

pub open spec fn trim(s: Seq<char>, k: Class) -> Seq<char> {
    trim_end(trim_start(s, k), k)
}

/// The part of `s` in front of the first `c`, or all of it.
pub open spec fn before(s: Seq<char>, c: char) -> Seq<char> {
    s.take(leading(s, Class::IsNot(c)) as int)
}

/// The pieces of `s` between occurrences of `c`; a text without `c` is one piece.
pub open spec fn split(s: Seq<char>, c: char) -> Seq<Seq<char>>
    decreases s.len(),
{
    let n = leading(s, Class::IsNot(c)) as int;
    if 0 <= n < s.len() {
        seq![s.take(n)] + split(s.skip(n + 1), c)
    } else {
        seq![s]
    }
}

/// The maximal runs of characters that are no white space.
pub open spec fn fields(s: Seq<char>) -> Seq<Seq<char>>
    decreases s.len(),
{
    let t = trim_start(s, Class::Space);
    if t.len() == 0 {
        Seq::empty()
    } else {
        let n = leading(t, Class::NonSpace);
        if 0 < n <= t.len() <= s.len() {
            seq![t.take(n as int)] + fields(t.skip(n as int))
        } else {
            Seq::empty()
        }
    }
}

/// The lines of `s`: a line ends at a line feed, which takes one carriage return
/// in front of it along; a text that ends with a line feed has no empty last line.
pub open spec fn lines(s: Seq<char>) -> Seq<Seq<char>>
    decreases s.len(),
{
    if s.len() == 0 {
        Seq::empty()
    } else {
        let n = leading(s, Class::IsNot('\n')) as int;
        if n < s.len() {
            seq![drop_return(s.take(n))] + lines(s.skip(n + 1))
        } else {
            seq![s]
        }
    }
}

pub open spec fn drop_return(s: Seq<char>) -> Seq<char> {
    if s.len() > 0 && s.last() == '\r' {
        s.drop_last()
    } else {
        s
    }
}

/// The texts that a list of slices holds.
pub open spec fn texts(v: Seq<&[char]>) -> Seq<Seq<char>> {
    Seq::new(v.len(), |i: int| v[i]@)
}

/// ASCII upper case letters become lower case; everything else stays.
pub open spec fn lower_char(c: char) -> char {
    if 'A' <= c <= 'Z' {
        ((c as u8) + 32) as char
    } else {
        c
    }
}

pub open spec fn lower(s: Seq<char>) -> Seq<char> {
    Seq::new(s.len(), |i: int| lower_char(s[i]))
}

/// Equality up to the case of ASCII letters.
pub open spec fn same_text(a: Seq<char>, b: Seq<char>) -> bool {
    lower(a) == lower(b)
}

pub open spec fn is_digit(c: char) -> bool {
    '0' <= c <= '9'
}

pub open spec fn digit(c: char) -> int {
    c as int - '0' as int
}

pub open spec fn all_digits(s: Seq<char>) -> bool {
    forall|i: int| 0 <= i < s.len() ==> is_digit(#[trigger] s[i])
}

/// The number that decimal digits denote.
pub open spec fn decimal_value(s: Seq<char>) -> nat
    decreases s.len(),
{
    if s.len() == 0 {
        0
    } else {
        (decimal_value(s.drop_last()) * 10 + digit(s.last())) as nat
    }
}

/// The number of at most `max` that one or more decimal digits denote; leading
/// zeros are allowed.
pub open spec fn digits(s: Seq<char>, max: nat) -> Option<nat> {
    if s.len() > 0 && all_digits(s) && decimal_value(s) <= max {
        Some(decimal_value(s))
    } else {
        None
    }
}

/// Like `digits`, with one plus sign allowed in front.
pub open spec fn number(s: Seq<char>, max: nat) -> Option<nat> {
    digits(
        if s.len() > 0 && s[0] == '+' {
            s.drop_first()
        } else {
            s
        },
        max,
    )
}

pub open spec fn digit_char(d: nat) -> char {
    (('0' as u8) + d) as char
}

/// The decimal notation of `n`.
pub open spec fn decimal(n: nat) -> Seq<char>
    decreases n,
{
    if n < 10 {
        seq![digit_char(n)]
    } else {
        decimal(n / 10).push(digit_char(n % 10))
    }
}

/// How many bytes the text takes in UTF-8.
pub open spec fn byte_len(s: Seq<char>) -> nat {
    vstd::utf8::encode_utf8(s).len()
}

/// The text starts with `p`.
pub open spec fn starts_with(s: Seq<char>, p: Seq<char>) -> bool {
    s.len() >= p.len() && s.take(p.len() as int) == p
}

/// The pieces of `v` with `c` between them.
pub open spec fn join(v: Seq<Seq<char>>, c: char) -> Seq<char>
    decreases v.len(),
{
    if v.len() == 0 {
        Seq::empty()
    } else if v.len() == 1 {
        v[0]
    } else {
        join(v.drop_last(), c).push(c) + v.last()
    }
}

pub proof fn lemma_leading(s: Seq<char>, k: Class)
    ensures
        leading(s, k) <= s.len(),
        forall|i: int| 0 <= i < leading(s, k) ==> k.has(#[trigger] s[i]),
        leading(s, k) < s.len() ==> !k.has(s[leading(s, k) as int]),
    decreases s.len(),
{
    if s.len() > 0 && k.has(s[0]) {
        let t = s.drop_first();
        lemma_leading(t, k);
        assert forall|i: int| 0 <= i < leading(s, k) implies k.has(#[trigger] s[i]) by {
            if i > 0 {
                assert(k.has(t[i - 1]));
            }
        }
        if leading(s, k) < s.len() {
            assert(t[leading(t, k) as int] == s[leading(s, k) as int]);
        }
    }
}

/// `leading` is the one index with these two properties.
pub proof fn lemma_leading_is(s: Seq<char>, k: Class, n: nat)
    requires
        n <= s.len(),
        forall|i: int| 0 <= i < n ==> k.has(#[trigger] s[i]),
        n < s.len() ==> !k.has(s[n as int]),
    ensures
        leading(s, k) == n,
{
    lemma_leading(s, k);
    if leading(s, k) < n {
        assert(k.has(s[leading(s, k) as int]));
    } else if leading(s, k) > n {
        assert(k.has(s[n as int]));
    }
}

pub proof fn lemma_trailing(s: Seq<char>, k: Class)
    ensures
        trailing(s, k) <= s.len(),
        forall|i: int| s.len() - trailing(s, k) <= i < s.len() ==> k.has(#[trigger] s[i]),
        trailing(s, k) < s.len() ==> !k.has(s[s.len() - trailing(s, k) - 1]),
    decreases s.len(),
{
    if s.len() > 0 && k.has(s.last()) {
        let t = s.drop_last();
        lemma_trailing(t, k);
        assert forall|i: int| s.len() - trailing(s, k) <= i < s.len() implies k.has(
            #[trigger] s[i],
        ) by {
            if i < s.len() - 1 {
                assert(k.has(t[i]));
            }
        }
        if trailing(s, k) < s.len() {
            assert(t[t.len() - trailing(t, k) - 1] == s[s.len() - trailing(s, k) - 1]);
        }
    }
}

pub proof fn lemma_trailing_is(s: Seq<char>, k: Class, n: nat)
    requires
        n <= s.len(),
        forall|i: int| s.len() - n <= i < s.len() ==> k.has(#[trigger] s[i]),
        n < s.len() ==> !k.has(s[s.len() - n - 1]),
    ensures
        trailing(s, k) == n,
{
    lemma_trailing(s, k);
    if trailing(s, k) < n {
        assert(k.has(s[s.len() - trailing(s, k) - 1]));
    } else if trailing(s, k) > n {
        assert(k.has(s[s.len() - n - 1]));
    }
}

/// The pieces of a text, put together again, give the text.
pub proof fn lemma_join_split(s: Seq<char>, c: char)
    ensures
        split(s, c).len() > 0,
        join(split(s, c), c) == s,
    decreases s.len(),
{
    let n = leading(s, Class::IsNot(c)) as int;
    lemma_leading(s, Class::IsNot(c));
    if n < s.len() {
        let rest = split(s.skip(n + 1), c);
        lemma_join_split(s.skip(n + 1), c);
        let p = split(s, c);
        assert(p == seq![s.take(n)] + rest);
        assert(p.drop_first() == rest);
        lemma_join_first(p, c);
        assert(s =~= s.take(n).push(c) + s.skip(n + 1));
    }
}

/// Joining puts the first piece and the separator in front of the rest.
pub proof fn lemma_join_first(v: Seq<Seq<char>>, c: char)
    requires
        v.len() > 1,
    ensures
        join(v, c) == v[0].push(c) + join(v.drop_first(), c),
    decreases v.len(),
{
    let rest = v.drop_first();
    if v.len() == 2 {
        assert(v.drop_last().len() == 1);
        assert(v.drop_last()[0] == v[0]);
        assert(rest[0] == v.last());
        assert(join(v.drop_last(), c) == v[0]);
        assert(join(rest, c) == v.last());
    } else {
        lemma_join_first(v.drop_last(), c);
        assert(v.drop_last().drop_first() == rest.drop_last());
        assert(rest.last() == v.last());
        assert(join(rest, c) == join(rest.drop_last(), c).push(c) + v.last());
        assert(join(v, c) =~= v[0].push(c) + join(rest, c));
    }
}

/// A text with nothing of the class at its ends stays as it is.
pub proof fn lemma_trim_nothing(s: Seq<char>, k: Class)
    requires
        s.len() > 0 ==> !k.has(s[0]) && !k.has(s.last()),
    ensures
        trim_start(s, k) == s,
        trim_end(s, k) == s,
        trim(s, k) == s,
{
    assert(s.skip(0) == s);
    assert(s.take(s.len() as int) == s);
}

/// Every character is a Unicode scalar value.
pub proof fn lemma_char(c: char)
    ensures
        '\u{0}' <= c <= '\u{10ffff}',
{
}

/// The characters of a string.
pub fn chars_of(text: &str) -> (r: Vec<char>)
    ensures
        r@ == text@,
{
    let mut out: Vec<char> = Vec::new();
    for c in it: text.chars()
        invariant
            it.seq() == text@,
            out@ == text@.take(it.index()),
    {
        out.push(c);
        assert(text@.take(it.index() + 1) == text@.take(it.index()).push(c));
    }
    assert(text@.take(text@.len() as int) == text@);
    out
}


/// `String::push` appends the character at the end.
pub assume_specification[ String::push ](s: &mut String, c: char)
    ensures
        final(s)@ == old(s)@.push(c),
;

/// The outcome of reading UTF-8.
#[verifier::external_type_specification]
#[verifier::external_body]
pub struct ExUtf8Error(core::str::Utf8Error);

/// `core::str::from_utf8` succeeds exactly on valid UTF-8, and the string holds
/// the same bytes.
pub assume_specification[ core::str::from_utf8 ](v: &[u8]) -> (r: Result<
    &str,
    core::str::Utf8Error,
>)
    ensures
        r is Ok <==> vstd::utf8::valid_utf8(v@),
        r matches Ok(s) ==> vstd::utf8::encode_utf8(s@) == v@,
;

/// The string that the bytes are in UTF-8, where they are valid.
pub fn utf8_text(bytes: &[u8]) -> (r: Option<&str>)
    ensures
        match r {
            Some(s) => vstd::utf8::valid_utf8(bytes@) && s@ == vstd::utf8::decode_utf8(bytes@),
            None => !vstd::utf8::valid_utf8(bytes@),
        },
{
    match core::str::from_utf8(bytes) {
        Ok(s) => {
            proof {
                vstd::utf8::encode_utf8_decode_utf8(s@);
            }
            Some(s)
        },
        Err(_) => None,
    }
}

/// How many bytes the string takes.
pub fn byte_len_of(s: &str) -> (r: usize)
    ensures
        r == byte_len(s@),
{
    s.as_bytes().len()
}

/// Whether the text starts with the string.
pub fn starts_with_of(s: &[char], p: &str) -> (r: bool)
    ensures
        r == starts_with(s@, p@),
{
    let prefix = chars_of(p);
    if s.len() < prefix.len() {
        return false;
    }
    equal(&s[0..prefix.len()], prefix.as_slice())
}

/// The string made of these characters.
pub fn to_text(s: &[char]) -> (r: String)
    ensures
        r@ == s@,
{
    let mut out = String::new();
    let mut i: usize = 0;
    while i < s.len()
        invariant
            i <= s@.len(),
            out@ == s@.take(i as int),
        decreases s@.len() - i,
    {
        out.push(s[i]);
        i = i + 1;
        assert(s@.take(i as int) == s@.take(i - 1).push(s@[i - 1]));
    }
    assert(s@.take(i as int) == s@);
    out
}

/// Whether the two texts are the same.
pub fn equal(a: &[char], b: &[char]) -> (r: bool)
    ensures
        r == (a@ == b@),
{
    if a.len() != b.len() {
        return false;
    }
    let mut i: usize = 0;
    while i < a.len()
        invariant
            i <= a@.len(),
            a@.len() == b@.len(),
            a@.take(i as int) == b@.take(i as int),
        decreases a@.len() - i,
    {
        if a[i] != b[i] {
            assert(a@[i as int] != b@[i as int]);
            return false;
        }
        i = i + 1;
        assert(a@.take(i as int) == a@.take(i - 1).push(a@[i - 1]));
        assert(b@.take(i as int) == b@.take(i - 1).push(b@[i - 1]));
    }
    assert(a@.take(i as int) == a@);
    assert(b@.take(i as int) == b@);
    true
}

/// Whether the text is the given string.
pub fn is_text(s: &[char], text: &str) -> (r: bool)
    ensures
        r == (s@ == text@),
{
    let other = chars_of(text);
    equal(s, other.as_slice())
}

/// Whether two strings are the same.
pub fn same(a: &str, b: &str) -> (r: bool)
    ensures
        r == (a@ == b@),
{
    let left = chars_of(a);
    is_text(left.as_slice(), b)
}

/// Counts the leading characters of the class.
pub fn leading_len(s: &[char], k: Class) -> (r: usize)
    ensures
        r == leading(s@, k),
        r <= s@.len(),
{
    let mut i: usize = 0;
    while i < s.len() && k.contains(s[i])
        invariant
            i <= s@.len(),
            forall|j: int| 0 <= j < i ==> k.has(#[trigger] s@[j]),
        ensures
            i <= s@.len(),
            forall|j: int| 0 <= j < i ==> k.has(#[trigger] s@[j]),
            i < s@.len() ==> !k.has(s@[i as int]),
        decreases s@.len() - i,
    {
        i = i + 1;
    }
    proof {
        lemma_leading_is(s@, k, i as nat);
    }
    i
}

/// Counts the trailing characters of the class.
pub fn trailing_len(s: &[char], k: Class) -> (r: usize)
    ensures
        r == trailing(s@, k),
        r <= s@.len(),
{
    let mut i: usize = 0;
    while i < s.len() && k.contains(s[s.len() - 1 - i])
        invariant
            i <= s@.len(),
            forall|j: int| s@.len() - i <= j < s@.len() ==> k.has(#[trigger] s@[j]),
        ensures
            i <= s@.len(),
            forall|j: int| s@.len() - i <= j < s@.len() ==> k.has(#[trigger] s@[j]),
            i < s@.len() ==> !k.has(s@[s@.len() - i - 1]),
        decreases s@.len() - i,
    {
        i = i + 1;
    }
    proof {
        lemma_trailing_is(s@, k, i as nat);
    }
    i
}

/// Drops leading characters of the class.
pub fn trim_start_of(s: &[char], k: Class) -> (r: &[char])
    ensures
        r@ == trim_start(s@, k),
        r@.len() == s@.len() - leading(s@, k),
{
    let n: usize = leading_len(s, k);
    &s[n..s.len()]
}

/// Drops trailing characters of the class.
pub fn trim_end_of(s: &[char], k: Class) -> (r: &[char])
    ensures
        r@ == trim_end(s@, k),
        r@.len() <= s@.len(),
{
    let n: usize = trailing_len(s, k);
    &s[0..s.len() - n]
}

/// Drops leading and trailing characters of the class.
pub fn trim_of(s: &[char], k: Class) -> (r: &[char])
    ensures
        r@ == trim(s@, k),
        r@.len() <= s@.len(),
{
    trim_end_of(trim_start_of(s, k), k)
}

/// The part in front of the first `c`, or all of it.
pub fn before_of(s: &[char], c: char) -> (r: &[char])
    ensures
        r@ == before(s@, c),
        r@.len() <= s@.len(),
{
    let n: usize = leading_len(s, Class::IsNot(c));
    &s[0..n]
}

/// The pieces between occurrences of `c`.
pub fn split_of(s: &[char], c: char) -> (r: Vec<&[char]>)
    ensures
        texts(r@) == split(s@, c),
        r@.len() >= 1,
{
    let mut out: Vec<&[char]> = Vec::new();
    let mut rest: &[char] = s;
    loop
        invariant_except_break
            texts(out@) + split(rest@, c) == split(s@, c),
        ensures
            texts(out@) == split(s@, c),
            out@.len() >= 1,
        decreases rest@.len(),
    {
        let n: usize = leading_len(rest, Class::IsNot(c));
        let ghost before_out = texts(out@);
        if n < rest.len() {
            let piece = &rest[0..n];
            out.push(piece);
            assert(texts(out@) == before_out.push(piece@));
            rest = &rest[n + 1..rest.len()];
            assert(before_out.push(piece@) + split(rest@, c) == before_out + (seq![piece@] + split(
                rest@,
                c,
            )));
        } else {
            out.push(rest);
            assert(texts(out@) == before_out + seq![rest@]);
            break;
        }
    }
    out
}

/// The maximal runs of characters that are no white space.
pub fn fields_of(s: &[char]) -> (r: Vec<&[char]>)
    ensures
        texts(r@) == fields(s@),
{
    let mut out: Vec<&[char]> = Vec::new();
    let mut rest: &[char] = trim_start_of(s, Class::Space);
    assert(texts(out@) + fields(s@) == fields(s@));
    let ghost mut source = s@;
    while rest.len() > 0
        invariant
            rest@ == trim_start(source, Class::Space),
            texts(out@) + fields(source) == fields(s@),
            rest@.len() <= source.len(),
        decreases rest@.len(),
    {
        let n: usize = leading_len(rest, Class::NonSpace);
        proof {
            lemma_leading(source, Class::Space);
            assert(leading(rest@, Class::NonSpace) > 0) by {
                assert(rest@[0] == source[leading(source, Class::Space) as int]);
            }
        }
        let piece = &rest[0..n];
        let ghost before_out = texts(out@);
        out.push(piece);
        assert(texts(out@) == before_out.push(piece@));
        let tail = &rest[n..rest.len()];
        assert(before_out.push(piece@) + fields(tail@) == before_out + (seq![piece@] + fields(
            tail@,
        )));
        proof {
            source = tail@;
        }
        rest = trim_start_of(tail, Class::Space);
    }
    assert(fields(source) == Seq::<Seq<char>>::empty());
    assert(texts(out@) + Seq::<Seq<char>>::empty() == texts(out@));
    out
}

/// The lines of a text.
pub fn lines_of(s: &[char]) -> (r: Vec<&[char]>)
    ensures
        texts(r@) == lines(s@),
{
    let mut out: Vec<&[char]> = Vec::new();
    let mut rest: &[char] = s;
    assert(texts(out@) + lines(s@) == lines(s@));
    while rest.len() > 0
        invariant
            texts(out@) + lines(rest@) == lines(s@),
        decreases rest@.len(),
    {
        let n: usize = leading_len(rest, Class::IsNot('\n'));
        let ghost before_out = texts(out@);
        if n < rest.len() {
            let whole = &rest[0..n];
            let line = if n > 0 && rest[n - 1] == '\r' {
                &rest[0..n - 1]
            } else {
                whole
            };
            assert(line@ == drop_return(rest@.take(n as int)));
            out.push(line);
            assert(texts(out@) == before_out.push(line@));
            rest = &rest[n + 1..rest.len()];
            assert(before_out.push(line@) + lines(rest@) == before_out + (seq![line@] + lines(
                rest@,
            )));
        } else {
            out.push(rest);
            assert(texts(out@) == before_out + seq![rest@]);
            rest = &rest[0..0];
            assert(texts(out@) + lines(rest@) == texts(out@));
        }
    }
    assert(texts(out@) + lines(rest@) == texts(out@));
    out
}

/// ASCII upper case letters in lower case.
pub fn lower_of(s: &[char]) -> (r: Vec<char>)
    ensures
        r@ == lower(s@),
{
    let mut out: Vec<char> = Vec::new();
    let mut i: usize = 0;
    while i < s.len()
        invariant
            i <= s@.len(),
            out@ == lower(s@).take(i as int),
        decreases s@.len() - i,
    {
        let c = s[i];
        let l = if 'A' <= c && c <= 'Z' {
            ((c as u8) + 32) as char
        } else {
            c
        };
        out.push(l);
        i = i + 1;
        assert(lower(s@).take(i as int) == lower(s@).take(i - 1).push(lower(s@)[i - 1]));
    }
    assert(lower(s@).take(i as int) == lower(s@));
    out
}

/// Equality up to the case of ASCII letters.
pub fn same_text_of(a: &[char], b: &[char]) -> (r: bool)
    ensures
        r == same_text(a@, b@),
{
    let left = lower_of(a);
    let right = lower_of(b);
    equal(left.as_slice(), right.as_slice())
}

pub proof fn lemma_decimal_value_bound(s: Seq<char>, n: int)
    requires
        0 <= n <= s.len(),
        all_digits(s),
    ensures
        decimal_value(s.take(n)) <= decimal_value(s),
    decreases s.len(),
{
    if n < s.len() {
        assert(s.drop_last().take(n) == s.take(n));
        assert(is_digit(s.last()));
        assert forall|i: int| 0 <= i < s.drop_last().len() implies is_digit(
            #[trigger] s.drop_last()[i],
        ) by {
            assert(is_digit(s[i]));
        }
        lemma_decimal_value_bound(s.drop_last(), n);
    } else {
        assert(s.take(n) == s);
    }
}

/// Reads decimal digits that denote at most `max`.
pub fn digits_of(d: &[char], max: u64) -> (r: Option<u64>)
    ensures
        match r {
            Some(n) => digits(d@, max as nat) == Some(n as nat),
            None => digits(d@, max as nat) is None,
        },
{
    if d.len() == 0 {
        return None;
    }
    let mut value: u64 = 0;
    let mut i: usize = 0;
    while i < d.len()
        invariant
            i <= d@.len(),
            value <= max,
            value == decimal_value(d@.take(i as int)),
            forall|j: int| 0 <= j < i ==> is_digit(#[trigger] d@[j]),
            d@.len() > 0,
        decreases d@.len() - i,
    {
        let c = d[i];
        if c < '0' || c > '9' {
            assert(!is_digit(d@[i as int]));
            return None;
        }
        let next: u128 = value as u128 * 10 + (c as u8 - 48) as u128;
        assert(d@.take(i + 1).drop_last() == d@.take(i as int));
        assert(next == decimal_value(d@.take(i + 1)));
        if next > max as u128 {
            proof {
                if all_digits(d@) {
                    lemma_decimal_value_bound(d@, i + 1);
                }
            }
            return None;
        }
        value = next as u64;
        i = i + 1;
    }
    assert(d@.take(i as int) == d@);
    Some(value)
}

/// Reads an unsigned decimal number of at most `max`, with one plus sign allowed.
pub fn number_of(s: &[char], max: u64) -> (r: Option<u64>)
    ensures
        match r {
            Some(n) => number(s@, max as nat) == Some(n as nat),
            None => number(s@, max as nat) is None,
        },
{
    if s.len() > 0 && s[0] == '+' {
        let rest = &s[1..s.len()];
        assert(rest@ == s@.drop_first());
        digits_of(rest, max)
    } else {
        digits_of(s, max)
    }
}

/// Appends the decimal notation of a number.
pub fn push_decimal(out: &mut String, n: u64)
    ensures
        final(out)@ == old(out)@ + decimal(n as nat),
    decreases n,
{
    if n >= 10 {
        push_decimal(out, n / 10);
    }
    let d: u8 = (n % 10) as u8;
    out.push((48 + d) as char);
    assert(out@ == old(out)@ + decimal(n as nat));
}

/// The decimal notation of a number.
pub fn decimal_of(n: u64) -> (r: String)
    ensures
        r@ == decimal(n as nat),
{
    let mut out = String::new();
    push_decimal(&mut out, n);
    assert(out@ == decimal(n as nat));
    out
}

/// Two strings, one after the other.
pub fn join2(a: &str, b: &str) -> (r: String)
    ensures
        r@ == a@ + b@,
{
    let mut out = a.to_owned();
    out.append(b);
    out
}

/// Three strings, one after the other.
pub fn join3(a: &str, b: &str, c: &str) -> (r: String)
    ensures
        r@ == a@ + b@ + c@,
{
    let mut out = a.to_owned();
    out.append(b);
    out.append(c);
    out
}

/// A text takes no bytes exactly where it has no characters.
pub proof fn lemma_empty_text(s: Seq<char>)
    ensures
        byte_len(s) == 0 <==> s.len() == 0,
{
    vstd::utf8::encode_utf8_decode_utf8(s);
}

/// Texts are the same up to case where they have the same letters: each character is
/// the other one, or its capital letter or the other way round.
pub proof fn law_same_text_ignores_case_alone(a: Seq<char>, b: Seq<char>)
    ensures
        same_text(a, b) <==> a.len() == b.len() && forall|i: int|
            0 <= i < a.len() ==> {
                ||| #[trigger] a[i] == b[i]
                ||| 'A' <= a[i] <= 'Z' && b[i] as int == a[i] as int + 32
                ||| 'A' <= b[i] <= 'Z' && a[i] as int == b[i] as int + 32
            },
        same_text(a, lower(a)),
        lower(a).len() == a.len(),
{
    assert(lower(a).len() == a.len() && lower(b).len() == b.len());
    if a.len() == b.len() {
        assert forall|i: int| 0 <= i < a.len() implies (lower(a)[i] == lower(b)[i] <==> {
            ||| #[trigger] a[i] == b[i]
            ||| 'A' <= a[i] <= 'Z' && b[i] as int == a[i] as int + 32
            ||| 'A' <= b[i] <= 'Z' && a[i] as int == b[i] as int + 32
        }) by {
            lemma_char(a[i]);
            lemma_char(b[i]);
        }
        if same_text(a, b) {
            assert forall|i: int| 0 <= i < a.len() implies {
                ||| #[trigger] a[i] == b[i]
                ||| 'A' <= a[i] <= 'Z' && b[i] as int == a[i] as int + 32
                ||| 'A' <= b[i] <= 'Z' && a[i] as int == b[i] as int + 32
            } by {
                assert(lower(a)[i] == lower(b)[i]);
            }
        } else if forall|i: int|
            0 <= i < a.len() ==> {
                ||| #[trigger] a[i] == b[i]
                ||| 'A' <= a[i] <= 'Z' && b[i] as int == a[i] as int + 32
                ||| 'A' <= b[i] <= 'Z' && a[i] as int == b[i] as int + 32
            } {
            assert(lower(a) =~= lower(b));
        }
    }
    assert(lower(lower(a)) =~= lower(a)) by {
        assert forall|i: int| 0 <= i < a.len() implies lower(lower(a))[i] == lower(a)[i] by {
            lemma_char(a[i]);
        }
    }
}

/// The words that are put together with spaces between them.
pub open spec fn spaced(words: Seq<Seq<char>>) -> Seq<char>
    decreases words.len(),
{
    if words.len() == 0 {
        Seq::empty()
    } else {
        words[0] + seq![' '] + spaced(words.drop_first())
    }
}

/// The fields of words with spaces between them are the words.
pub proof fn law_fields_are_the_words(words: Seq<Seq<char>>)
    requires
        forall|k: int|
            0 <= k < words.len() ==> (#[trigger] words[k]).len() > 0 && forall|i: int|
                0 <= i < words[k].len() ==> !is_space(#[trigger] words[k][i]),
    ensures
        fields(spaced(words)) == words,
    decreases words.len(),
{
    if words.len() == 0 {
        assert(spaced(words) =~= Seq::<char>::empty());
        assert(fields(spaced(words)) =~= words);
    } else {
        let word = words[0];
        let rest = words.drop_first();
        assert forall|k: int| 0 <= k < rest.len() implies (#[trigger] rest[k]).len() > 0
            && forall|i: int| 0 <= i < rest[k].len() ==> !is_space(#[trigger] rest[k][i]) by {
            assert(rest[k] == words[k + 1]);
        }
        law_fields_are_the_words(rest);
        let s = spaced(words);
        let tail = spaced(rest);
        assert(s[0] == word[0]);
        lemma_leading_is(s, Class::Space, 0);
        assert(s.skip(0) =~= s);
        assert forall|i: int| 0 <= i < word.len() implies Class::NonSpace.has(#[trigger] s[i]) by {
            assert(s[i] == word[i]);
        }
        assert(s[word.len() as int] == ' ');
        lemma_leading_is(s, Class::NonSpace, word.len());
        assert(s.take(word.len() as int) =~= word);
        let behind = s.skip(word.len() as int);
        assert(behind =~= seq![' '] + tail);
        assert(behind[0] == ' ');
        assert(behind.drop_first() =~= tail);
        lemma_leading(tail, Class::Space);
        let n = leading(tail, Class::Space);
        assert(leading(behind, Class::Space) == n + 1);
        assert(behind.skip(n as int + 1) =~= tail.skip(n as int));
        assert(fields(behind) == fields(tail));
        assert(seq![word] + rest =~= words);
    }
}

/// The lines of a text begin with what stands in front of its first line end, and go on
/// with those of what stands behind it.
pub proof fn law_lines_end_at_line_ends(line: Seq<char>, rest: Seq<char>)
    requires
        forall|i: int| 0 <= i < line.len() ==> #[trigger] line[i] != '\n',
        line.len() > 0 ==> line.last() != '\r',
    ensures
        lines(line + seq!['\n'] + rest) == seq![line] + lines(rest),
        lines(line + seq!['\r', '\n'] + rest) == seq![line] + lines(rest),
        line.len() > 0 ==> lines(line) == seq![line],
{
    let k = Class::IsNot('\n');
    let s = line + seq!['\n'] + rest;
    let n = line.len();
    assert forall|i: int| 0 <= i < n implies k.has(#[trigger] s[i]) by {
        assert(s[i] == line[i]);
    }
    assert(s[n as int] == '\n');
    lemma_leading_is(s, k, n);
    assert(s.take(n as int) =~= line);
    assert(s.skip(n as int + 1) =~= rest);
    let t = line + seq!['\r', '\n'] + rest;
    let r = line.push('\r');
    assert forall|i: int| 0 <= i < n + 1 implies k.has(#[trigger] t[i]) by {
        assert(t[i] == r[i]);
    }
    assert(t[n as int + 1] == '\n');
    lemma_leading_is(t, k, n + 1);
    assert(t.take(n as int + 1) =~= r);
    assert(r.drop_last() =~= line);
    assert(t.skip(n as int + 2) =~= rest);
    if n > 0 {
        assert forall|i: int| 0 <= i < n implies k.has(#[trigger] line[i]) by {}
        lemma_leading_is(line, k, n);
    }
}

/// Trimming takes characters of the class from both ends, as many as there are, and
/// keeps what is between them.
pub proof fn law_trimming_keeps_the_middle(s: Seq<char>, k: Class) -> (r: (int, int))
    ensures
        0 <= r.0 <= r.1 <= s.len(),
        trim(s, k) == s.subrange(r.0, r.1),
        forall|i: int| 0 <= i < r.0 ==> k.has(#[trigger] s[i]),
        forall|i: int| r.1 <= i < s.len() ==> k.has(#[trigger] s[i]),
        r.0 < r.1 ==> !k.has(s[r.0]) && !k.has(s[r.1 - 1]),
{
    let n = leading(s, k) as int;
    lemma_leading(s, k);
    let t = trim_start(s, k);
    lemma_trailing(t, k);
    let m = trailing(t, k) as int;
    assert(trim(s, k) =~= s.subrange(n, s.len() - m));
    assert forall|i: int| s.len() - m <= i < s.len() implies k.has(#[trigger] s[i]) by {
        assert(s[i] == t[i - n]);
    }
    if n < s.len() - m {
        assert(t[t.len() - m - 1] == s[s.len() - m - 1]);
    }
    (n, s.len() - m)
}

} // verus!
