//! Files that a configuration refers to: their paths, and what was found there.

use crate::blocklist::MAX_BLOCKLIST_BYTES;
use crate::dns::hosts::MAX_HOSTS_BYTES;
use crate::text;
use vstd::prelude::*;
use vstd::string::*;

verus! {

pub const MAX_BLOCKLISTS: usize = 8;

pub const MAX_HOSTS_FILES: usize = 4;

/// What a configuration uses a file for.
#[derive(Clone, Copy, Debug, PartialEq, Eq, Structural)]
pub enum AssetKind {
    Blocklist,
    Hosts,
}

impl AssetKind {
    /// How many files of the kind a configuration may refer to.
    pub open spec fn spec_max_files(self) -> usize {
        match self {
            AssetKind::Blocklist => MAX_BLOCKLISTS,
            AssetKind::Hosts => MAX_HOSTS_FILES,
        }
    }

    /// How many bytes a file of the kind may have.
    pub open spec fn spec_max_bytes(self) -> usize {
        match self {
            AssetKind::Blocklist => MAX_BLOCKLIST_BYTES,
            AssetKind::Hosts => MAX_HOSTS_BYTES,
        }
    }

    /// The word that a directive begins with which refers to a file of the kind.
    pub open spec fn word(self) -> Seq<char> {
        match self {
            AssetKind::Blocklist => "blocklist"@,
            AssetKind::Hosts => "hosts"@,
        }
    }

    pub fn max_files(self) -> (r: usize)
        ensures
            r == self.spec_max_files(),
    {
        match self {
            AssetKind::Blocklist => MAX_BLOCKLISTS,
            AssetKind::Hosts => MAX_HOSTS_FILES,
        }
    }

    pub fn max_bytes(self) -> (r: usize)
        ensures
            r == self.spec_max_bytes(),
    {
        match self {
            AssetKind::Blocklist => MAX_BLOCKLIST_BYTES,
            AssetKind::Hosts => MAX_HOSTS_BYTES,
        }
    }
}

/// A file that a configuration refers to.
#[derive(Debug, PartialEq, Eq)]
pub struct AssetReference {
    pub kind: AssetKind,
    pub path: String,
}

impl View for AssetReference {
    type V = (AssetKind, Seq<char>);

    open spec fn view(&self) -> (AssetKind, Seq<char>) {
        (self.kind, self.path@)
    }
}

impl AssetReference {
    /// A file is worth reading where its size does not rule it out already.
    pub fn admits(&self, size: u64) -> (r: bool)
        ensures
            r == (size <= self@.0.spec_max_bytes()),
    {
        size <= self.kind.max_bytes() as u64
    }
}

pub open spec fn reference_views(s: Seq<AssetReference>) -> Seq<(AssetKind, Seq<char>)> {
    s.map_values(|r: AssetReference| r@)
}

/// How many of the references are of a kind.
pub open spec fn count_of(s: Seq<(AssetKind, Seq<char>)>, kind: AssetKind) -> nat
    decreases s.len(),
{
    if s.len() == 0 {
        0
    } else if s.last().0 == kind {
        count_of(s.drop_last(), kind) + 1
    } else {
        count_of(s.drop_last(), kind)
    }
}

/// The references with one more, unless there are as many of its kind as allowed.
pub open spec fn with_reference(
    s: Seq<(AssetKind, Seq<char>)>,
    kind: AssetKind,
    path: Seq<char>,
) -> Seq<(AssetKind, Seq<char>)> {
    if count_of(s, kind) < kind.spec_max_files() {
        s.push((kind, path))
    } else {
        s
    }
}

/// Takes in a reference, unless there are as many of its kind as allowed.
pub fn refer(references: &mut Vec<AssetReference>, kind: AssetKind, path: String)
    ensures
        reference_views(final(references)@) == with_reference(
            reference_views(old(references)@),
            kind,
            path@,
        ),
{
    let ghost all = reference_views(references@);
    let mut count: usize = 0;
    let mut i: usize = 0;
    while i < references.len()
        invariant
            i <= references@.len(),
            all == reference_views(references@),
            count == count_of(all.take(i as int), kind),
            count <= i,
        decreases references@.len() - i,
    {
        proof {
            assert(all.take(i + 1).drop_last() =~= all.take(i as int));
            assert(all.take(i + 1).last() == references@[i as int]@);
        }
        if references[i].kind == kind {
            count = count + 1;
        }
        i = i + 1;
    }
    assert(all.take(i as int) =~= all);
    if count < kind.max_files() {
        references.push(AssetReference { kind, path });
        assert(reference_views(references@) =~= all.push((kind, path@)));
    }
}

/// What the file system gave for a path.
#[derive(Debug)]
pub enum Asset {
    /// The file could not be looked at.
    Missing(String),
    /// The file has this size, and this text where it could be read.
    File { size: u64, text: Result<String, String> },
}

#[verifier::ext_equal]
pub enum AssetView {
    Missing(Seq<char>),
    File { size: u64, text: Result<Seq<char>, Seq<char>> },
}

impl View for Asset {
    type V = AssetView;

    open spec fn view(&self) -> AssetView {
        match self {
            Asset::Missing(reason) => AssetView::Missing(reason@),
            Asset::File { size, text: Ok(t) } => AssetView::File { size: *size, text: Ok(t@) },
            Asset::File { size, text: Err(e) } => AssetView::File { size: *size, text: Err(e@) },
        }
    }
}

#[derive(Debug)]
pub struct AssetEntry {
    pub path: String,
    pub asset: Asset,
}

/// The files that were looked at, by path.
#[derive(Debug)]
pub struct Assets {
    entries: Vec<AssetEntry>,
}

pub type AssetMap = Seq<(Seq<char>, AssetView)>;

impl View for Assets {
    type V = AssetMap;

    closed spec fn view(&self) -> AssetMap {
        self.entries@.map_values(|e: AssetEntry| (e.path@, e.asset@))
    }
}

/// What was found at a path; where nobody looked there is nothing.
pub open spec fn asset_at(assets: AssetMap, path: Seq<char>) -> AssetView
    decreases assets.len(),
{
    if assets.len() == 0 {
        AssetView::Missing("the file was not supplied"@)
    } else if assets[0].0 == path {
        assets[0].1
    } else {
        asset_at(assets.drop_first(), path)
    }
}

/// The text of an asset that may take `max` bytes, or why it cannot be had.
pub open spec fn loaded(
    assets: AssetMap,
    path: Seq<char>,
    max: nat,
    kind: Seq<char>,
) -> Result<Seq<char>, Seq<char>> {
    match asset_at(assets, path) {
        AssetView::Missing(reason) => Err("cannot stat "@ + kind + " "@ + path + ": "@ + reason),
        AssetView::File { size, text } => if size > max {
            Err(kind + " "@ + path + " exceeds "@ + text::decimal(max) + " byte limit"@)
        } else {
            match text {
                Err(reason) => Err("cannot read "@ + kind + " "@ + path + ": "@ + reason),
                Ok(t) => Ok(t),
            }
        },
    }
}

/// Two collections of files give the same for a reference.
pub open spec fn load_alike(a: AssetMap, b: AssetMap, reference: (AssetKind, Seq<char>)) -> bool {
    let (kind, path) = reference;
    loaded(a, path, kind.spec_max_bytes() as nat, kind.word()) == loaded(
        b,
        path,
        kind.spec_max_bytes() as nat,
        kind.word(),
    )
}

/// A text that is put together from five parts.
pub(crate) fn join5(a: &str, b: &str, c: &str, d: &str, e: &str) -> (r: String)
    ensures
        r@ == a@ + b@ + c@ + d@ + e@,
{
    let mut out = text::join3(a, b, c);
    out.append(d);
    out.append(e);
    out
}

impl Assets {
    pub fn new() -> (r: Assets)
        ensures
            r@ == AssetMap::empty(),
    {
        let r = Assets { entries: Vec::new() };
        assert(r@ == AssetMap::empty());
        r
    }

    /// Adds what was found at a path.
    pub fn add(&mut self, path: String, asset: Asset)
        ensures
            final(self)@ == old(self)@.push((path@, asset@)),
    {
        self.entries.push(AssetEntry { path, asset });
        assert(self@ == old(self)@.push((path@, asset@)));
    }

    fn find(&self, path: &str) -> (r: Option<&Asset>)
        ensures
            match r {
                Some(a) => asset_at(self@, path@) == a@,
                None => asset_at(self@, path@) == AssetView::Missing(
                    "the file was not supplied"@,
                ),
            },
    {
        let mut i: usize = 0;
        assert(self@.skip(0) == self@);
        while i < self.entries.len()
            invariant
                i <= self@.len(),
                self.entries@.len() == self@.len(),
                asset_at(self@, path@) == asset_at(self@.skip(i as int), path@),
            decreases self@.len() - i,
        {
            let ghost rest = self@.skip(i as int);
            assert(rest[0] == (self.entries@[i as int].path@, self.entries@[i as int].asset@));
            assert(rest.drop_first() == self@.skip(i + 1));
            if text::same(self.entries[i].path.as_str(), path) {
                return Some(&self.entries[i].asset);
            }
            i = i + 1;
        }
        None
    }

    /// The text of an asset that may take `max` bytes.
    pub fn load(&self, path: &str, max: usize, kind: &str) -> (r: Result<&str, String>)
        ensures
            match r {
                Ok(t) => loaded(self@, path@, max as nat, kind@) == Ok::<Seq<char>, Seq<char>>(t@),
                Err(e) => loaded(self@, path@, max as nat, kind@) == Err::<Seq<char>, Seq<char>>(
                    e@,
                ),
            },
    {
        match self.find(path) {
            None => {
                let mut out = join5("cannot stat ", kind, " ", path, ": ");
                out.append("the file was not supplied");
                Err(out)
            },
            Some(Asset::Missing(reason)) => {
                let mut out = join5("cannot stat ", kind, " ", path, ": ");
                out.append(reason.as_str());
                Err(out)
            },
            Some(Asset::File { size, text: content }) => {
                if *size > max as u64 {
                    let limit = text::decimal_of(max as u64);
                    let mut out = join5(kind, " ", path, " exceeds ", limit.as_str());
                    out.append(" byte limit");
                    return Err(out);
                }
                match content {
                    Err(reason) => {
                        let mut out = join5("cannot read ", kind, " ", path, ": ");
                        out.append(reason.as_str());
                        Err(out)
                    },
                    Ok(t) => Ok(t.as_str()),
                }
            },
        }
    }
}

/// A path that starts at the root of the file system.
pub open spec fn is_absolute(path: Seq<char>) -> bool {
    path.len() > 0 && path[0] == '/'
}

/// The path of an asset: absolute paths stand for themselves, others start at the
/// directory of the configuration.
pub open spec fn asset_path(root: Seq<char>, value: Seq<char>) -> Seq<char> {
    if is_absolute(value) {
        value
    } else if root.len() == 0 || root.last() == '/' {
        root + value
    } else {
        root + seq!['/'] + value
    }
}

pub fn resolve_asset_path(root: &str, value: &[char]) -> (r: String)
    ensures
        r@ == asset_path(root@, value@),
{
    let name = text::to_text(value);
    if value.len() > 0 && value[0] == '/' {
        return name;
    }
    let chars = text::chars_of(root);
    let mut out = root.to_owned();
    if chars.len() > 0 && chars[chars.len() - 1] != '/' {
        out.push('/');
        assert(out@ == root@ + seq!['/']);
    }
    out.append(name.as_str());
    out
}

/// The parts of a path that name something: empty parts do not, and a dot does
/// only in front of a relative path.
pub open spec fn named_parts(parts: Seq<Seq<char>>, relative: bool) -> Seq<Seq<char>>
    decreases parts.len(),
{
    if parts.len() == 0 {
        Seq::empty()
    } else {
        let front = named_parts(parts.drop_last(), relative);
        let part = parts.last();
        if part.len() == 0 || (part == seq!['.'] && !(relative && parts.len() == 1)) {
            front
        } else {
            front.push(part)
        }
    }
}

/// Two notations of one path.
pub open spec fn same_path(a: Seq<char>, b: Seq<char>) -> bool {
    &&& is_absolute(a) == is_absolute(b)
    &&& named_parts(text::split(a, '/'), !is_absolute(a)) == named_parts(
        text::split(b, '/'),
        !is_absolute(b),
    )
}

fn named_parts_of<'a>(parts: &Vec<&'a [char]>, relative: bool) -> (r: Vec<&'a [char]>)
    ensures
        text::texts(r@) == named_parts(text::texts(parts@), relative),
{
    let ghost all = text::texts(parts@);
    let mut out: Vec<&'a [char]> = Vec::new();
    let mut i: usize = 0;
    assert(all.take(0).len() == 0);
    assert(text::texts(out@) =~= Seq::<Seq<char>>::empty());
    while i < parts.len()
        invariant
            i <= parts@.len(),
            all == text::texts(parts@),
            text::texts(out@) == named_parts(all.take(i as int), relative),
        decreases parts@.len() - i,
    {
        let part = parts[i];
        let ghost before = out@;
        proof {
            assert(all.take(i + 1).drop_last() == all.take(i as int));
            assert(all.take(i + 1).last() == part@);
            assert(part@ == seq!['.'] <==> part@.len() == 1 && part@[0] == '.') by {
                if part@.len() == 1 && part@[0] == '.' {
                    assert(part@ =~= seq!['.']);
                }
            }
        }
        if !(part.len() == 0 || (part.len() == 1 && part[0] == '.' && !(relative && i == 0))) {
            out.push(part);
            assert(text::texts(out@) =~= text::texts(before).push(part@));
        }
        i = i + 1;
    }
    assert(all.take(i as int) == all);
    out
}

fn same_parts(a: &Vec<&[char]>, b: &Vec<&[char]>) -> (r: bool)
    ensures
        r == (text::texts(a@) == text::texts(b@)),
{
    if a.len() != b.len() {
        assert(text::texts(a@).len() != text::texts(b@).len());
        return false;
    }
    let mut i: usize = 0;
    while i < a.len()
        invariant
            i <= a@.len(),
            a@.len() == b@.len(),
            forall|j: int| 0 <= j < i ==> text::texts(a@)[j] == text::texts(b@)[j],
        decreases a@.len() - i,
    {
        if !text::equal(a[i], b[i]) {
            assert(text::texts(a@)[i as int] != text::texts(b@)[i as int]);
            return false;
        }
        assert(text::texts(a@)[i as int] == text::texts(b@)[i as int]);
        i = i + 1;
    }
    assert(text::texts(a@) =~= text::texts(b@));
    true
}

pub fn is_same_path(a: &str, b: &str) -> (r: bool)
    ensures
        r == same_path(a@, b@),
{
    let x = text::chars_of(a);
    let y = text::chars_of(b);
    let x_absolute = x.len() > 0 && x[0] == '/';
    let y_absolute = y.len() > 0 && y[0] == '/';
    if x_absolute != y_absolute {
        return false;
    }
    let p = text::split_of(x.as_slice(), '/');
    let q = text::split_of(y.as_slice(), '/');
    let p_named = named_parts_of(&p, !x_absolute);
    let q_named = named_parts_of(&q, !y_absolute);
    same_parts(&p_named, &q_named)
}

/// A file is found by its path, and the first one that was supplied under a path counts.
pub proof fn law_first_file_of_a_path_counts(
    assets: AssetMap,
    path: Seq<char>,
    asset: AssetView,
    other: Seq<char>,
)
    ensures
        ({
            let known = exists|i: int| 0 <= i < assets.len() && (#[trigger] assets[i]).0 == other;
            let after = assets.push((path, asset));
            &&& known || other != path ==> asset_at(after, other) == asset_at(assets, other)
            &&& !known && other == path ==> asset_at(after, other) == asset
            &&& !known ==> asset_at(assets, other) is Missing
            &&& known ==> exists|i: int|
                0 <= i < assets.len() && (#[trigger] assets[i]).0 == other && assets[i].1
                    == asset_at(assets, other)
        }),
    decreases assets.len(),
{
    let after = assets.push((path, asset));
    if assets.len() == 0 {
        assert(after[0] == (path, asset));
        assert(after.drop_first() =~= Seq::empty());
        assert(asset_at(after.drop_first(), other) is Missing);
    } else {
        let rest = assets.drop_first();
        law_first_file_of_a_path_counts(rest, path, asset, other);
        assert(after.drop_first() =~= rest.push((path, asset)));
        assert(after[0] == assets[0]);
        let known = exists|i: int| 0 <= i < assets.len() && (#[trigger] assets[i]).0 == other;
        let later = exists|i: int| 0 <= i < rest.len() && (#[trigger] rest[i]).0 == other;
        if known {
            let i = choose|i: int| 0 <= i < assets.len() && (#[trigger] assets[i]).0 == other;
            if i > 0 {
                assert(rest[i - 1].0 == other);
            }
        }
        if later {
            let i = choose|i: int|
                0 <= i < rest.len() && (#[trigger] rest[i]).0 == other && rest[i].1 == asset_at(
                    rest,
                    other,
                );
            assert(assets[i + 1] == rest[i]);
        }
        if assets[0].0 == other {
            assert(asset_at(assets, other) == assets[0].1);
        }
    }
}

/// The text of a file is taken when the file is there, is not too large and can be read, and
/// otherwise there is an error that names the file.
pub proof fn law_readable_files_are_loaded(
    assets: AssetMap,
    path: Seq<char>,
    max: nat,
    kind: Seq<char>,
)
    ensures
        loaded(assets, path, max, kind) is Ok <==> (asset_at(assets, path) matches AssetView::File {
            size,
            text,
        } && size <= max && text is Ok),
        loaded(assets, path, max, kind) matches Ok(t) ==> (asset_at(assets, path)
            matches AssetView::File { size, text } && text == Ok::<Seq<char>, Seq<char>>(t)),
{
}

/// An absolute path is taken as it is, and another one is taken below the root, however the
/// root ends.
pub proof fn law_relative_paths_lie_below_the_root(root: Seq<char>, value: Seq<char>)
    ensures
        value.len() > 0 && value[0] == '/' ==> asset_path(root, value) == value,
        (value.len() == 0 || value[0] != '/') && root.len() > 0 ==> {
            &&& text::starts_with(asset_path(root, value), root)
            &&& asset_path(root, value).skip(asset_path(root, value).len() - value.len()) == value
            &&& asset_path(root, value)[asset_path(root, value).len() - value.len() - 1] == '/'
            &&& asset_path(root, value).len() == root.len() + value.len() + if root.last() == '/' {
                0int
            } else {
                1
            }
        },
        (value.len() == 0 || value[0] != '/') && root.len() == 0 ==> asset_path(root, value)
            == value,
{
    let p = asset_path(root, value);
    if !is_absolute(value) {
        assert(p.take(root.len() as int) =~= root);
        assert(p.skip(p.len() - value.len()) =~= value);
        if root.len() == 0 {
            assert(p =~= value);
        }
    }
}

/// At most eight block lists and four hosts files are referred to; each is added behind the
/// others.
pub proof fn law_references_are_bounded(
    s: Seq<(AssetKind, Seq<char>)>,
    kind: AssetKind,
    path: Seq<char>,
    other: AssetKind,
)
    requires
        count_of(s, AssetKind::Blocklist) <= 8,
        count_of(s, AssetKind::Hosts) <= 4,
    ensures
        ({
            let after = with_reference(s, kind, path);
            let limit: nat = if kind is Blocklist {
                8
            } else {
                4
            };
            &&& count_of(s, kind) < limit ==> after == s + seq![(kind, path)] && count_of(
                after,
                kind,
            ) == count_of(s, kind) + 1
            &&& count_of(s, kind) == limit ==> after == s
            &&& other != kind ==> count_of(after, other) == count_of(s, other)
        }),
{
    let after = s.push((kind, path));
    assert(after =~= s + seq![(kind, path)]);
    assert(after.drop_last() =~= s);
}

/// Paths are the same when they name the same parts in the same order: a slash at the end, a
/// doubled slash and a single dot name nothing, and a path from the root differs from one that
/// is not.
pub proof fn law_same_path_names_the_same_parts(
    a: Seq<char>,
    p: Seq<char>,
    b: Seq<char>,
    q: Seq<char>,
)
    requires
        a.len() > 0,
        b.len() > 0,
        forall|i: int| 0 <= i < p.len() ==> #[trigger] p[i] != '/',
        forall|i: int| 0 <= i < q.len() ==> #[trigger] q[i] != '/',
    ensures
        same_path(a.push('/'), a),
        same_path(a.push('/') + seq!['.'], a),
        p.len() > 0 && p != seq!['.'] && q.len() > 0 && q != seq!['.'] ==> (same_path(
            a.push('/') + p,
            b.push('/') + q,
        ) <==> same_path(a, b) && p == q),
        p.len() > 0 && q.len() > 0 ==> (same_path(p, q) <==> p == q),
        same_path(a, b) ==> (a[0] == '/' <==> b[0] == '/'),
{
    lemma_split_push(a, Seq::empty());
    lemma_split_push(a, seq!['.']);
    lemma_split_push(a, p);
    lemma_split_push(b, q);
    assert(a.push('/') + Seq::<char>::empty() =~= a.push('/'));
    lemma_named_push(text::split(a, '/'), Seq::empty(), !is_absolute(a));
    lemma_named_push(text::split(a, '/'), seq!['.'], !is_absolute(a));
    lemma_named_push(text::split(a, '/'), p, !is_absolute(a));
    lemma_named_push(text::split(b, '/'), q, !is_absolute(b));
    assert((a.push('/') + seq!['.'])[0] == a[0]);
    assert((a.push('/') + p)[0] == a[0]);
    assert((b.push('/') + q)[0] == b[0]);
    let x = named_parts(text::split(a, '/'), !is_absolute(a));
    let y = named_parts(text::split(b, '/'), !is_absolute(b));
    if x.push(p) == y.push(q) {
        assert(x.push(p).drop_last() =~= x);
        assert(y.push(q).drop_last() =~= y);
        assert(x.push(p).last() == p);
        assert(y.push(q).last() == q);
    }
    lemma_single_part(p);
    lemma_single_part(q);
    if p.len() > 0 && q.len() > 0 && same_path(p, q) {
        assert(seq![p][0] == p && seq![q][0] == q);
    }
}

proof fn lemma_single_part(p: Seq<char>)
    requires
        forall|i: int| 0 <= i < p.len() ==> #[trigger] p[i] != '/',
    ensures
        p.len() > 0 ==> !is_absolute(p) && named_parts(text::split(p, '/'), true) == seq![p],
{
    text::lemma_leading_is(p, text::Class::IsNot('/'), p.len());
    assert(text::split(p, '/') =~= seq![p]);
    let parts = seq![p];
    assert(parts.drop_last() =~= Seq::<Seq<char>>::empty());
    assert(named_parts(parts.drop_last(), true) == Seq::<Seq<char>>::empty());
    assert(Seq::<Seq<char>>::empty().push(p) =~= seq![p]);
}

proof fn lemma_named_push(parts: Seq<Seq<char>>, p: Seq<char>, relative: bool)
    requires
        parts.len() > 0,
    ensures
        named_parts(parts.push(p), relative) == if p.len() == 0 || p == seq!['.'] {
            named_parts(parts, relative)
        } else {
            named_parts(parts, relative).push(p)
        },
{
    assert(parts.push(p).drop_last() =~= parts);
}

/// A part behind a slash is split off at the end.
proof fn lemma_split_push(s: Seq<char>, p: Seq<char>)
    requires
        forall|i: int| 0 <= i < p.len() ==> #[trigger] p[i] != '/',
    ensures
        text::split(s.push('/') + p, '/') == text::split(s, '/').push(p),
        text::split(s, '/').len() > 0,
    decreases s.len(),
{
    let k = text::Class::IsNot('/');
    let all = s.push('/') + p;
    let n = text::leading(s, k) as int;
    text::lemma_leading(s, k);
    text::lemma_leading_is(p, k, p.len());
    assert(text::split(p, '/') =~= seq![p]);
    assert forall|i: int| 0 <= i < n implies k.has(#[trigger] all[i]) by {
        assert(all[i] == s[i]);
    }
    if n < s.len() {
        assert(all[n] == s[n]);
        text::lemma_leading_is(all, k, n as nat);
        let rest = s.skip(n + 1);
        lemma_split_push(rest, p);
        assert(all.skip(n + 1) =~= rest.push('/') + p);
        assert(all.take(n) =~= s.take(n));
        assert(seq![s.take(n)] + text::split(rest, '/').push(p) =~= (seq![s.take(n)] + text::split(
            rest,
            '/',
        )).push(p));
    } else {
        assert(all[n] == '/');
        text::lemma_leading_is(all, k, n as nat);
        assert(all.skip(n + 1) =~= p);
        assert(all.take(n) =~= s);
        assert(seq![s] + seq![p] =~= seq![s].push(p));
    }
}

} // verus!
