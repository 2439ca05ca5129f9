//! A lexical model of filesystem paths: a path is an absoluteness flag and a
//! sequence of components. The relative-path algorithm and the forward-slash
//! rendering used for archive-internal names are defined and verified here;
//! conversion from the host's native path values happens outside the library.

use vstd::prelude::*;

verus! {

/// One path component: `..`, `.`, or a plain name.
#[derive(Debug)]
pub enum PathPart {
    Parent,
    Cur,
    Normal(String),
}

/// A filesystem path: whether it is absolute, and its components in order.
#[derive(Debug)]
pub struct FsPath {
    pub absolute: bool,
    pub parts: Vec<PathPart>,
}

/// Mathematical value of one component.
#[verifier::ext_equal]
pub ghost enum PartView {
    Parent,
    Cur,
    Normal(Seq<char>),
}

/// Mathematical value of a path.
#[verifier::ext_equal]
pub ghost struct PathView {
    pub absolute: bool,
    pub parts: Seq<PartView>,
}

pub open spec fn part_view(p: PathPart) -> PartView {
    match p {
        PathPart::Parent => PartView::Parent,
        PathPart::Cur => PartView::Cur,
        PathPart::Normal(s) => PartView::Normal(s@),
    }
}

pub open spec fn parts_view(s: Seq<PathPart>) -> Seq<PartView> {
    s.map_values(|p: PathPart| part_view(p))
}

impl View for FsPath {
    type V = PathView;

    open spec fn view(&self) -> PathView {
        PathView { absolute: self.absolute, parts: parts_view(self.parts@) }
    }
}

impl PathPart {
    /// A copy with the same mathematical value.
    pub fn duplicate(&self) -> (r: PathPart)
        ensures
            part_view(r) == part_view(*self),
    {
        match self {
            PathPart::Parent => PathPart::Parent,
            PathPart::Cur => PathPart::Cur,
            PathPart::Normal(s) => PathPart::Normal(s.clone()),
        }
    }
}

impl FsPath {
    /// A copy with the same mathematical value.
    pub fn duplicate(&self) -> (r: FsPath)
        ensures
            r@ == self@,
    {
        let mut parts: Vec<PathPart> = Vec::new();
        let mut i: usize = 0;
        while i < self.parts.len()
            invariant
                i <= self.parts.len(),
                parts@.len() == i,
                forall|k: int|
                    0 <= k < i ==> part_view(#[trigger] parts@[k]) == part_view(self.parts@[k]),
            decreases self.parts.len() - i,
        {
            parts.push(self.parts[i].duplicate());
            i = i + 1;
        }
        let r = FsPath { absolute: self.absolute, parts };
        proof {
            assert(r@.parts =~= self@.parts);
            assert(r@ =~= self@);
        }
        r
    }
}

/// Whether two components are the same path component.
pub fn part_eq(a: &PathPart, b: &PathPart) -> (r: bool)
    ensures
        r == (part_view(*a) == part_view(*b)),
{
    match (a, b) {
        (PathPart::Parent, PathPart::Parent) => true,
        (PathPart::Cur, PathPart::Cur) => true,
        (PathPart::Normal(x), PathPart::Normal(y)) => *x == *y,
        (PathPart::Parent, PathPart::Cur) => false,
        (PathPart::Parent, PathPart::Normal(_)) => false,
        (PathPart::Cur, PathPart::Parent) => false,
        (PathPart::Cur, PathPart::Normal(_)) => false,
        (PathPart::Normal(_), PathPart::Parent) => false,
        (PathPart::Normal(_), PathPart::Cur) => false,
    }
}

/// A run of `n` `..` components.
pub open spec fn parents(n: int) -> Seq<PartView> {
    Seq::new(n as nat, |i: int| PartView::Parent)
}

/// The lock-step walk after the first component has been emitted: equal
/// components are no longer consumed; a `.` in the base passes one component
/// of the path through, a `..` in the base cannot be expressed, and any other
/// base component diverges.
pub open spec fn rel_tail(p: Seq<PartView>, b: Seq<PartView>) -> Option<Seq<PartView>>
    decreases p.len() + b.len(),
{
    if b.len() == 0 {
        Some(p)
    } else if p.len() == 0 {
        Some(parents(b.len() as int))
    } else if b[0] is Cur {
        match rel_tail(p.drop_first(), b.drop_first()) {
            Some(s) => Some(seq![p[0]] + s),
            None => None,
        }
    } else if b[0] is Parent {
        None
    } else {
        Some(parents(b.len() as int) + p)
    }
}

/// The lock-step walk over the two paths' components: while components are
/// equal they are consumed; on the first divergence one `..` is emitted per
/// remaining base component, followed by the remainder of the path.
pub open spec fn rel_parts(p: Seq<PartView>, b: Seq<PartView>) -> Option<Seq<PartView>>
    decreases p.len() + b.len(),
{
    if b.len() == 0 {
        Some(p)
    } else if p.len() == 0 {
        Some(parents(b.len() as int))
    } else if p[0] == b[0] {
        rel_parts(p.drop_first(), b.drop_first())
    } else if b[0] is Cur {
        match rel_tail(p.drop_first(), b.drop_first()) {
            Some(s) => Some(seq![p[0]] + s),
            None => None,
        }
    } else if b[0] is Parent {
        None
    } else {
        Some(parents(b.len() as int) + p)
    }
}

/// The relative-path computation: a purely lexical walk, with no filesystem
/// access. If exactly one of the two paths is absolute, the path itself is
/// returned unchanged when it is the absolute one, and nothing otherwise.
pub open spec fn spec_relative_from(p: PathView, b: PathView) -> Option<PathView> {
    if p.absolute != b.absolute {
        if p.absolute {
            Some(p)
        } else {
            None
        }
    } else {
        match rel_parts(p.parts, b.parts) {
            Some(parts) => Some(PathView { absolute: false, parts }),
            None => None,
        }
    }
}

/// Builds the run of `..` components for `count` remaining base components,
/// followed by copies of `p[i..]`.
fn parents_then_rest(count: usize, p: &Vec<PathPart>, i: usize) -> (r: Vec<PathPart>)
    requires
        i <= p.len(),
    ensures
        parts_view(r@) =~= parents(count as int) + parts_view(p@).skip(i as int),
{
    let mut r: Vec<PathPart> = Vec::new();
    let mut k: usize = 0;
    while k < count
        invariant
            k <= count,
            r@.len() == k,
            forall|m: int| 0 <= m < k ==> part_view(#[trigger] r@[m]) == PartView::Parent,
        decreases count - k,
    {
        r.push(PathPart::Parent);
        k = k + 1;
    }
    let mut j: usize = i;
    while j < p.len()
        invariant
            i <= j <= p.len(),
            r@.len() == count + (j - i),
            forall|m: int| 0 <= m < count ==> part_view(#[trigger] r@[m]) == PartView::Parent,
            forall|m: int|
                count <= m < r@.len() ==> part_view(#[trigger] r@[m]) == part_view(
                    p@[m - count + i],
                ),
        decreases p.len() - j,
    {
        r.push(p[j].duplicate());
        j = j + 1;
    }
    r
}

/// The recursive walk behind [`path_relative_from`], over `p[i..]` and
/// `b[j..]`; `tail` says whether a component has already been emitted.
fn rel_walk(p: &Vec<PathPart>, b: &Vec<PathPart>, i: usize, j: usize, tail: bool) -> (r: Option<
    Vec<PathPart>,
>)
    requires
        i <= p.len(),
        j <= b.len(),
    ensures
        ({
            let s = if tail {
                rel_tail(parts_view(p@).skip(i as int), parts_view(b@).skip(j as int))
            } else {
                rel_parts(parts_view(p@).skip(i as int), parts_view(b@).skip(j as int))
            };
            match r {
                Some(v) => s == Some(parts_view(v@)),
                None => s is None,
            }
        }),
    decreases p.len() + b.len() - i - j,
{
    let ghost ps = parts_view(p@).skip(i as int);
    let ghost bs = parts_view(b@).skip(j as int);
    if j == b.len() {
        let rest = parents_then_rest(0, p, i);
        proof {
            assert(parents(0) + parts_view(p@).skip(i as int) =~= ps);
        }
        Some(rest)
    } else if i == p.len() {
        let rest = parents_then_rest(b.len() - j, p, i);
        proof {
            assert(parents((b.len() - j) as int) + parts_view(p@).skip(i as int) =~= parents(
                bs.len() as int,
            ));
        }
        Some(rest)
    } else if !tail && part_eq(&p[i], &b[j]) {
        proof {
            assert(ps[0] == bs[0]);
            assert(ps.drop_first() =~= parts_view(p@).skip(i + 1));
            assert(bs.drop_first() =~= parts_view(b@).skip(j + 1));
        }
        rel_walk(p, b, i + 1, j + 1, false)
    } else if matches!(b[j], PathPart::Cur) {
        proof {
            assert(bs[0] is Cur);
            assert(!(!tail && ps[0] == bs[0]));
            assert(ps.drop_first() =~= parts_view(p@).skip(i + 1));
            assert(bs.drop_first() =~= parts_view(b@).skip(j + 1));
        }
        match rel_walk(p, b, i + 1, j + 1, true) {
            Some(mut v) => {
                let ghost vv = parts_view(v@);
                v.insert(0, p[i].duplicate());
                proof {
                    assert(parts_view(v@) =~= seq![ps[0]] + vv);
                }
                Some(v)
            },
            None => None,
        }
    } else if matches!(b[j], PathPart::Parent) {
        proof {
            assert(bs[0] is Parent);
            assert(!(!tail && ps[0] == bs[0]));
        }
        None
    } else {
        let rest = parents_then_rest(b.len() - j, p, i);
        proof {
            assert(bs[0] is Normal);
            assert(parents((b.len() - j) as int) + parts_view(p@).skip(i as int) =~= parents(
                bs.len() as int,
            ) + ps);
        }
        Some(rest)
    }
}

proof fn lemma_prefix_rel(ps: Seq<PartView>, bs: Seq<PartView>)
    requires
        bs.len() <= ps.len(),
        forall|i: int| 0 <= i < bs.len() ==> ps[i] == bs[i],
    ensures
        rel_parts(ps, bs) == Some(ps.skip(bs.len() as int)),
    decreases bs.len(),
{
    if bs.len() == 0 {
        assert(ps.skip(0) =~= ps);
    } else {
        assert(ps[0] == bs[0]);
        let ps1 = ps.drop_first();
        let bs1 = bs.drop_first();
        assert forall|i: int| 0 <= i < bs1.len() implies ps1[i] == bs1[i] by {
            assert(ps[i + 1] == bs[i + 1]);
        }
        lemma_prefix_rel(ps1, bs1);
        assert(ps1.skip(bs1.len() as int) =~= ps.skip(bs.len() as int));
    }
}

/// Law of descent: when a path literally extends the base — the base's
/// components are a prefix of the path's, and every component past that
/// prefix is a plain name — the relative-path walk succeeds and yields
/// exactly the components past the prefix. In particular the resulting name
/// contains no `..` component, leading or otherwise.
pub proof fn lemma_descendant_has_no_parent(p: PathView, b: PathView)
    requires
        p.absolute == b.absolute,
        b.parts.len() <= p.parts.len(),
        forall|i: int| 0 <= i < b.parts.len() ==> p.parts[i] == b.parts[i],
        forall|i: int| b.parts.len() <= i < p.parts.len() ==> p.parts[i] is Normal,
    ensures
        spec_relative_from(p, b) == Some(
            PathView { absolute: false, parts: p.parts.skip(b.parts.len() as int) },
        ),
        forall|i: int|
            0 <= i < p.parts.len() - b.parts.len() ==> p.parts.skip(b.parts.len() as int)[i]
                is Normal,
{
    lemma_prefix_rel(p.parts, b.parts);
    assert forall|i: int|
        0 <= i < p.parts.len() - b.parts.len() implies p.parts.skip(b.parts.len() as int)[i]
        is Normal by {
        assert(p.parts[i + b.parts.len()] is Normal);
    }
}

/// The characters a component contributes to the forward-slash rendering.
pub open spec fn part_chars(p: PartView) -> Seq<char> {
    match p {
        PartView::Parent => seq!['.', '.'],
        PartView::Cur => seq!['.'],
        PartView::Normal(s) => s,
    }
}

/// Components joined with `/`, regardless of the host separator convention.
pub open spec fn slashed_parts(parts: Seq<PartView>) -> Seq<char>
    decreases parts.len(),
{
    if parts.len() == 0 {
        Seq::empty()
    } else if parts.len() == 1 {
        part_chars(parts[0])
    } else {
        part_chars(parts[0]) + seq!['/'] + slashed_parts(parts.drop_first())
    }
}

/// The forward-slash rendering of a whole path; an absolute path starts with
/// `/`.
pub open spec fn spec_slashed(p: PathView) -> Seq<char> {
    if p.absolute {
        seq!['/'] + slashed_parts(p.parts)
    } else {
        slashed_parts(p.parts)
    }
}

proof fn lemma_slashed_snoc(parts: Seq<PartView>, x: PartView)
    ensures
        slashed_parts(parts.push(x)) == if parts.len() == 0 {
            part_chars(x)
        } else {
            slashed_parts(parts) + seq!['/'] + part_chars(x)
        },
    decreases parts.len(),
{
    let whole = parts.push(x);
    if parts.len() == 0 {
        assert(whole.len() == 1);
        assert(whole[0] == x);
    } else {
        assert(whole.len() >= 2);
        assert(whole[0] == parts[0]);
        assert(whole.drop_first() =~= parts.drop_first().push(x));
        lemma_slashed_snoc(parts.drop_first(), x);
        if parts.len() == 1 {
            assert(slashed_parts(parts) == part_chars(parts[0]));
            assert(slashed_parts(whole) == part_chars(parts[0]) + seq!['/'] + part_chars(x));
        } else {
            assert(slashed_parts(whole) =~= slashed_parts(parts) + seq!['/'] + part_chars(x));
        }
    }
}

/// Appends one component's rendering to `out`.
fn push_part_chars(out: &mut String, p: &PathPart)
    ensures
        final(out)@ == old(out)@ + part_chars(part_view(*p)),
{
    proof {
        reveal_strlit("..");
        reveal_strlit(".");
    }
    match p {
        PathPart::Parent => {
            out.append("..");
            proof {
                assert(part_chars(part_view(*p)) =~= ".."@);
            }
        },
        PathPart::Cur => {
            out.append(".");
            proof {
                assert(part_chars(part_view(*p)) =~= "."@);
            }
        },
        PathPart::Normal(s) => {
            out.append(s.as_str());
        },
    }
}

/// Renders a path with forward slashes: the archive-internal form of a name.
pub fn to_slash(path: &FsPath) -> (r: String)
    ensures
        r@ == spec_slashed(path@),
{
    let mut out = String::new();
    if path.absolute {
        out.append("/");
        proof {
            reveal_strlit("/");
            assert(out@ =~= seq!['/']);
        }
    }
    let ghost lead = out@;
    let mut i: usize = 0;
    while i < path.parts.len()
        invariant
            i <= path.parts.len(),
            lead == if path@.absolute {
                seq!['/']
            } else {
                Seq::<char>::empty()
            },
            out@ == lead + slashed_parts(path@.parts.take(i as int)),
        decreases path.parts.len() - i,
    {
        if i > 0 {
            out.append("/");
            proof {
                reveal_strlit("/");
            }
        }
        push_part_chars(&mut out, &path.parts[i]);
        proof {
            let prefix = path@.parts.take(i as int);
            let x = part_view(path.parts@[i as int]);
            lemma_slashed_snoc(prefix, x);
            assert(prefix.push(x) =~= path@.parts.take(i + 1));
            if i == 0 {
                assert(out@ =~= lead + slashed_parts(path@.parts.take(i + 1)));
            } else {
                assert(out@ =~= lead + slashed_parts(path@.parts.take(i + 1)));
            }
        }
        i = i + 1;
    }
    proof {
        assert(path@.parts.take(path.parts.len() as int) =~= path@.parts);
        assert(out@ =~= spec_slashed(path@));
    }
    out
}

/// Index of the first `/` in `s`, or `s.len()` when there is none.
pub open spec fn first_slash(s: Seq<char>) -> int
    decreases s.len(),
{
    if s.len() == 0 {
        0
    } else if s[0] == '/' {
        0
    } else {
        1 + first_slash(s.drop_first())
    }
}

proof fn lemma_first_slash_at(s: Seq<char>, j: int)
    requires
        0 <= j <= s.len(),
        forall|m: int| 0 <= m < j ==> s[m] != '/',
        j == s.len() || s[j] == '/',
    ensures
        first_slash(s) == j,
    decreases j,
{
    if s.len() == 0 {
    } else if j == 0 {
    } else {
        assert(s[0] != '/');
        lemma_first_slash_at(s.drop_first(), j - 1);
    }
}

/// The components one slash-separated segment contributes: an empty segment
/// contributes none, `.` a `Cur`, `..` a `Parent`, anything else a name.
pub open spec fn seg_parts(seg: Seq<char>) -> Seq<PartView> {
    if seg.len() == 0 {
        Seq::empty()
    } else if seg == seq!['.'] {
        seq![PartView::Cur]
    } else if seg == seq!['.', '.'] {
        seq![PartView::Parent]
    } else {
        seq![PartView::Normal(seg)]
    }
}

/// The components of a path string: segments split on `/`, each classified
/// by [`seg_parts`].
pub open spec fn spec_parse_parts(s: Seq<char>) -> Seq<PartView>
    decreases s.len(),
    via spec_parse_parts_decreases
{
    if s.len() == 0 {
        Seq::empty()
    } else {
        let k = first_slash(s);
        if k == s.len() {
            seg_parts(s)
        } else {
            seg_parts(s.take(k)) + spec_parse_parts(s.skip(k + 1))
        }
    }
}

#[via_fn]
proof fn spec_parse_parts_decreases(s: Seq<char>) {
    lemma_first_slash_bounds(s);
}

/// The path a string denotes: absolute when it starts with `/`, with the
/// components of [`spec_parse_parts`].
pub open spec fn spec_parse_path(s: Seq<char>) -> PathView {
    PathView { absolute: s.len() > 0 && s[0] == '/', parts: spec_parse_parts(s) }
}

proof fn lemma_first_slash_bounds(s: Seq<char>)
    ensures
        0 <= first_slash(s) <= s.len(),
        forall|m: int| 0 <= m < first_slash(s) ==> s[m] != '/',
        first_slash(s) < s.len() ==> s[first_slash(s)] == '/',
    decreases s.len(),
{
    if s.len() == 0 {
    } else if s[0] == '/' {
    } else {
        lemma_first_slash_bounds(s.drop_first());
        assert forall|m: int| 0 <= m < first_slash(s) implies s[m] != '/' by {
            if m > 0 {
                assert(s.drop_first()[m - 1] != '/');
            }
        }
    }
}

/// Classifies the segment `s[from..k]` and pushes its component, if any.
fn push_seg(out: &mut Vec<PathPart>, s: &str, from: usize, k: usize)
    requires
        from <= k <= s@.len(),
    ensures
        parts_view(final(out)@) == parts_view(old(out)@) + seg_parts(s@.subrange(from as int, k as int)),
{
    let ghost seg = s@.subrange(from as int, k as int);
    if k == from {
        proof {
            assert(parts_view(out@) =~= parts_view(out@) + seg_parts(seg));
        }
    } else if k - from == 1 && s.get_char(from) == '.' {
        out.push(PathPart::Cur);
        proof {
            assert(seg =~= seq!['.']);
            assert(parts_view(out@) =~= parts_view(old(out)@) + seg_parts(seg));
        }
    } else if k - from == 2 && s.get_char(from) == '.' && s.get_char(from + 1) == '.' {
        out.push(PathPart::Parent);
        proof {
            assert(seg =~= seq!['.', '.']);
            assert(parts_view(out@) =~= parts_view(old(out)@) + seg_parts(seg));
        }
    } else {
        let sub = s.substring_char(from, k);
        out.push(PathPart::Normal(sub.to_owned()));
        proof {
            assert(seg.len() == k - from);
            if seg == seq!['.'] {
                assert(seg[0] == '.');
                assert(s@[from as int] == seg[0]);
                assert(false);
            }
            if seg == seq!['.', '.'] {
                assert(seg[0] == '.' && seg[1] == '.');
                assert(s@[from as int] == seg[0]);
                assert(s@[from as int + 1] == seg[1]);
                assert(false);
            }
            assert(parts_view(out@) =~= parts_view(old(out)@) + seg_parts(seg));
        }
    }
}

/// Parses a path string into the library's path value: segments are split on
/// `/`, `.` and `..` become their components, empty segments are dropped,
/// and a leading `/` makes the path absolute.
pub fn parse_path(s: &str) -> (r: FsPath)
    ensures
        r@ == spec_parse_path(s@),
{
    let n = s.unicode_len();
    let absolute = n > 0 && s.get_char(0) == '/';
    let mut parts: Vec<PathPart> = Vec::new();
    let mut from: usize = 0;
    proof {
        assert(s@.skip(0) =~= s@);
        assert(parts_view(parts@) =~= Seq::<PartView>::empty());
        assert(spec_parse_parts(s@) =~= parts_view(parts@) + spec_parse_parts(s@.skip(0)));
    }
    while from < n
        invariant
            from <= n,
            n == s@.len(),
            spec_parse_parts(s@) == parts_view(parts@) + spec_parse_parts(s@.skip(from as int)),
        decreases n - from,
    {
        let ghost rest = s@.skip(from as int);
        let mut k: usize = from;
        while k < n && s.get_char(k) != '/'
            invariant
                from <= k <= n,
                n == s@.len(),
                forall|m: int| from <= m < k ==> s@[m] != '/',
            decreases n - k,
        {
            k = k + 1;
        }
        proof {
            assert forall|m: int| 0 <= m < k - from implies rest[m] != '/' by {
                assert(s@[from + m] != '/');
            }
            if k < n {
                assert(rest[k - from] == '/');
            }
            lemma_first_slash_at(rest, k - from);
            assert(rest.take(k - from) =~= s@.subrange(from as int, k as int));
        }
        push_seg(&mut parts, s, from, k);
        proof {
            if k == n {
                assert(seg_parts(rest) == seg_parts(s@.subrange(from as int, k as int)));
                assert(spec_parse_parts(rest) == seg_parts(rest));
                assert(spec_parse_parts(s@.skip(n as int)) =~= Seq::<PartView>::empty());
                assert(spec_parse_parts(s@) =~= parts_view(parts@) + spec_parse_parts(
                    s@.skip(n as int),
                ));
            } else {
                assert(spec_parse_parts(rest) == seg_parts(rest.take(k - from))
                    + spec_parse_parts(rest.skip(k - from + 1)));
                assert(rest.skip(k - from + 1) =~= s@.skip(k + 1));
            }
        }
        from = if k < n {
            k + 1
        } else {
            n
        };
    }
    proof {
        assert(spec_parse_parts(s@.skip(n as int)) =~= Seq::<PartView>::empty());
        assert(parts_view(parts@) =~= spec_parse_parts(s@));
    }
    let r = FsPath { absolute, parts };
    proof {
        assert(r@ =~= spec_parse_path(s@));
    }
    r
}

/// Joining a base path and a further path: an absolute second path stands
/// alone, otherwise its components follow the base's.
pub open spec fn spec_join(b: PathView, r: PathView) -> PathView {
    if r.absolute {
        r
    } else {
        PathView { absolute: b.absolute, parts: b.parts + r.parts }
    }
}

/// Joins `base` and `rel` as [`spec_join`] says.
pub fn join_path(base: &FsPath, rel: &FsPath) -> (r: FsPath)
    ensures
        r@ == spec_join(base@, rel@),
{
    if rel.absolute {
        rel.duplicate()
    } else {
        let mut out = base.duplicate();
        let mut i: usize = 0;
        while i < rel.parts.len()
            invariant
                i <= rel.parts.len(),
                parts_view(out.parts@) =~= base@.parts + parts_view(rel.parts@.take(i as int)),
                out.absolute == base.absolute,
            decreases rel.parts.len() - i,
        {
            let ghost before = parts_view(out.parts@);
            out.parts.push(rel.parts[i].duplicate());
            proof {
                assert(parts_view(out.parts@) =~= before.push(part_view(rel.parts@[i as int])));
                assert(parts_view(rel.parts@.take(i + 1)) =~= parts_view(
                    rel.parts@.take(i as int),
                ).push(part_view(rel.parts@[i as int])));
            }
            i = i + 1;
        }
        proof {
            assert(rel.parts@.take(rel.parts@.len() as int) =~= rel.parts@);
            assert(out@ =~= spec_join(base@, rel@));
        }
        out
    }
}

/// Computes `path` relative to `base` by the lexical walk of
/// [`spec_relative_from`]; the result carries no absoluteness.
pub fn path_relative_from(path: &FsPath, base: &FsPath) -> (r: Option<FsPath>)
    ensures
        match r {
            Some(v) => spec_relative_from(path@, base@) == Some(v@),
            None => spec_relative_from(path@, base@) is None,
        },
{
    if path.absolute != base.absolute {
        if path.absolute {
            Some(path.duplicate())
        } else {
            None
        }
    } else {
        proof {
            assert(parts_view(path.parts@).skip(0) =~= path@.parts);
            assert(parts_view(base.parts@).skip(0) =~= base@.parts);
        }
        match rel_walk(&path.parts, &base.parts, 0, 0, false) {
            Some(parts) => Some(FsPath { absolute: false, parts }),
            None => None,
        }
    }
}

} // verus!
